//! Encoder and decoder for IEC 61850 GOOSE messages: the tag-length-value
//! codec for the protocol's data types, the structured encode/decode of the
//! GOOSE protocol data unit, and the composition and parsing of the
//! surrounding Ethernet frame with its optional VLAN tag and optional PRP
//! redundancy trailer.
//!
//! Every encoder and decoder is specified against a byte-level mathematical
//! model of the wire format (see [`wire`]) and verified against it.

pub mod error;
pub mod laws;
pub mod model;
pub mod types;
pub mod wire;
mod basic_decoder;
mod basic_encoder;
pub mod pdu;
pub mod pdu_decoder;
pub mod pdu_encoder;
