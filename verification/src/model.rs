//! Ghost models of the codec's data: each executable type has a mathematical
//! counterpart built from `Seq`, `Option` and the primitive integers, and the
//! wire format is specified over these models (see `wire`).
//!
//! Strings are modelled by their UTF-8 bytes, since the wire carries bytes;
//! floating-point leaves are modelled by the raw IEEE-754 bit pattern that
//! travels on the wire.

use crate::types::IECPRPLAN;
use vstd::prelude::*;
use vstd::utf8::valid_utf8;

verus! {

/// Model of one protocol data element ([`crate::types::IECData`]).
pub enum DataModel {
    Array(Seq<DataModel>),
    Structure(Seq<DataModel>),
    Boolean(bool),
    Int8(i8),
    Int16(i16),
    Int32(i32),
    Int64(i64),
    UInt8(u8),
    UInt16(u16),
    UInt32(u32),
    /// IEEE-754 single precision, as its raw bit pattern.
    Float32(u32),
    /// IEEE-754 double precision, as its raw bit pattern.
    Float64(u64),
    /// UTF-8 bytes of the string.
    VisibleString(Seq<u8>),
    /// UTF-8 bytes of the string.
    MmsString(Seq<u8>),
    BitString { padding: u8, bits: Seq<u8> },
    OctetString(Seq<u8>),
    /// Always 8 bytes: 4-byte seconds, 3-byte fraction, 1 quality byte.
    UtcTime(Seq<u8>),
}

/// Well-formedness of a data element model: the invariants that every value
/// built from the executable types satisfies. Bit-string padding counts only
/// the 0..=7 unused trailing bits, timestamps are exactly 8 bytes, and string
/// models hold valid UTF-8 (as the bytes of any `String` do).
pub open spec fn data_wf(m: DataModel) -> bool
    decreases m,
{
    match m {
        DataModel::Array(elems) => forall|i: int|
            0 <= i < elems.len() ==> data_wf(#[trigger] elems[i]),
        DataModel::Structure(elems) => forall|i: int|
            0 <= i < elems.len() ==> data_wf(#[trigger] elems[i]),
        DataModel::BitString { padding, bits } => padding <= 7,
        DataModel::VisibleString(bs) => valid_utf8(bs),
        DataModel::MmsString(bs) => valid_utf8(bs),
        DataModel::UtcTime(bs) => bs.len() == 8,
        _ => true,
    }
}

/// Model of a GOOSE protocol data unit ([`crate::types::IECGoosePdu`]).
pub struct PduModel {
    pub gocbRef: Seq<u8>,
    pub timeAllowedtoLive: u32,
    pub datSet: Seq<u8>,
    pub goID: Seq<u8>,
    pub t: Seq<u8>,
    pub stNum: u32,
    pub sqNum: u32,
    pub simulation: bool,
    pub confRev: u32,
    pub ndsCom: bool,
    pub numDatSetEntries: u32,
    pub allData: Seq<DataModel>,
}

pub open spec fn pdu_wf(p: PduModel) -> bool {
    &&& valid_utf8(p.gocbRef)
    &&& valid_utf8(p.datSet)
    &&& valid_utf8(p.goID)
    &&& p.t.len() == 8
    &&& forall|i: int| 0 <= i < p.allData.len() ==> data_wf(#[trigger] p.allData[i])
}

/// Model of an Ethernet frame header ([`crate::types::EthernetHeader`]).
pub struct EthModel {
    pub dstAddr: Seq<u8>,
    pub srcAddr: Seq<u8>,
    pub VLANID: Option<u16>,
}

pub open spec fn eth_wf(h: EthModel) -> bool {
    &&& h.dstAddr.len() == 6
    &&& h.srcAddr.len() == 6
}

/// Model of the GOOSE header ([`crate::types::IECGooseHeader`]).
pub struct HdrModel {
    pub APPID: Seq<u8>,
    pub length: u16,
}

pub open spec fn hdr_wf(h: HdrModel) -> bool {
    h.APPID.len() == 2
}

/// Model of a PRP trailer ([`crate::types::IECPRP1`]).
pub struct PrpModel {
    pub sequence: u16,
    pub lan: IECPRPLAN,
    pub frame_size: u16,
}

/// Model of a whole GOOSE packet ([`crate::types::IECGoosePacket`]).
pub struct PacketModel {
    pub eth_hdr: EthModel,
    pub goose_hdr: HdrModel,
    pub pdu: PduModel,
    pub prp: Option<PrpModel>,
}

pub open spec fn packet_wf(p: PacketModel) -> bool {
    &&& eth_wf(p.eth_hdr)
    &&& hdr_wf(p.goose_hdr)
    &&& pdu_wf(p.pdu)
}

} // verus!
