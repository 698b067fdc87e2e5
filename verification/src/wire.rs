//! The byte-level specification of the wire format.
//!
//! `*_bytes` functions give the exact big-endian byte sequence the encoder
//! produces for a model value; `decode_*` functions give the value (or the
//! failure) the decoder extracts from a byte sequence. The executable codec
//! is verified against these functions, and `laws` proves that decoding an
//! encoding yields the value back.

use crate::model::{DataModel, EthModel, HdrModel, PacketModel, PduModel, PrpModel};
use crate::types::IECPRPLAN;
use vstd::prelude::*;
use vstd::utf8::valid_utf8;

verus! {

/// Tag byte of each data element kind.
pub const TAG_BOOLEAN: u8 = 0x83;

pub const TAG_SIGNED: u8 = 0x85;

pub const TAG_UNSIGNED: u8 = 0x86;

pub const TAG_FLOAT: u8 = 0x87;

pub const TAG_OCTET_STRING: u8 = 0x89;

pub const TAG_VISIBLE_STRING: u8 = 0x8a;

pub const TAG_MMS_STRING: u8 = 0x90;

pub const TAG_BIT_STRING: u8 = 0x84;

pub const TAG_UTC_TIME: u8 = 0x91;

pub const TAG_ARRAY: u8 = 0xa1;

pub const TAG_STRUCTURE: u8 = 0xa2;

/// Tag introducing the whole GOOSE PDU.
pub const TAG_GOOSE_PDU: u8 = 0x61;

/// Tag introducing the AllData container inside the PDU.
pub const TAG_ALL_DATA: u8 = 0xab;

/// 256 to the power `k`: the number of values a `k`-byte field can carry.
pub open spec fn p256(k: nat) -> nat
    decreases k,
{
    if k == 0 {
        1
    } else {
        256 * p256((k - 1) as nat)
    }
}

/// The value of a big-endian byte sequence.
pub open spec fn be_val(b: Seq<u8>) -> nat
    decreases b.len(),
{
    if b.len() == 0 {
        0
    } else {
        (be_val(b.drop_last()) * 256 + b.last()) as nat
    }
}

/// The `k`-byte big-endian encoding of `n % p256(k)`.
pub open spec fn u_be(n: nat, k: nat) -> Seq<u8>
    decreases k,
{
    if k == 0 {
        Seq::empty()
    } else {
        u_be(n / 256, (k - 1) as nat).push((n % 256) as u8)
    }
}

/// The shortest big-endian encoding of `n` (a single byte for zero).
pub open spec fn min_be(n: nat) -> Seq<u8>
    decreases n,
{
    if n < 256 {
        seq![n as u8]
    } else {
        min_be(n / 256).push((n % 256) as u8)
    }
}

/// The `k`-byte big-endian two's-complement encoding of `v`.
pub open spec fn i_be(v: int, k: nat) -> Seq<u8> {
    u_be((v % (p256(k) as int)) as nat, k)
}

/// The signed value of a big-endian two's-complement byte sequence.
pub open spec fn sign_val(b: Seq<u8>) -> int {
    if be_val(b) >= p256(b.len()) / 2 {
        be_val(b) - p256(b.len())
    } else {
        be_val(b) as int
    }
}

/// A BER length field: the length itself below 128, otherwise a prefix byte
/// holding 0x80 plus the count of length bytes, then the minimal big-endian
/// length.
pub open spec fn len_bytes(n: nat) -> Seq<u8> {
    if n < 128 {
        seq![n as u8]
    } else {
        seq![(128 + min_be(n).len()) as u8] + min_be(n)
    }
}

/// One tag-length-value element.
pub open spec fn tlv(tag: u8, payload: Seq<u8>) -> Seq<u8> {
    seq![tag] + len_bytes(payload.len()) + payload
}

/// Encoded width of a 32-bit signed integer: the decoder maps three- and
/// four-byte signed payloads to this kind, and the encoder picks the
/// smaller width that holds the value.
pub open spec fn i32_width(v: i32) -> nat {
    if -0x800000 <= v < 0x800000 {
        3
    } else {
        4
    }
}

/// Encoded width of a 64-bit signed integer: five to eight bytes, minimal.
pub open spec fn i64_width(v: i64) -> nat {
    if -0x80_0000_0000 <= v < 0x80_0000_0000 {
        5
    } else if -0x8000_0000_0000 <= v < 0x8000_0000_0000 {
        6
    } else if -0x80_0000_0000_0000 <= v < 0x80_0000_0000_0000 {
        7
    } else {
        8
    }
}

/// Encoded width of a 32-bit unsigned integer: three or four bytes, minimal.
pub open spec fn u32_width(v: u32) -> nat {
    if v < 0x100_0000 {
        3
    } else {
        4
    }
}

/// Encoded width of an unsigned PDU header field: one to four bytes, minimal.
pub open spec fn ufield_width(v: u32) -> nat {
    if v < 0x100 {
        1
    } else if v < 0x1_0000 {
        2
    } else if v < 0x100_0000 {
        3
    } else {
        4
    }
}

/// The encoding of one data element.
pub open spec fn value_bytes(m: DataModel) -> Seq<u8>
    decreases m, 0int,
{
    match m {
        DataModel::Array(elems) => tlv(TAG_ARRAY, seq_bytes(elems, 0)),
        DataModel::Structure(elems) => tlv(TAG_STRUCTURE, seq_bytes(elems, 0)),
        DataModel::Boolean(v) => tlv(TAG_BOOLEAN, seq![if v { 1u8 } else { 0u8 }]),
        DataModel::Int8(v) => tlv(TAG_SIGNED, i_be(v as int, 1)),
        DataModel::Int16(v) => tlv(TAG_SIGNED, i_be(v as int, 2)),
        DataModel::Int32(v) => tlv(TAG_SIGNED, i_be(v as int, i32_width(v))),
        DataModel::Int64(v) => tlv(TAG_SIGNED, i_be(v as int, i64_width(v))),
        DataModel::UInt8(v) => tlv(TAG_UNSIGNED, u_be(v as nat, 1)),
        DataModel::UInt16(v) => tlv(TAG_UNSIGNED, u_be(v as nat, 2)),
        DataModel::UInt32(v) => tlv(TAG_UNSIGNED, u_be(v as nat, u32_width(v))),
        DataModel::Float32(bits) => tlv(TAG_FLOAT, seq![8u8] + u_be(bits as nat, 4)),
        DataModel::Float64(bits) => tlv(TAG_FLOAT, seq![11u8] + u_be(bits as nat, 8)),
        DataModel::VisibleString(bs) => tlv(TAG_VISIBLE_STRING, bs),
        DataModel::MmsString(bs) => tlv(TAG_MMS_STRING, bs),
        DataModel::BitString { padding, bits } => tlv(TAG_BIT_STRING, seq![padding] + bits),
        DataModel::OctetString(bs) => tlv(TAG_OCTET_STRING, bs),
        DataModel::UtcTime(bs) => tlv(TAG_UTC_TIME, bs),
    }
}

/// The concatenated encodings of `elems[i..]`.
pub open spec fn seq_bytes(elems: Seq<DataModel>, i: int) -> Seq<u8>
    decreases elems, elems.len() - i + 1,
{
    if i < 0 || i >= elems.len() {
        Seq::empty()
    } else {
        value_bytes(elems[i]) + seq_bytes(elems, i + 1)
    }
}

/// The entry count the encoder writes: the actual length of the data set,
/// whatever the caller stored in `numDatSetEntries`.
pub open spec fn encoded_entry_count(p: PduModel) -> u32 {
    (p.allData.len() % 0x1_0000_0000) as u32
}

/// The encoding of the eleven fixed PDU fields followed by the AllData
/// container, each under its context tag.
pub open spec fn pdu_fields_bytes(p: PduModel) -> Seq<u8> {
    tlv(0x80, p.gocbRef) + (tlv(
        0x81,
        u_be(p.timeAllowedtoLive as nat, ufield_width(p.timeAllowedtoLive)),
    ) + (tlv(0x82, p.datSet) + (tlv(0x83, p.goID) + (tlv(0x84, p.t) + (tlv(
        0x85,
        u_be(p.stNum as nat, ufield_width(p.stNum)),
    ) + (tlv(0x86, u_be(p.sqNum as nat, ufield_width(p.sqNum))) + (tlv(
        0x87,
        seq![if p.simulation { 1u8 } else { 0u8 }],
    ) + (tlv(0x88, u_be(p.confRev as nat, ufield_width(p.confRev))) + (tlv(
        0x89,
        seq![if p.ndsCom { 1u8 } else { 0u8 }],
    ) + (tlv(
        0x8a,
        u_be(encoded_entry_count(p) as nat, ufield_width(encoded_entry_count(p))),
    ) + tlv(TAG_ALL_DATA, seq_bytes(p.allData, 0))))))))))))
}

/// The encoding of a whole PDU under its reserved outer tag.
pub open spec fn pdu_bytes(p: PduModel) -> Seq<u8> {
    tlv(TAG_GOOSE_PDU, pdu_fields_bytes(p))
}

/// The encoding of the Ethernet header: destination, source, and the
/// optional 802.1Q tag behind its 0x8100 marker.
pub open spec fn eth_bytes(h: EthModel) -> Seq<u8> {
    h.dstAddr + h.srcAddr + match h.VLANID {
        Some(id) => seq![0x81u8, 0x00u8] + u_be(id as nat, 2),
        None => Seq::empty(),
    }
}

/// The encoding of the GOOSE header for a PDU of `plen` bytes: ethertype
/// marker, APPID, the length with its fixed +8 adjustment, and two reserved
/// zero fields.
pub open spec fn goose_hdr_bytes(appid: Seq<u8>, plen: nat) -> Seq<u8> {
    seq![0x88u8, 0xb8u8] + appid + u_be(plen + 8, 2) + seq![0u8, 0u8, 0u8, 0u8]
}

/// The high nibble of the PRP size field naming the LAN.
pub open spec fn lan_nibble(lan: IECPRPLAN) -> u16 {
    match lan {
        IECPRPLAN::LAN_A => 0xa,
        IECPRPLAN::LAN_B => 0xb,
    }
}

/// The six PRP trailer bytes: sequence number, LAN nibble packed over the
/// 12-bit frame size, and the fixed PRP suffix.
pub open spec fn prp_bytes(prp: PrpModel, frame_size: nat) -> Seq<u8> {
    u_be(prp.sequence as nat, 2) + u_be((lan_nibble(prp.lan) * 0x1000 + frame_size % 0x1000) as nat, 2)
        + seq![0x88u8, 0xfbu8]
}

/// The frame size the encoder packs into a PRP trailer: GOOSE header plus
/// PDU, plus the four VLAN bytes when a VLAN tag is present.
pub open spec fn prp_frame_size(p: PacketModel) -> nat {
    10 + pdu_bytes(p.pdu).len() + if p.eth_hdr.VLANID is Some {
        4nat
    } else {
        0nat
    }
}

/// The encoding of a whole packet.
pub open spec fn frame_bytes(p: PacketModel) -> Seq<u8> {
    let pdu = pdu_bytes(p.pdu);
    let trailer = match p.prp {
        Some(prp) => prp_bytes(prp, prp_frame_size(p)),
        None => Seq::empty(),
    };
    eth_bytes(p.eth_hdr) + (goose_hdr_bytes(p.goose_hdr.APPID, pdu.len()) + (pdu + trailer))
}

/// Reading one tag byte and one length field at `pos`: the tag, the payload
/// length and the position after the header, or `None` when the bytes run
/// out, the length encoding is malformed, or the length cannot be held.
pub open spec fn read_tl(b: Seq<u8>, pos: nat) -> Option<(u8, nat, nat)> {
    if pos + 2 > b.len() {
        None
    } else {
        let tag = b[pos as int];
        let l0 = b[pos as int + 1];
        if l0 < 0x80 {
            Some((tag, l0 as nat, (pos + 2) as nat))
        } else {
            let k = (l0 - 0x80) as nat;
            if k == 0 || k > 8 || pos + 2 + k > b.len() {
                None
            } else {
                let l = be_val(b.subrange(pos as int + 2, pos as int + 2 + k));
                if l > usize::MAX as nat {
                    None
                } else {
                    Some((tag, l, (pos + 2 + k) as nat))
                }
            }
        }
    }
}

/// A decode failure as the specification states it: the message text and
/// the byte offset at which the anomaly was detected.
pub struct ErrModel {
    pub message: Seq<char>,
    pub pos: nat,
}

/// Shorthand for building an [`ErrModel`].
pub open spec fn fault(message: Seq<char>, pos: nat) -> ErrModel {
    ErrModel { message, pos }
}

/// Decoding one data element at `pos`: the position after the element and
/// its model, or the positioned error for any malformed element. Unknown
/// tags and unsupported width combinations are reported at the tag byte;
/// missing payload bytes at the payload's start.
pub open spec fn decode_elem(b: Seq<u8>, pos: nat) -> Result<(nat, DataModel), ErrModel>
    decreases b.len() - pos, 0int,
{
    match read_tl(b, pos) {
        None => Err(fault("buffer too short"@, pos)),
        Some((tag, len, p2)) => {
            if tag == TAG_BOOLEAN {
                if len == 1 && p2 + 1 <= b.len() {
                    Ok(((p2 + 1) as nat, DataModel::Boolean(b[p2 as int] != 0)))
                } else {
                    Err(fault("unexpected size boolean"@, pos))
                }
            } else if tag == TAG_SIGNED {
                if !(1 <= len <= 8) {
                    Err(fault("oversize signed interger"@, pos))
                } else if p2 + len > b.len() {
                    Err(fault("buffer too short"@, p2))
                } else {
                    let payload = b.subrange(p2 as int, (p2 + len) as int);
                    let np = (p2 + len) as nat;
                    if len == 1 {
                        Ok((np, DataModel::Int8(sign_val(payload) as i8)))
                    } else if len == 2 {
                        Ok((np, DataModel::Int16(sign_val(payload) as i16)))
                    } else if len <= 4 {
                        Ok((np, DataModel::Int32(sign_val(payload) as i32)))
                    } else {
                        Ok((np, DataModel::Int64(sign_val(payload) as i64)))
                    }
                }
            } else if tag == TAG_UNSIGNED {
                if !(1 <= len <= 5) {
                    Err(fault("oversize unsigned interger"@, pos))
                } else if p2 + len > b.len() {
                    Err(fault("buffer too short"@, p2))
                } else {
                    let payload = b.subrange(p2 as int, (p2 + len) as int);
                    let np = (p2 + len) as nat;
                    if len == 1 {
                        Ok((np, DataModel::UInt8(be_val(payload) as u8)))
                    } else if len == 2 {
                        Ok((np, DataModel::UInt16(be_val(payload) as u16)))
                    } else if len <= 4 {
                        Ok((np, DataModel::UInt32(be_val(payload) as u32)))
                    } else if b[p2 as int] == 0 {
                        // a 32-bit value prepended with one zero pad byte
                        Ok(
                            (
                                np,
                                DataModel::UInt32(
                                    be_val(b.subrange(p2 as int + 1, (p2 + 5) as int)) as u32,
                                ),
                            ),
                        )
                    } else {
                        Err(fault("oversize unsigned interger"@, pos))
                    }
                }
            } else if tag == TAG_FLOAT {
                if len != 5 && len != 9 {
                    Err(fault("unexpexted size float"@, pos))
                } else if p2 + len > b.len() {
                    Err(fault("buffer too short"@, p2))
                } else {
                    let np = (p2 + len) as nat;
                    if len == 5 {
                        Ok(
                            (
                                np,
                                DataModel::Float32(
                                    be_val(b.subrange(p2 as int + 1, (p2 + 5) as int)) as u32,
                                ),
                            ),
                        )
                    } else {
                        Ok(
                            (
                                np,
                                DataModel::Float64(
                                    be_val(b.subrange(p2 as int + 1, (p2 + 9) as int)) as u64,
                                ),
                            ),
                        )
                    }
                }
            } else if tag == TAG_VISIBLE_STRING || tag == TAG_MMS_STRING {
                if p2 + len > b.len() {
                    Err(fault("buffer too short"@, p2))
                } else {
                    let payload = b.subrange(p2 as int, (p2 + len) as int);
                    if valid_utf8(payload) {
                        let np = (p2 + len) as nat;
                        if tag == TAG_VISIBLE_STRING {
                            Ok((np, DataModel::VisibleString(payload)))
                        } else {
                            Ok((np, DataModel::MmsString(payload)))
                        }
                    } else {
                        Err(fault("invalid utf-8 string"@, p2))
                    }
                }
            } else if tag == TAG_BIT_STRING {
                if len < 1 || p2 + len > b.len() {
                    Err(fault("buffer too short"@, p2))
                } else if b[p2 as int] > 7 {
                    Err(fault("invalid bit string padding"@, pos))
                } else {
                    Ok(
                        (
                            (p2 + len) as nat,
                            DataModel::BitString {
                                padding: b[p2 as int],
                                bits: b.subrange(p2 as int + 1, (p2 + len) as int),
                            },
                        ),
                    )
                }
            } else if tag == TAG_OCTET_STRING {
                if p2 + len > b.len() {
                    Err(fault("buffer too short"@, p2))
                } else {
                    Ok(
                        (
                            (p2 + len) as nat,
                            DataModel::OctetString(b.subrange(p2 as int, (p2 + len) as int)),
                        ),
                    )
                }
            } else if tag == TAG_UTC_TIME {
                if len != 8 {
                    Err(fault("unexpected size utc-time"@, pos))
                } else if p2 + 8 > b.len() {
                    Err(fault("buffer too short"@, p2))
                } else {
                    Ok(((p2 + 8) as nat, DataModel::UtcTime(b.subrange(p2 as int, p2 as int + 8))))
                }
            } else if tag == TAG_ARRAY || tag == TAG_STRUCTURE {
                if p2 + len > b.len() {
                    Err(fault("buffer too short"@, p2))
                } else {
                    match decode_seq(b, p2, p2 + len) {
                        Err(e) => Err(e),
                        Ok((np, elems)) => {
                            if tag == TAG_ARRAY {
                                Ok((np, DataModel::Array(elems)))
                            } else {
                                Ok((np, DataModel::Structure(elems)))
                            }
                        },
                    }
                }
            } else {
                Err(fault("unknown data type"@, pos))
            }
        },
    }
}

/// Decoding data elements from `pos` until the running position reaches or
/// passes `end`. The wire format carries no element count: termination is
/// purely length-bounded, and a sequence that starts at or past `end` is
/// empty. An element's failure is the sequence's failure, unchanged.
pub open spec fn decode_seq(b: Seq<u8>, pos: nat, end: nat) -> Result<
    (nat, Seq<DataModel>),
    ErrModel,
>
    decreases b.len() - pos, 1int,
{
    if pos >= end {
        Ok((pos, Seq::empty()))
    } else {
        match decode_elem(b, pos) {
            Err(e) => Err(e),
            Ok((np, m)) => {
                if np <= pos || np > b.len() {
                    // unreachable: an element always advances and stays in bounds
                    Err(fault("buffer too short"@, np))
                } else {
                    match decode_seq(b, np, end) {
                        Err(e) => Err(e),
                        Ok((e, rest)) => Ok((e, seq![m] + rest)),
                    }
                }
            },
        }
    }
}

/// Reading one unsigned PDU field: its tag is not checked, and one to four
/// payload bytes are accepted.
pub open spec fn read_uint_field(b: Seq<u8>, pos: nat) -> Result<(nat, u32), ErrModel> {
    match read_tl(b, pos) {
        None => Err(fault("buffer too short"@, pos)),
        Some((tag, len, p2)) => {
            if 1 <= len <= 4 && p2 + len <= b.len() {
                Ok(((p2 + len) as nat, be_val(b.subrange(p2 as int, (p2 + len) as int)) as u32))
            } else {
                Err(fault("buffer too short"@, p2))
            }
        },
    }
}

/// Reading one string PDU field: its tag is not checked; the payload must be
/// valid UTF-8.
pub open spec fn read_string_field(b: Seq<u8>, pos: nat) -> Result<(nat, Seq<u8>), ErrModel> {
    match read_tl(b, pos) {
        None => Err(fault("buffer too short"@, pos)),
        Some((tag, len, p2)) => {
            if p2 + len > b.len() {
                Err(fault("buffer too short"@, p2))
            } else if !valid_utf8(b.subrange(p2 as int, (p2 + len) as int)) {
                Err(fault("invalid utf-8 string"@, p2))
            } else {
                Ok(((p2 + len) as nat, b.subrange(p2 as int, (p2 + len) as int)))
            }
        },
    }
}

/// Reading the fixed eight-byte timestamp field: its tag is not checked.
pub open spec fn read_time_field(b: Seq<u8>, pos: nat) -> Result<(nat, Seq<u8>), ErrModel> {
    match read_tl(b, pos) {
        None => Err(fault("buffer too short"@, pos)),
        Some((tag, len, p2)) => {
            if len == 8 && p2 + 8 <= b.len() {
                Ok(((p2 + 8) as nat, b.subrange(p2 as int, p2 as int + 8)))
            } else {
                Err(fault("buffer too short"@, p2))
            }
        },
    }
}

/// Reading one boolean PDU field: its tag is not checked; the payload is a
/// single byte, nonzero meaning true.
pub open spec fn read_bool_field(b: Seq<u8>, pos: nat) -> Result<(nat, bool), ErrModel> {
    match read_tl(b, pos) {
        None => Err(fault("buffer too short"@, pos)),
        Some((tag, len, p2)) => {
            if len == 1 && p2 + 1 <= b.len() {
                Ok(((p2 + 1) as nat, b[p2 as int] != 0))
            } else {
                Err(fault("buffer too short"@, p2))
            }
        },
    }
}

/// Decoding a whole PDU at `pos`: the outer tag must be the reserved PDU
/// tag and its declared length must fit the remaining buffer; the eleven
/// fixed fields follow in strict order (their individual tags are not
/// checked), then the AllData container under its own tag; finally the
/// decoded entry count must equal the number of decoded elements.
pub open spec fn decode_pdu(b: Seq<u8>, pos: nat) -> Result<(nat, PduModel), ErrModel> {
    match read_tl(b, pos) {
        None => Err(fault("buffer too short"@, pos)),
        Some((tag0, plen, p0)) => {
            if tag0 != TAG_GOOSE_PDU {
                Err(fault("first tag != 61"@, p0))
            } else if p0 + plen > b.len() {
                Err(fault("buffer too short"@, p0))
            } else {
                match read_string_field(b, p0) {
                    Err(e) => Err(e),
                    Ok((p1, gocbRef)) => match read_uint_field(b, p1) {
                        Err(e) => Err(e),
                        Ok((p2, timeAllowedtoLive)) => match read_string_field(b, p2) {
                            Err(e) => Err(e),
                            Ok((p3, datSet)) => match read_string_field(b, p3) {
                                Err(e) => Err(e),
                                Ok((p4, goID)) => match read_time_field(b, p4) {
                                    Err(e) => Err(e),
                                    Ok((p5, t)) => match read_uint_field(b, p5) {
                                        Err(e) => Err(e),
                                        Ok((p6, stNum)) => match read_uint_field(b, p6) {
                                            Err(e) => Err(e),
                                            Ok((p7, sqNum)) => match read_bool_field(b, p7) {
                                                Err(e) => Err(e),
                                                Ok((p8, simulation)) => match read_uint_field(
                                                    b,
                                                    p8,
                                                ) {
                                                    Err(e) => Err(e),
                                                    Ok((p9, confRev)) => match read_bool_field(
                                                        b,
                                                        p9,
                                                    ) {
                                                        Err(e) => Err(e),
                                                        Ok((p10, ndsCom)) => match read_uint_field(
                                                            b,
                                                            p10,
                                                        ) {
                                                            Err(e) => Err(e),
                                                            Ok((p11, numDatSetEntries)) => decode_pdu_tail(
                                                                b,
                                                                p11,
                                                                PduModel {
                                                                    gocbRef,
                                                                    timeAllowedtoLive,
                                                                    datSet,
                                                                    goID,
                                                                    t,
                                                                    stNum,
                                                                    sqNum,
                                                                    simulation,
                                                                    confRev,
                                                                    ndsCom,
                                                                    numDatSetEntries,
                                                                    allData: Seq::empty(),
                                                                },
                                                            ),
                                                        },
                                                    },
                                                },
                                            },
                                        },
                                    },
                                },
                            },
                        },
                    },
                }
            }
        },
    }
}

/// The tail of PDU decoding: the AllData container under its reserved tag,
/// then the entry-count consistency check. `head` carries the eleven fixed
/// fields already decoded; its (empty) data set is replaced by the
/// container's contents.
pub open spec fn decode_pdu_tail(b: Seq<u8>, p11: nat, head: PduModel) -> Result<
    (nat, PduModel),
    ErrModel,
> {
    match read_tl(b, p11) {
        None => Err(fault("buffer too short"@, p11)),
        Some((atag, alen, p12)) => {
            if atag != TAG_ALL_DATA {
                Err(fault("allData tag != ab"@, p12))
            } else if p12 + alen > b.len() {
                Err(fault("buffer too short"@, p12))
            } else {
                match decode_seq(b, p12, p12 + alen) {
                    Err(e) => Err(e),
                    Ok((p13, allData)) => {
                        if head.numDatSetEntries != allData.len() {
                            Err(fault("allData size does not match data entries"@, p13))
                        } else {
                            Ok((p13, PduModel { allData, ..head }))
                        }
                    },
                }
            }
        },
    }
}

/// Decoding the Ethernet header: both MAC addresses, then a VLAN id exactly
/// when the 0x8100 marker follows them. An error when fewer than 18 bytes
/// remain.
pub open spec fn decode_eth(b: Seq<u8>, pos: nat) -> Result<(nat, EthModel), ErrModel> {
    if pos + 18 > b.len() {
        Err(fault("Buffer too short"@, pos))
    } else {
        let dst = b.subrange(pos as int, pos as int + 6);
        let src = b.subrange(pos as int + 6, pos as int + 12);
        if b[pos as int + 12] == 0x81 && b[pos as int + 13] == 0x00 {
            Ok(
                (
                    (pos + 16) as nat,
                    EthModel {
                        dstAddr: dst,
                        srcAddr: src,
                        VLANID: Some(
                            be_val(b.subrange(pos as int + 14, pos as int + 16)) as u16,
                        ),
                    },
                ),
            )
        } else {
            Ok(((pos + 12) as nat, EthModel { dstAddr: dst, srcAddr: src, VLANID: None }))
        }
    }
}

/// Decoding the GOOSE header. `Err`: fewer than ten bytes remain.
/// `Ok(None)`: the ethertype is not the GOOSE marker, so the frame belongs
/// to other traffic (not an error). Otherwise APPID and length are read and
/// the two reserved fields skipped.
pub open spec fn decode_goose_hdr(b: Seq<u8>, pos: nat) -> Result<
    Option<(nat, HdrModel)>,
    ErrModel,
> {
    if pos + 10 > b.len() {
        Err(fault("Buffer too short"@, pos))
    } else if !(b[pos as int] == 0x88 && b[pos as int + 1] == 0xb8) {
        Ok(None)
    } else {
        Ok(
            Some(
                (
                    (pos + 10) as nat,
                    HdrModel {
                        APPID: b.subrange(pos as int + 2, pos as int + 4),
                        length: be_val(b.subrange(pos as int + 4, pos as int + 6)) as u16,
                    },
                ),
            ),
        )
    }
}

/// Decoding the PRP trailer. A trailer is present only when exactly six
/// bytes remain and they end in the PRP marker; its LAN nibble must name
/// LAN A or LAN B (an error otherwise). A missing trailer is `Ok(None)`,
/// not an error.
pub open spec fn decode_prp(b: Seq<u8>, pos: nat) -> Result<Option<(nat, PrpModel)>, ErrModel> {
    if b.len() == pos + 6 && b[pos as int + 4] == 0x88 && b[pos as int + 5] == 0xfb {
        let seqn = be_val(b.subrange(pos as int, pos as int + 2)) as u16;
        let fsize = be_val(b.subrange(pos as int + 2, pos as int + 4)) as u16;
        if fsize / 0x1000 == 0xa {
            Ok(
                Some(
                    (
                        (pos + 6) as nat,
                        PrpModel {
                            sequence: seqn,
                            lan: IECPRPLAN::LAN_A,
                            frame_size: (fsize % 0x1000) as u16,
                        },
                    ),
                ),
            )
        } else if fsize / 0x1000 == 0xb {
            Ok(
                Some(
                    (
                        (pos + 6) as nat,
                        PrpModel {
                            sequence: seqn,
                            lan: IECPRPLAN::LAN_B,
                            frame_size: (fsize % 0x1000) as u16,
                        },
                    ),
                ),
            )
        } else {
            Err(fault("IEC PRP LAN undefined"@, pos))
        }
    } else {
        Ok(None)
    }
}

/// The three outcomes of decoding a frame.
pub enum FrameResult {
    /// The ethertype is not the GOOSE marker: the frame belongs to other
    /// traffic on a shared link and is silently skipped.
    Other,
    /// A malformed GOOSE frame: the failing stage's positioned error.
    Malformed(ErrModel),
    /// A fully reconstructed packet.
    Packet(PacketModel),
}

/// Decoding a whole frame at `pos`: Ethernet header, GOOSE header, PDU, and
/// the optional PRP trailer read from the final six bytes of the buffer.
/// A failure in any stage is the frame's failure, unchanged.
pub open spec fn decode_packet(b: Seq<u8>, pos: nat) -> FrameResult {
    match decode_eth(b, pos) {
        Err(e) => FrameResult::Malformed(e),
        Ok((p1, eth)) => match decode_goose_hdr(b, p1) {
            Err(e) => FrameResult::Malformed(e),
            Ok(None) => FrameResult::Other,
            Ok(Some((p2, hdr))) => match decode_pdu(b, p2) {
                Err(e) => FrameResult::Malformed(e),
                Ok((p3, pdu)) => match decode_prp(b, p3) {
                    Err(e) => FrameResult::Malformed(e),
                    Ok(None) => FrameResult::Packet(
                        PacketModel { eth_hdr: eth, goose_hdr: hdr, pdu, prp: None },
                    ),
                    Ok(Some((p4, prp))) => FrameResult::Packet(
                        PacketModel { eth_hdr: eth, goose_hdr: hdr, pdu, prp: Some(prp) },
                    ),
                },
            },
        },
    }
}

pub proof fn lemma_p256_pos(k: nat)
    ensures
        p256(k) >= 1,
    decreases k,
{
    if k > 0 {
        lemma_p256_pos((k - 1) as nat);
    }
}

pub proof fn lemma_p256_values()
    ensures
        p256(0) == 1,
        p256(1) == 0x100,
        p256(2) == 0x1_0000,
        p256(3) == 0x100_0000,
        p256(4) == 0x1_0000_0000,
        p256(5) == 0x100_0000_0000,
        p256(6) == 0x1_0000_0000_0000,
        p256(7) == 0x100_0000_0000_0000,
        p256(8) == 0x1_0000_0000_0000_0000,
{
    assert(p256(0) == 1);
    assert(p256(1) == 0x100);
    assert(p256(2) == 0x1_0000);
    assert(p256(3) == 0x100_0000);
    assert(p256(4) == 0x1_0000_0000);
    assert(p256(5) == 0x100_0000_0000);
    assert(p256(6) == 0x1_0000_0000_0000);
    assert(p256(7) == 0x100_0000_0000_0000);
    assert(p256(8) == 0x1_0000_0000_0000_0000);
}

pub proof fn lemma_p256_le(i: nat, j: nat)
    requires
        i <= j,
    ensures
        p256(i) <= p256(j),
    decreases j,
{
    if i < j {
        lemma_p256_le(i, (j - 1) as nat);
        lemma_p256_pos((j - 1) as nat);
    }
}

/// A `k`-byte sequence holds a value below `p256(k)`.
pub proof fn lemma_be_val_bound(b: Seq<u8>)
    ensures
        be_val(b) < p256(b.len()),
    decreases b.len(),
{
    if b.len() > 0 {
        lemma_be_val_bound(b.drop_last());
    }
}

pub proof fn lemma_u_be_len(n: nat, k: nat)
    ensures
        u_be(n, k).len() == k,
    decreases k,
{
    if k > 0 {
        lemma_u_be_len(n / 256, (k - 1) as nat);
    }
}

/// Reading back a `k`-byte big-endian encoding yields the value modulo
/// `p256(k)`.
pub proof fn lemma_u_be_val(n: nat, k: nat)
    ensures
        be_val(u_be(n, k)) == n % p256(k),
    decreases k,
{
    if k == 0 {
        assert(n % 1 == 0) by {
            vstd::arithmetic::div_mod::lemma_small_mod(0, 1);
            vstd::arithmetic::div_mod::lemma_mod_multiples_vanish(n as int, 0, 1);
        }
    } else {
        let k1 = (k - 1) as nat;
        lemma_u_be_val(n / 256, k1);
        lemma_p256_pos(k1);
        let s = u_be(n / 256, k1);
        assert(u_be(n, k) == s.push((n % 256) as u8));
        assert(u_be(n, k).drop_last() == s);
        assert(be_val(u_be(n, k)) == be_val(s) * 256 + n % 256);
        vstd::arithmetic::div_mod::lemma_mod_breakdown(n as int, 256, p256(k1) as int);
        assert(n % (256 * p256(k1)) == 256 * ((n / 256) % p256(k1)) + n % 256);
        assert(p256(k) == 256 * p256(k1));
    }
}

/// `u_be` depends only on the value modulo `p256(k)`.
pub proof fn lemma_u_be_mod(n: nat, k: nat)
    ensures
        u_be(n % p256(k), k) == u_be(n, k),
    decreases k,
{
    if k > 0 {
        let k1 = (k - 1) as nat;
        lemma_p256_pos(k1);
        let p = p256(k1) as int;
        vstd::arithmetic::div_mod::lemma_mod_breakdown(n as int, 256, p);
        let m = (n as int) % (256 * p);
        assert(m == 256 * ((n as int / 256) % p) + (n as int) % 256);
        // low digit agrees
        vstd::arithmetic::div_mod::lemma_mod_multiples_vanish((n as int / 256) % p, n as int % 256, 256);
        assert(m % 256 == (n % 256) as int % 256);
        vstd::arithmetic::div_mod::lemma_small_mod(n % 256, 256);
        // high digits agree
        assert(m / 256 == (n / 256) % p256(k1)) by {
            vstd::arithmetic::div_mod::lemma_fundamental_div_mod_converse(
                m as int,
                256,
                (n as int / 256) % p,
                n as int % 256,
            );
        }
        lemma_u_be_mod(n / 256, k1);
        assert(u_be((m / 256) as nat, k1) == u_be(n / 256, k1));
        assert(p256(k) == 256 * p256(k1));
        assert(u_be(m as nat, k) == u_be((m / 256) as nat, k1).push((m % 256) as u8));
    }
}

/// Reading back the minimal big-endian encoding yields the value itself.
pub proof fn lemma_min_be_val(n: nat)
    ensures
        be_val(min_be(n)) == n,
        min_be(n).len() >= 1,
    decreases n,
{
    if n < 256 {
        let s = seq![n as u8];
        assert(s.drop_last() =~= Seq::<u8>::empty());
        assert(be_val(s.drop_last()) == 0);
        assert(be_val(s) == be_val(s.drop_last()) * 256 + s.last());
        assert(be_val(s) == n);
    } else {
        lemma_min_be_val(n / 256);
        let s = min_be(n / 256);
        assert(min_be(n) == s.push((n % 256) as u8));
        assert(min_be(n).drop_last() == s);
        assert(be_val(min_be(n)) == be_val(s) * 256 + n % 256);
        vstd::arithmetic::div_mod::lemma_fundamental_div_mod(n as int, 256);
    }
}

/// A value below `p256(k)` needs at most `k` minimal bytes.
pub proof fn lemma_min_be_len(n: nat, k: nat)
    requires
        n < p256(k),
        k >= 1,
    ensures
        min_be(n).len() <= k,
    decreases k,
{
    if n >= 256 {
        let k1 = (k - 1) as nat;
        if k1 == 0 {
            assert(p256(1) == 256) by {
                lemma_p256_values();
            }
            assert(false);
        }
        assert(n / 256 < p256(k1)) by {
            lemma_p256_pos(k1);
            assert(p256(k) == 256 * p256(k1));
            assert(n < 256 * p256(k1));
            vstd::arithmetic::div_mod::lemma_multiply_divide_lt(n as int, 256, p256(k1) as int);
        }
        lemma_min_be_len(n / 256, k1);
    }
}

/// A successful tag-length read lands after the header, within the buffer.
pub proof fn lemma_read_tl_bounds(b: Seq<u8>, pos: nat)
    ensures
        read_tl(b, pos) matches Some((tag, len, np)) ==> pos + 2 <= np <= b.len(),
{
}

/// A successfully decoded element starts with at least a two-byte header
/// and ends within the buffer.
pub proof fn lemma_decode_elem_bounds(b: Seq<u8>, pos: nat)
    ensures
        decode_elem(b, pos) matches Ok((np, m)) ==> pos + 2 <= np <= b.len(),
    decreases b.len() - pos, 0int,
{
    match read_tl(b, pos) {
        None => {},
        Some((tag, len, p2)) => {
            if (tag == TAG_ARRAY || tag == TAG_STRUCTURE) && p2 + len <= b.len() {
                lemma_decode_seq_bounds(b, p2, p2 + len);
            }
        },
    }
}

/// A successfully decoded sequence only moves forward, and ends within the
/// buffer.
pub proof fn lemma_decode_seq_bounds(b: Seq<u8>, pos: nat, end: nat)
    requires
        pos <= b.len(),
    ensures
        decode_seq(b, pos, end) matches Ok((np, ms)) ==> pos <= np <= b.len(),
    decreases b.len() - pos, 1int,
{
    if pos < end {
        match decode_elem(b, pos) {
            Err(e) => {},
            Ok((np, m)) => {
                lemma_decode_elem_bounds(b, pos);
                if pos < np <= b.len() {
                    lemma_decode_seq_bounds(b, np, end);
                }
            },
        }
    }
}

pub proof fn lemma_p256_split(a: nat, b: nat)
    ensures
        p256(a + b) == p256(a) * p256(b),
    decreases a,
{
    if a == 0 {
        assert(p256(0 + b) == 1 * p256(b));
    } else {
        lemma_p256_split((a - 1) as nat, b);
        assert(p256(a + b) == 256 * p256((a + b - 1) as nat));
        assert((a - 1) + b == a + b - 1);
        assert(p256(a) * p256(b) == (256 * p256((a - 1) as nat)) * p256(b));
        vstd::arithmetic::mul::lemma_mul_is_associative(
            256,
            p256((a - 1) as nat) as int,
            p256(b) as int,
        );
    }
}

/// A signed value within the `k`-byte two's-complement range survives the
/// round trip through `i_be` and `sign_val`.
pub proof fn lemma_sign_rt(v: int, k: nat)
    requires
        1 <= k,
        -(p256(k) as int) / 2 <= v < p256(k) / 2,
    ensures
        i_be(v, k).len() == k,
        sign_val(i_be(v, k)) == v,
{
    lemma_p256_pos((k - 1) as nat);
    assert(p256(k) == 256 * p256((k - 1) as nat));
    let p = p256(k) as int;
    assert(p >= 256);
    assert(p % 2 == 0) by {
        vstd::arithmetic::div_mod::lemma_fundamental_div_mod_converse(
            p,
            2,
            128 * p256((k - 1) as nat) as int,
            0,
        );
    }
    let vm = v % p;
    if v >= 0 {
        vstd::arithmetic::div_mod::lemma_small_mod(v as nat, p as nat);
        assert(vm == v);
    } else {
        vstd::arithmetic::div_mod::lemma_mod_multiples_vanish(1, v, p);
        assert((p + v) % p == v % p);
        vstd::arithmetic::div_mod::lemma_small_mod((p + v) as nat, p as nat);
        assert(vm == p + v);
    }
    lemma_u_be_len(vm as nat, k);
    lemma_u_be_val(vm as nat, k);
    vstd::arithmetic::div_mod::lemma_small_mod(vm as nat, p as nat);
    assert(be_val(i_be(v, k)) == vm);
}

/// `sign_val` of a `k`-byte sequence lies within the `k`-byte
/// two's-complement range.
pub proof fn lemma_sign_val_bound(b: Seq<u8>)
    ensures
        -(p256(b.len()) as int) / 2 <= sign_val(b) < p256(b.len()) / 2,
{
    lemma_be_val_bound(b);
    lemma_p256_pos(b.len());
    let p = p256(b.len()) as int;
    assert(-p / 2 <= -(p / 2)) by {
        vstd::arithmetic::div_mod::lemma_fundamental_div_mod(p, 2);
        vstd::arithmetic::div_mod::lemma_fundamental_div_mod(-p, 2);
    }
}

} // verus!
