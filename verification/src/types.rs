#![allow(non_snake_case)]
#![allow(non_camel_case_types)]

use crate::model::{DataModel, EthModel, HdrModel, PacketModel, PduModel, PrpModel};
use vstd::prelude::*;
use vstd::utf8::encode_utf8;

verus! {

/// One protocol data element: the tagged union of the abstract data types
/// that a GOOSE data set can carry.
///
/// The two floating-point kinds hold the raw big-endian IEEE-754 bit pattern
/// (`f32::to_bits` / `f64::to_bits`), which is exactly what travels on the
/// wire; the codec never performs floating-point arithmetic on them.
#[derive(Debug, PartialEq)]
pub enum IECData {
    array(Vec<IECData>),
    structure(Vec<IECData>),
    boolean(bool),
    int8(i8),
    int16(i16),
    int32(i32),
    int64(i64),
    int8u(u8),
    int16u(u16),
    int32u(u32),
    /// IEEE-754 single precision, as its raw bit pattern.
    float32(u32),
    /// IEEE-754 double precision, as its raw bit pattern.
    float64(u64),
    visible_string(String),
    mms_string(String),
    /// `padding` counts the 0..=7 unused trailing bits of the last byte.
    bit_string { padding: u8, val: Vec<u8> },
    octet_string(Vec<u8>),
    /// 4-byte seconds, 3-byte fractional seconds, 1 quality byte.
    utc_time([u8; 8]),
}

/// The models of a sequence of data elements, in order.
pub open spec fn data_views(s: Seq<IECData>) -> Seq<DataModel>
    decreases s,
{
    if s.len() == 0 {
        Seq::empty()
    } else {
        data_views(s.drop_last()).push(s.last()@)
    }
}

impl View for IECData {
    type V = DataModel;

    open spec fn view(&self) -> DataModel
        decreases self,
    {
        match self {
            IECData::array(elems) => DataModel::Array(data_views(elems@)),
            IECData::structure(elems) => DataModel::Structure(data_views(elems@)),
            IECData::boolean(b) => DataModel::Boolean(*b),
            IECData::int8(v) => DataModel::Int8(*v),
            IECData::int16(v) => DataModel::Int16(*v),
            IECData::int32(v) => DataModel::Int32(*v),
            IECData::int64(v) => DataModel::Int64(*v),
            IECData::int8u(v) => DataModel::UInt8(*v),
            IECData::int16u(v) => DataModel::UInt16(*v),
            IECData::int32u(v) => DataModel::UInt32(*v),
            IECData::float32(bits) => DataModel::Float32(*bits),
            IECData::float64(bits) => DataModel::Float64(*bits),
            IECData::visible_string(s) => DataModel::VisibleString(encode_utf8(s@)),
            IECData::mms_string(s) => DataModel::MmsString(encode_utf8(s@)),
            IECData::bit_string { padding, val } => DataModel::BitString {
                padding: *padding,
                bits: val@,
            },
            IECData::octet_string(bs) => DataModel::OctetString(bs@),
            IECData::utc_time(bs) => DataModel::UtcTime(bs@),
        }
    }
}

pub broadcast proof fn lemma_data_views_index(s: Seq<IECData>)
    ensures
        (#[trigger] data_views(s)).len() == s.len(),
        forall|i: int| 0 <= i < s.len() ==> data_views(s)[i] == s[i]@,
    decreases s,
{
    if s.len() > 0 {
        lemma_data_views_index(s.drop_last());
        assert(data_views(s) == data_views(s.drop_last()).push(s.last()@));
        assert forall|i: int| 0 <= i < s.len() implies data_views(s)[i] == s[i]@ by {
            if i < s.len() - 1 {
                assert(s.drop_last()[i] == s[i]);
            }
        }
    }
}

/// The one invariant the executable types do not enforce by construction:
/// every bit-string's padding counts at most seven unused bits.
pub open spec fn paddings_ok(d: IECData) -> bool
    decreases d,
{
    match d {
        IECData::array(elems) => forall|i: int|
            0 <= i < elems@.len() ==> paddings_ok(#[trigger] elems@[i]),
        IECData::structure(elems) => forall|i: int|
            0 <= i < elems@.len() ==> paddings_ok(#[trigger] elems@[i]),
        IECData::bit_string { padding, val } => padding <= 7,
        _ => true,
    }
}

/// An executable element whose bit-string paddings are in range has a
/// well-formed model: its strings really are UTF-8 and its timestamps
/// really are eight bytes.
pub proof fn lemma_view_wf(d: IECData)
    requires
        paddings_ok(d),
    ensures
        crate::model::data_wf(d@),
    decreases d,
{
    broadcast use vstd::utf8::encode_utf8_valid_utf8;

    match d {
        IECData::array(elems) => {
            lemma_data_views_index(elems@);
            assert forall|i: int| 0 <= i < data_views(elems@).len() implies crate::model::data_wf(
                #[trigger] data_views(elems@)[i],
            ) by {
                lemma_view_wf(elems@[i]);
            }
        },
        IECData::structure(elems) => {
            lemma_data_views_index(elems@);
            assert forall|i: int| 0 <= i < data_views(elems@).len() implies crate::model::data_wf(
                #[trigger] data_views(elems@)[i],
            ) by {
                lemma_view_wf(elems@[i]);
            }
        },
        _ => {},
    }
}

/// An Ethernet frame header: destination and source MAC addresses and an
/// optional 802.1Q VLAN id.
#[derive(Debug, Clone, PartialEq)]
pub struct EthernetHeader {
    pub srcAddr: [u8; 6],
    pub dstAddr: [u8; 6],
    pub VLANID: Option<u16>,
}

impl View for EthernetHeader {
    type V = EthModel;

    open spec fn view(&self) -> EthModel {
        EthModel { dstAddr: self.dstAddr@, srcAddr: self.srcAddr@, VLANID: self.VLANID }
    }
}

/// The GOOSE header: application id and the on-wire payload length (the
/// encoder stores the PDU length plus 8, covering the header bytes counted
/// from the APPID on).
#[derive(Debug, Clone, PartialEq)]
pub struct IECGooseHeader {
    pub APPID: [u8; 2],
    pub length: u16,
}

impl View for IECGooseHeader {
    type V = HdrModel;

    open spec fn view(&self) -> HdrModel {
        HdrModel { APPID: self.APPID@, length: self.length }
    }
}

impl IECGooseHeader {
    /// Number of bytes the GOOSE header occupies on the wire: ethertype,
    /// APPID, length and two reserved fields, two bytes each.
    pub fn getSize() -> (r: usize)
        ensures
            r == 10,
    {
        10
    }
}

/// A PDU whose data-set elements all have in-range bit-string paddings has
/// a well-formed model.
pub proof fn lemma_pdu_view_wf(p: &IECGoosePdu)
    requires
        forall|i: int| 0 <= i < p.allData@.len() ==> paddings_ok(#[trigger] p.allData@[i]),
    ensures
        crate::model::pdu_wf(p@),
{
    broadcast use vstd::utf8::encode_utf8_valid_utf8;

    lemma_data_views_index(p.allData@);
    assert forall|i: int| 0 <= i < data_views(p.allData@).len() implies crate::model::data_wf(
        #[trigger] data_views(p.allData@)[i],
    ) by {
        lemma_view_wf(p.allData@[i]);
    }
}

/// A packet whose data-set elements all have in-range bit-string paddings
/// has a well-formed model.
pub proof fn lemma_packet_view_wf(p: &IECGoosePacket)
    requires
        forall|i: int| 0 <= i < p.pdu.allData@.len() ==> paddings_ok(#[trigger] p.pdu.allData@[i]),
    ensures
        crate::model::packet_wf(p@),
{
    lemma_pdu_view_wf(&p.pdu);
}

/// A GOOSE protocol data unit. `numDatSetEntries` must equal
/// `allData.len()`; the encoder recomputes it from `allData` and the decoder
/// rejects a PDU in which the two disagree.
#[derive(Debug, PartialEq)]
pub struct IECGoosePdu {
    pub gocbRef: String,
    pub timeAllowedtoLive: u32,
    pub datSet: String,
    pub goID: String,
    pub t: [u8; 8],
    pub stNum: u32,
    pub sqNum: u32,
    pub simulation: bool,
    pub confRev: u32,
    pub ndsCom: bool,
    pub numDatSetEntries: u32,
    pub allData: Vec<IECData>,
}

impl View for IECGoosePdu {
    type V = PduModel;

    open spec fn view(&self) -> PduModel {
        PduModel {
            gocbRef: encode_utf8(self.gocbRef@),
            timeAllowedtoLive: self.timeAllowedtoLive,
            datSet: encode_utf8(self.datSet@),
            goID: encode_utf8(self.goID@),
            t: self.t@,
            stNum: self.stNum,
            sqNum: self.sqNum,
            simulation: self.simulation,
            confRev: self.confRev,
            ndsCom: self.ndsCom,
            numDatSetEntries: self.numDatSetEntries,
            allData: data_views(self.allData@),
        }
    }
}

/// The LAN a PRP frame was duplicated onto (IEC 62439-3).
#[derive(Debug, Clone, Copy, PartialEq, Eq, Structural)]
pub enum IECPRPLAN {
    LAN_A,
    LAN_B,
}

/// An IEC 62439-3 Parallel Redundancy Protocol trailer: a 16-bit sequence
/// number and a 12-bit frame size whose high nibble names the LAN.
#[derive(Debug, Clone, PartialEq)]
pub struct IECPRP1 {
    pub sequence: u16,
    pub lan: IECPRPLAN,
    pub frame_size: u16,
}

impl View for IECPRP1 {
    type V = PrpModel;

    open spec fn view(&self) -> PrpModel {
        PrpModel { sequence: self.sequence, lan: self.lan, frame_size: self.frame_size }
    }
}

/// The model of an optional PRP trailer.
pub open spec fn prp_view(p: Option<IECPRP1>) -> Option<PrpModel> {
    match p {
        Some(x) => Some(x@),
        None => None,
    }
}

/// A whole GOOSE packet: Ethernet header, GOOSE header, PDU and an optional
/// PRP trailer. Holds no cross-call state; every encode or decode call is
/// independent.
#[derive(Debug, PartialEq)]
pub struct IECGoosePacket {
    pub eth_hdr: EthernetHeader,
    pub goose_hdr: IECGooseHeader,
    pub pdu: IECGoosePdu,
    pub prp: Option<IECPRP1>,
}

impl View for IECGoosePacket {
    type V = PacketModel;

    open spec fn view(&self) -> PacketModel {
        PacketModel {
            eth_hdr: self.eth_hdr@,
            goose_hdr: self.goose_hdr@,
            pdu: self.pdu@,
            prp: prp_view(self.prp),
        }
    }
}

} // verus!
