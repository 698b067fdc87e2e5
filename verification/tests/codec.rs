#![allow(non_snake_case)]

use goose_packet::pdu::{decodeGoosePacket, encodeGoosePacket, getTimeMs};
use goose_packet::pdu_decoder::{decodeIECData, decodeIECDataElement, decodeIECGoosePdu};
use goose_packet::pdu_encoder::{encodeIECData, encodeIECDataElement, encodeIECGoosePdu};
use goose_packet::types::{
    EthernetHeader, IECData, IECGooseHeader, IECGoosePacket, IECGoosePdu, IECPRP1, IECPRPLAN,
};

fn round_trip_value(v: IECData) {
    let mut buf: Vec<u8> = Vec::new();
    encodeIECDataElement(&v, &mut buf);
    let (np, back) = decodeIECDataElement(&buf, 0).expect("decode failed");
    assert_eq!(np, buf.len());
    assert_eq!(back, v);
}

fn sample_pdu() -> IECGoosePdu {
    IECGoosePdu {
        gocbRef: "testGoose".to_string(),
        timeAllowedtoLive: 6400,
        datSet: "test_datSet".to_string(),
        goID: "test_ID".to_string(),
        t: [0, 1, 2, 3, 4, 5, 6, 0x18],
        stNum: 12,
        sqNum: 23,
        simulation: false,
        confRev: 5,
        ndsCom: false,
        numDatSetEntries: 2,
        allData: vec![IECData::int8(2), IECData::boolean(true)],
    }
}

fn sample_packet(vlan: Option<u16>, prp: Option<IECPRP1>) -> IECGoosePacket {
    IECGoosePacket {
        eth_hdr: EthernetHeader {
            srcAddr: [0, 0, 0, 0, 0, 0],
            dstAddr: [0x01, 0x0c, 0xcd, 0x01, 0x00, 0x01],
            VLANID: vlan,
        },
        goose_hdr: IECGooseHeader { APPID: [0x01, 0x01], length: 0 },
        pdu: sample_pdu(),
        prp,
    }
}

#[test]
fn round_trip_every_leaf_kind() {
    round_trip_value(IECData::boolean(true));
    round_trip_value(IECData::boolean(false));
    round_trip_value(IECData::int8(-128));
    round_trip_value(IECData::int16(-30000));
    round_trip_value(IECData::int32(234));
    round_trip_value(IECData::int32(i32::MIN));
    round_trip_value(IECData::int64(-234567890));
    round_trip_value(IECData::int64(i64::MAX));
    round_trip_value(IECData::int8u(200));
    round_trip_value(IECData::int16u(40000));
    round_trip_value(IECData::int32u(4294967295));
    round_trip_value(IECData::float32(0.123f32.to_bits()));
    round_trip_value(IECData::float64(0.123f64.to_bits()));
    round_trip_value(IECData::visible_string("abc234".to_string()));
    round_trip_value(IECData::mms_string("h\u{e9}llo".to_string()));
    round_trip_value(IECData::bit_string { padding: 3, val: vec![0x00, 0x01] });
    round_trip_value(IECData::octet_string(vec![0x22, 0x33, 0x66]));
    round_trip_value(IECData::utc_time([1, 2, 3, 4, 5, 6, 7, 0x18]));
}

#[test]
fn round_trip_nested_containers() {
    // two levels of nesting with every container kind on the path
    let tree = IECData::array(vec![
        IECData::int8(-2),
        IECData::structure(vec![
            IECData::int32u(4294967295),
            IECData::array(vec![IECData::boolean(true), IECData::visible_string("x".into())]),
        ]),
        IECData::int64(-234567890),
    ]);
    round_trip_value(tree);
}

#[test]
fn round_trip_empty_array() {
    round_trip_value(IECData::array(vec![]));
    round_trip_value(IECData::structure(vec![]));
}

#[test]
fn int8_exact_bytes() {
    let mut buf: Vec<u8> = Vec::new();
    encodeIECDataElement(&IECData::int8(2), &mut buf);
    assert_eq!(buf, vec![0x85, 0x01, 0x02]);
}

#[test]
fn int32_negative_minimal_three_bytes() {
    let mut buf: Vec<u8> = Vec::new();
    encodeIECDataElement(&IECData::int32(-2), &mut buf);
    assert_eq!(buf, vec![0x85, 0x03, 0xff, 0xff, 0xfe]);
}

#[test]
fn string_encodes_utf8_bytes() {
    // would fail if the string bytes were not real UTF-8
    let mut buf: Vec<u8> = Vec::new();
    encodeIECDataElement(&IECData::visible_string("h\u{e9}".to_string()), &mut buf);
    assert_eq!(buf, vec![0x8a, 0x03, b'h', 0xc3, 0xa9]);
}

#[test]
fn invalid_utf8_string_rejected() {
    let buf = vec![0x8au8, 0x01, 0xff];
    let e = decodeIECDataElement(&buf, 0).unwrap_err();
    assert_eq!(e.message, "invalid utf-8 string");
}

#[test]
fn multibyte_length_round_trip() {
    let v = IECData::octet_string(vec![0xabu8; 200]);
    let mut buf: Vec<u8> = Vec::new();
    encodeIECDataElement(&v, &mut buf);
    assert_eq!(buf[0], 0x89);
    assert_eq!(buf[1], 0x81); // long form, one length byte
    assert_eq!(buf[2], 200);
    assert_eq!(buf.len(), 203);
    let (np, back) = decodeIECDataElement(&buf, 0).expect("decode failed");
    assert_eq!(np, 203);
    assert_eq!(back, v);
}

#[test]
fn oversize_unsigned_rejected_at_tag_byte() {
    // an unsigned integer declaring six payload bytes must fail, with the
    // error positioned at the tag byte
    let buf = vec![0x86u8, 0x06, 0, 0, 0, 0, 0, 0];
    let e = decodeIECDataElement(&buf, 0).unwrap_err();
    assert_eq!(e.message, "oversize unsigned interger");
    assert_eq!(e.pos, 0);
}

#[test]
fn five_byte_unsigned_zero_pad_accepted() {
    let buf = vec![0x86u8, 0x05, 0x00, 0xde, 0xad, 0xbe, 0xef];
    let (np, v) = decodeIECDataElement(&buf, 0).expect("decode failed");
    assert_eq!(np, 7);
    assert_eq!(v, IECData::int32u(0xdeadbeef));
}

#[test]
fn five_byte_unsigned_nonzero_pad_rejected() {
    let buf = vec![0x86u8, 0x05, 0x01, 0xde, 0xad, 0xbe, 0xef];
    let e = decodeIECDataElement(&buf, 0).unwrap_err();
    assert_eq!(e.message, "oversize unsigned interger");
}

#[test]
fn oversize_signed_rejected() {
    let buf = vec![0x85u8, 0x09, 0, 0, 0, 0, 0, 0, 0, 0, 0];
    let e = decodeIECDataElement(&buf, 0).unwrap_err();
    assert_eq!(e.message, "oversize signed interger");
    assert_eq!(e.pos, 0); // the tag byte
}

#[test]
fn unexpected_float_size_rejected() {
    let buf = vec![0x87u8, 0x03, 0, 0, 0];
    let e = decodeIECDataElement(&buf, 0).unwrap_err();
    assert_eq!(e.message, "unexpexted size float");
    assert_eq!(e.pos, 0); // the tag byte
}

#[test]
fn unknown_tag_rejected_at_tag_byte() {
    let buf = vec![0x55u8, 0x00];
    let e = decodeIECDataElement(&buf, 0).unwrap_err();
    assert_eq!(e.message, "unknown data type");
    assert_eq!(e.pos, 0);
}

#[test]
fn boolean_any_nonzero_is_true() {
    let buf = vec![0x83u8, 0x01, 0x05];
    let (_, v) = decodeIECDataElement(&buf, 0).expect("decode failed");
    assert_eq!(v, IECData::boolean(true));
}

#[test]
fn sequence_decode_collects_elements() {
    let mut buf: Vec<u8> = Vec::new();
    encodeIECData(&vec![IECData::int8(1), IECData::int8(2)], &mut buf);
    let mut out: Vec<IECData> = Vec::new();
    let np = decodeIECData(&mut out, &buf, 0, buf.len()).expect("decode failed");
    assert_eq!(np, buf.len());
    assert_eq!(out, vec![IECData::int8(1), IECData::int8(2)]);
}

#[test]
fn concrete_pdu_round_trip() {
    // encode a PDU with gocbRef="testGoose", stNum=12, sqNum=23,
    // AllData=[Int8(2), Boolean(true)], entryCount=2, and check every field
    let pdu = sample_pdu();
    let mut buf: Vec<u8> = Vec::new();
    encodeIECGoosePdu(&pdu, &mut buf);
    let mut pos = 0usize;
    let back = decodeIECGoosePdu(&buf, &mut pos).expect("decode failed");
    assert_eq!(pos, buf.len());
    assert_eq!(back.gocbRef, "testGoose");
    assert_eq!(back.timeAllowedtoLive, 6400);
    assert_eq!(back.datSet, "test_datSet");
    assert_eq!(back.goID, "test_ID");
    assert_eq!(back.t, [0, 1, 2, 3, 4, 5, 6, 0x18]);
    assert_eq!(back.stNum, 12);
    assert_eq!(back.sqNum, 23);
    assert_eq!(back.simulation, false);
    assert_eq!(back.confRev, 5);
    assert_eq!(back.ndsCom, false);
    assert_eq!(back.numDatSetEntries, 2);
    assert_eq!(back.allData, vec![IECData::int8(2), IECData::boolean(true)]);
    assert_eq!(back, pdu);
}

#[test]
fn entry_count_recomputed_on_encode() {
    // whatever entry count the caller stores, the wire carries the actual
    // data-set length
    let mut pdu = sample_pdu();
    pdu.numDatSetEntries = 99;
    let mut buf: Vec<u8> = Vec::new();
    encodeIECGoosePdu(&pdu, &mut buf);
    let mut pos = 0usize;
    let back = decodeIECGoosePdu(&buf, &mut pos).expect("decode failed");
    assert_eq!(back.numDatSetEntries, 2);
    assert_eq!(back.allData.len(), 2);
}

#[test]
fn entry_count_mismatch_rejected() {
    // hand-built PDU whose declared entry count is 2 but which carries one
    // element
    let mut fields: Vec<u8> = Vec::new();
    fields.extend_from_slice(&[0x80, 0x00]); // gocbRef ""
    fields.extend_from_slice(&[0x81, 0x01, 0x00]); // timeAllowedtoLive
    fields.extend_from_slice(&[0x82, 0x00]); // datSet ""
    fields.extend_from_slice(&[0x83, 0x00]); // goID ""
    fields.extend_from_slice(&[0x84, 0x08, 0, 0, 0, 0, 0, 0, 0, 0]); // t
    fields.extend_from_slice(&[0x85, 0x01, 0x00]); // stNum
    fields.extend_from_slice(&[0x86, 0x01, 0x00]); // sqNum
    fields.extend_from_slice(&[0x87, 0x01, 0x00]); // simulation
    fields.extend_from_slice(&[0x88, 0x01, 0x00]); // confRev
    fields.extend_from_slice(&[0x89, 0x01, 0x00]); // ndsCom
    fields.extend_from_slice(&[0x8a, 0x01, 0x02]); // numDatSetEntries = 2
    fields.extend_from_slice(&[0xab, 0x03, 0x83, 0x01, 0x01]); // one boolean
    let mut buf: Vec<u8> = vec![0x61, fields.len() as u8];
    buf.extend_from_slice(&fields);
    let mut pos = 0usize;
    let e = decodeIECGoosePdu(&buf, &mut pos).unwrap_err();
    assert_eq!(e.message, "allData size does not match data entries");
}

#[test]
fn wrong_outer_tag_rejected() {
    let buf = vec![0x62u8, 0x00];
    let mut pos = 0usize;
    let e = decodeIECGoosePdu(&buf, &mut pos).unwrap_err();
    assert_eq!(e.message, "first tag != 61");
    assert_eq!(e.pos, 2); // after the tag-length header
}

#[test]
fn overlong_pdu_rejected() {
    // declared outer length exceeds the remaining buffer
    let buf = vec![0x61u8, 0x7f];
    let mut pos = 0usize;
    let e = decodeIECGoosePdu(&buf, &mut pos).unwrap_err();
    assert_eq!(e.message, "buffer too short");
    assert_eq!(e.pos, 2); // after the tag-length header
}

#[test]
fn packet_round_trip_plain() {
    let pkt = sample_packet(None, None);
    let mut buf = vec![0u8; 512];
    let end = encodeGoosePacket(&pkt, &mut buf, 0).expect("encode failed");
    let back = decodeGoosePacket(&buf[..end], 0).expect("not goose").expect("decode failed");
    assert_eq!(back.eth_hdr, pkt.eth_hdr);
    assert_eq!(back.goose_hdr.APPID, pkt.goose_hdr.APPID);
    assert_eq!(back.pdu, pkt.pdu);
    assert!(back.prp.is_none());
}

#[test]
fn vlan_adds_exactly_four_bytes_and_round_trips() {
    let without = sample_packet(None, None);
    let with = sample_packet(Some(0x8001), None);
    let mut b1 = vec![0u8; 512];
    let mut b2 = vec![0u8; 512];
    let n1 = encodeGoosePacket(&without, &mut b1, 0).expect("encode failed");
    let n2 = encodeGoosePacket(&with, &mut b2, 0).expect("encode failed");
    assert_eq!(n2, n1 + 4);
    let back = decodeGoosePacket(&b2[..n2], 0).expect("not goose").expect("decode failed");
    assert_eq!(back.eth_hdr.VLANID, Some(0x8001));
}

#[test]
fn prp_trailer_round_trip() {
    // sequence=7, lan=A: exactly 6 extra bytes ending in the PRP marker
    let prp = IECPRP1 { sequence: 7, lan: IECPRPLAN::LAN_A, frame_size: 0 };
    let plain = sample_packet(None, None);
    let with_prp = sample_packet(None, Some(prp));
    let mut b1 = vec![0u8; 512];
    let mut b2 = vec![0u8; 512];
    let n1 = encodeGoosePacket(&plain, &mut b1, 0).expect("encode failed");
    let n2 = encodeGoosePacket(&with_prp, &mut b2, 0).expect("encode failed");
    assert_eq!(n2, n1 + 6);
    assert_eq!(&b2[n2 - 2..n2], &[0x88, 0xfb]);
    let back = decodeGoosePacket(&b2[..n2], 0).expect("not goose").expect("decode failed");
    let got = back.prp.expect("trailer missing");
    assert_eq!(got.sequence, 7);
    assert_eq!(got.lan, IECPRPLAN::LAN_A);
    // a buffer lacking such trailing bytes decodes the trailer as absent
    let back1 = decodeGoosePacket(&b1[..n1], 0).expect("not goose").expect("decode failed");
    assert!(back1.prp.is_none());
}

#[test]
fn prp_undefined_lan_rejected() {
    let pkt = sample_packet(None, None);
    let mut buf = vec![0u8; 512];
    let n = encodeGoosePacket(&pkt, &mut buf, 0).expect("encode failed");
    let mut tampered = buf[..n].to_vec();
    tampered.extend_from_slice(&[0x00, 0x07, 0xc0, 0x10, 0x88, 0xfb]);
    let e = decodeGoosePacket(&tampered, 0).expect("not goose").unwrap_err();
    assert_eq!(e.message, "IEC PRP LAN undefined");
}

#[test]
fn goose_header_length_has_plus_eight_adjustment() {
    let pkt = sample_packet(None, None);
    let mut buf = vec![0u8; 512];
    let n = encodeGoosePacket(&pkt, &mut buf, 0).expect("encode failed");
    let back = decodeGoosePacket(&buf[..n], 0).expect("not goose").expect("decode failed");
    // the frame is 12 MAC bytes + 10 header bytes + the PDU; the length
    // field covers the PDU plus 8 header bytes counted from the APPID on
    let pdu_len = n - 12 - 10;
    assert_eq!(back.goose_hdr.length as usize, pdu_len + 8);
}

#[test]
fn non_goose_frame_skipped() {
    let mut buf = vec![0u8; 64];
    buf[12] = 0x08; // IPv4 ethertype, not GOOSE
    buf[13] = 0x00;
    assert!(decodeGoosePacket(&buf, 0).is_none());
}

#[test]
fn truncated_frame_is_error() {
    let buf = vec![0u8; 10];
    let r = decodeGoosePacket(&buf, 0).expect("should be Some");
    let e = r.unwrap_err();
    assert_eq!(e.message, "Buffer too short");
}

#[test]
fn encode_checks_capacity_before_writing() {
    let pkt = sample_packet(None, None);
    let mut buf = vec![0xaau8; 16];
    let e = encodeGoosePacket(&pkt, &mut buf, 0).unwrap_err();
    assert_eq!(e.message, "buffer too small");
    assert_eq!(e.pos, 0);
    assert_eq!(buf, vec![0xaau8; 16]); // nothing was written
}

#[test]
fn encode_at_offset() {
    let pkt = sample_packet(None, None);
    let mut buf = vec![0u8; 512];
    let n = encodeGoosePacket(&pkt, &mut buf, 100).expect("encode failed");
    assert_eq!(&buf[..100], &[0u8; 100][..]); // prefix untouched
    let back = decodeGoosePacket(&buf[..100 + n], 100).expect("not goose").expect("decode failed");
    assert_eq!(back.pdu, pkt.pdu);
}

#[test]
fn time_array_layout() {
    let t = getTimeMs();
    assert_eq!(t.len(), 8);
    assert_eq!(t[7], 0x18);
}

#[test]
fn goose_header_size_is_ten() {
    assert_eq!(IECGooseHeader::getSize(), 10);
}
