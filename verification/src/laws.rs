//! The laws of the codec: decoding an encoding yields the encoded value
//! back. The central results are `lemma_value_rt` (any well-formed data
//! element survives the round trip, at any position, with anything after
//! it), `lemma_pdu_rt` and `lemma_packet_rt` (the same for whole PDUs and
//! frames, with the fields the encoder recomputes normalized), and the
//! entry-count laws around them.

use crate::model::{
    data_wf, eth_wf, packet_wf, pdu_wf, DataModel, EthModel, HdrModel, PacketModel, PduModel,
    PrpModel,
};
use crate::wire::{
    be_val, decode_elem, decode_eth, decode_goose_hdr, decode_packet, decode_pdu, decode_prp,
    decode_seq, encoded_entry_count, eth_bytes, fault, frame_bytes, goose_hdr_bytes, i32_width,
    ErrModel,
    i64_width, i_be, lan_nibble, lemma_decode_elem_bounds, lemma_min_be_len,
    lemma_min_be_val, lemma_p256_values, lemma_sign_rt, lemma_u_be_len, lemma_u_be_val,
    len_bytes, min_be, p256, pdu_bytes, pdu_fields_bytes, prp_bytes, prp_frame_size, read_tl,
    read_bool_field, read_string_field, read_time_field, read_uint_field, seq_bytes, sign_val,
    tlv, u32_width, u_be, ufield_width, value_bytes, FrameResult, TAG_ALL_DATA, TAG_ARRAY,
    TAG_BIT_STRING, TAG_BOOLEAN, TAG_FLOAT, TAG_GOOSE_PDU, TAG_MMS_STRING, TAG_OCTET_STRING,
    TAG_SIGNED, TAG_STRUCTURE, TAG_UNSIGNED, TAG_UTC_TIME, TAG_VISIBLE_STRING,
};
use vstd::arithmetic::div_mod::{
    lemma_fundamental_div_mod_converse, lemma_small_mod,
};
use vstd::prelude::*;

verus! {

/// A slice of a range of `b` known to hold `s` holds the matching slice of
/// `s`.
pub proof fn lemma_subrange_of_eq(b: Seq<u8>, pos: int, s: Seq<u8>, lo: int, hi: int)
    requires
        0 <= pos,
        pos + s.len() <= b.len(),
        b.subrange(pos, pos + s.len() as int) == s,
        0 <= lo <= hi <= s.len(),
    ensures
        b.subrange(pos + lo, pos + hi) == s.subrange(lo, hi),
{
    assert forall|i: int| 0 <= i < hi - lo implies b.subrange(pos + lo, pos + hi)[i]
        == s.subrange(lo, hi)[i] by {
        assert(b.subrange(pos, pos + s.len() as int)[lo + i] == s[lo + i]);
    }
    assert(b.subrange(pos + lo, pos + hi) =~= s.subrange(lo, hi));
}

/// Reading back a tag-length header that introduces an `n`-byte payload
/// yields the tag, `n`, and the position after the header.
pub proof fn lemma_read_tl_rt(b: Seq<u8>, pos: nat, tag: u8, n: nat)
    requires
        b.len() <= usize::MAX,
        n <= usize::MAX,
        pos + 1 + len_bytes(n).len() <= b.len(),
        b[pos as int] == tag,
        b.subrange(pos as int + 1, pos as int + 1 + len_bytes(n).len() as int) == len_bytes(n),
    ensures
        read_tl(b, pos) == Some((tag, n, (pos + 1 + len_bytes(n).len()) as nat)),
{
    let lb = len_bytes(n);
    if n < 128 {
        assert(b[pos as int + 1] == lb[0]);
        assert(lb[0] == n as u8);
    } else {
        lemma_min_be_val(n);
        lemma_p256_values();
        assert(n < p256(8));
        lemma_min_be_len(n, 8);
        let mb = min_be(n);
        let k = mb.len();
        assert(1 <= k <= 8);
        assert(lb == seq![(128 + k) as u8] + mb);
        assert(b[pos as int + 1] == lb[0]);
        assert(lb[0] == (128 + k) as u8);
        assert(b[pos as int + 1] >= 0x80);
        assert((b[pos as int + 1] - 0x80) as nat == k);
        lemma_subrange_of_eq(b, pos as int + 1, lb, 1, lb.len() as int);
        assert(lb.subrange(1, lb.len() as int) =~= mb);
        assert(b.subrange(pos as int + 2, pos as int + 2 + k as int) == mb);
        assert(be_val(b.subrange(pos as int + 2, pos as int + 2 + k as int)) == n);
    }
}

/// Reading back a whole tag-length-value element finds the tag, the payload
/// length, and the payload bytes just after the header.
pub proof fn lemma_tlv_parts(b: Seq<u8>, pos: nat, tag: u8, payload: Seq<u8>)
    requires
        b.len() <= usize::MAX,
        pos + tlv(tag, payload).len() <= b.len(),
        b.subrange(pos as int, pos as int + tlv(tag, payload).len() as int) == tlv(tag, payload),
    ensures
        read_tl(b, pos) == Some(
            (tag, payload.len(), (pos + 1 + len_bytes(payload.len()).len()) as nat),
        ),
        b.subrange(
            pos as int + 1 + len_bytes(payload.len()).len() as int,
            pos as int + tlv(tag, payload).len() as int,
        ) == payload,
        tlv(tag, payload).len() == 1 + len_bytes(payload.len()).len() + payload.len(),
{
    let n = payload.len();
    let lb = len_bytes(n);
    let enc = tlv(tag, payload);
    assert(enc.len() == 1 + lb.len() + n);
    assert(b[pos as int] == b.subrange(pos as int, pos as int + enc.len() as int)[0]);
    assert(enc[0] == tag);
    lemma_subrange_of_eq(b, pos as int, enc, 1, 1 + lb.len() as int);
    assert(enc.subrange(1, 1 + lb.len() as int) =~= lb);
    lemma_read_tl_rt(b, pos, tag, n);
    lemma_subrange_of_eq(b, pos as int, enc, 1 + lb.len() as int, enc.len() as int);
    assert(enc.subrange(1 + lb.len() as int, enc.len() as int) =~= payload);
}

/// A well-formed data element survives the round trip: decoding its
/// encoding, wherever it sits in a buffer, yields exactly the element and
/// consumes exactly its bytes.
pub proof fn lemma_value_rt(m: DataModel, b: Seq<u8>, pos: nat)
    requires
        data_wf(m),
        b.len() <= usize::MAX,
        pos + value_bytes(m).len() <= b.len(),
        b.subrange(pos as int, pos as int + value_bytes(m).len() as int) == value_bytes(m),
    ensures
        decode_elem(b, pos) == Ok::<(nat, DataModel), ErrModel>(
            ((pos + value_bytes(m).len()) as nat, m),
        ),
    decreases m, 0int,
{
    lemma_p256_values();
    match m {
        DataModel::Array(elems) => {
            let payload = seq_bytes(elems, 0);
            lemma_tlv_parts(b, pos, TAG_ARRAY, payload);
            let p2 = (pos + 1 + len_bytes(payload.len()).len()) as nat;
            lemma_seq_rt(elems, 0, b, p2, p2 + payload.len());
            assert(elems.subrange(0, elems.len() as int) =~= elems);
        },
        DataModel::Structure(elems) => {
            let payload = seq_bytes(elems, 0);
            lemma_tlv_parts(b, pos, TAG_STRUCTURE, payload);
            let p2 = (pos + 1 + len_bytes(payload.len()).len()) as nat;
            lemma_seq_rt(elems, 0, b, p2, p2 + payload.len());
            assert(elems.subrange(0, elems.len() as int) =~= elems);
        },
        DataModel::Boolean(v) => {
            let payload = seq![if v { 1u8 } else { 0u8 }];
            lemma_tlv_parts(b, pos, TAG_BOOLEAN, payload);
            let p2 = pos as int + 1 + len_bytes(1).len() as int;
            assert(b[p2] == payload[0]);
        },
        DataModel::Int8(v) => {
            lemma_signed_arm(m, b, pos, v as int, 1);
        },
        DataModel::Int16(v) => {
            lemma_signed_arm(m, b, pos, v as int, 2);
        },
        DataModel::Int32(v) => {
            lemma_signed_arm(m, b, pos, v as int, i32_width(v));
        },
        DataModel::Int64(v) => {
            lemma_signed_arm(m, b, pos, v as int, i64_width(v));
        },
        DataModel::UInt8(v) => {
            lemma_unsigned_arm(m, b, pos, v as nat, 1);
        },
        DataModel::UInt16(v) => {
            lemma_unsigned_arm(m, b, pos, v as nat, 2);
        },
        DataModel::UInt32(v) => {
            lemma_unsigned_arm(m, b, pos, v as nat, u32_width(v));
        },
        DataModel::Float32(bits) => {
            let payload = seq![8u8] + u_be(bits as nat, 4);
            lemma_u_be_len(bits as nat, 4);
            lemma_tlv_parts(b, pos, TAG_FLOAT, payload);
            let p2 = pos as int + 1 + len_bytes(5).len() as int;
            lemma_subrange_of_eq(b, p2, payload, 1, 5);
            assert(payload.subrange(1, 5) =~= u_be(bits as nat, 4));
            lemma_u_be_val(bits as nat, 4);
            lemma_small_mod(bits as nat, p256(4));
        },
        DataModel::Float64(bits) => {
            let payload = seq![11u8] + u_be(bits as nat, 8);
            lemma_u_be_len(bits as nat, 8);
            lemma_tlv_parts(b, pos, TAG_FLOAT, payload);
            let p2 = pos as int + 1 + len_bytes(9).len() as int;
            lemma_subrange_of_eq(b, p2, payload, 1, 9);
            assert(payload.subrange(1, 9) =~= u_be(bits as nat, 8));
            lemma_u_be_val(bits as nat, 8);
            lemma_small_mod(bits as nat, p256(8));
        },
        DataModel::VisibleString(bs) => {
            lemma_tlv_parts(b, pos, TAG_VISIBLE_STRING, bs);
        },
        DataModel::MmsString(bs) => {
            lemma_tlv_parts(b, pos, TAG_MMS_STRING, bs);
        },
        DataModel::BitString { padding, bits } => {
            let payload = seq![padding] + bits;
            lemma_tlv_parts(b, pos, TAG_BIT_STRING, payload);
            let p2 = pos as int + 1 + len_bytes(payload.len()).len() as int;
            assert(b[p2] == b.subrange(p2, p2 + payload.len() as int)[0]);
            lemma_subrange_of_eq(b, p2, payload, 1, payload.len() as int);
            assert(payload.subrange(1, payload.len() as int) =~= bits);
        },
        DataModel::OctetString(bs) => {
            lemma_tlv_parts(b, pos, TAG_OCTET_STRING, bs);
        },
        DataModel::UtcTime(bs) => {
            lemma_tlv_parts(b, pos, TAG_UTC_TIME, bs);
        },
    }
}

/// The signed-integer arm of `lemma_value_rt`.
proof fn lemma_signed_arm(m: DataModel, b: Seq<u8>, pos: nat, v: int, w: nat)
    requires
        b.len() <= usize::MAX,
        pos + value_bytes(m).len() <= b.len(),
        b.subrange(pos as int, pos as int + value_bytes(m).len() as int) == value_bytes(m),
        value_bytes(m) == tlv(TAG_SIGNED, i_be(v, w)),
        match m {
            DataModel::Int8(x) => v == x as int && w == 1,
            DataModel::Int16(x) => v == x as int && w == 2,
            DataModel::Int32(x) => v == x as int && w == i32_width(x),
            DataModel::Int64(x) => v == x as int && w == i64_width(x),
            _ => false,
        },
    ensures
        decode_elem(b, pos) == Ok::<(nat, DataModel), ErrModel>(
            ((pos + value_bytes(m).len()) as nat, m),
        ),
{
    lemma_p256_values();
    let payload = i_be(v, w);
    assert(1 <= w <= 8);
    assert(-(p256(w) as int) / 2 <= v < p256(w) / 2) by {
        assert(-(p256(1) as int) / 2 == -0x80);
        assert(-(p256(2) as int) / 2 == -0x8000);
        assert(-(p256(3) as int) / 2 == -0x80_0000);
        assert(-(p256(4) as int) / 2 == -0x8000_0000);
        assert(-(p256(5) as int) / 2 == -0x80_0000_0000);
        assert(-(p256(6) as int) / 2 == -0x8000_0000_0000);
        assert(-(p256(7) as int) / 2 == -0x80_0000_0000_0000);
        assert(-(p256(8) as int) / 2 == -0x8000_0000_0000_0000);
    }
    lemma_sign_rt(v, w);
    lemma_tlv_parts(b, pos, TAG_SIGNED, payload);
    let p2 = pos as int + 1 + len_bytes(w).len() as int;
    assert(b.subrange(p2, p2 + w as int) == payload);
    assert(sign_val(b.subrange(p2, p2 + w as int)) == v);
}

/// The unsigned-integer arm of `lemma_value_rt`.
proof fn lemma_unsigned_arm(m: DataModel, b: Seq<u8>, pos: nat, v: nat, w: nat)
    requires
        b.len() <= usize::MAX,
        pos + value_bytes(m).len() <= b.len(),
        b.subrange(pos as int, pos as int + value_bytes(m).len() as int) == value_bytes(m),
        value_bytes(m) == tlv(TAG_UNSIGNED, u_be(v, w)),
        v < p256(w),
        match m {
            DataModel::UInt8(x) => v == x as nat && w == 1,
            DataModel::UInt16(x) => v == x as nat && w == 2,
            DataModel::UInt32(x) => v == x as nat && w == u32_width(x),
            _ => false,
        },
    ensures
        decode_elem(b, pos) == Ok::<(nat, DataModel), ErrModel>(
            ((pos + value_bytes(m).len()) as nat, m),
        ),
{
    lemma_p256_values();
    let payload = u_be(v, w);
    lemma_u_be_len(v, w);
    lemma_u_be_val(v, w);
    lemma_small_mod(v, p256(w));
    lemma_tlv_parts(b, pos, TAG_UNSIGNED, payload);
    let p2 = pos as int + 1 + len_bytes(w).len() as int;
    assert(b.subrange(p2, p2 + w as int) == payload);
    assert(be_val(b.subrange(p2, p2 + w as int)) == v);
}

/// A sequence of well-formed data elements survives the round trip: when
/// the bytes from `pos` to `end` are exactly the concatenated encodings of
/// `elems[i..]`, decoding that range yields exactly those elements.
pub proof fn lemma_seq_rt(elems: Seq<DataModel>, i: int, b: Seq<u8>, pos: nat, end: nat)
    requires
        0 <= i <= elems.len(),
        forall|j: int| 0 <= j < elems.len() ==> data_wf(#[trigger] elems[j]),
        b.len() <= usize::MAX,
        end == pos + seq_bytes(elems, i).len(),
        end <= b.len(),
        b.subrange(pos as int, end as int) == seq_bytes(elems, i),
    ensures
        decode_seq(b, pos, end) == Ok::<(nat, Seq<DataModel>), ErrModel>(
            (end, elems.subrange(i, elems.len() as int)),
        ),
    decreases elems, elems.len() - i + 1,
{
    if i == elems.len() {
        assert(elems.subrange(i, elems.len() as int) =~= Seq::<DataModel>::empty());
    } else {
        let vb = value_bytes(elems[i]);
        let rb = seq_bytes(elems, i + 1);
        assert(seq_bytes(elems, i) == vb + rb);
        lemma_subrange_of_eq(b, pos as int, seq_bytes(elems, i), 0, vb.len() as int);
        assert(seq_bytes(elems, i).subrange(0, vb.len() as int) =~= vb);
        lemma_value_rt(elems[i], b, pos);
        lemma_decode_elem_bounds(b, pos);
        let np = (pos + vb.len()) as nat;
        lemma_subrange_of_eq(
            b,
            pos as int,
            seq_bytes(elems, i),
            vb.len() as int,
            seq_bytes(elems, i).len() as int,
        );
        assert(seq_bytes(elems, i).subrange(vb.len() as int, seq_bytes(elems, i).len() as int)
            =~= rb);
        lemma_seq_rt(elems, i + 1, b, np, end);
        assert(seq![elems[i]] + elems.subrange(i + 1, elems.len() as int) =~= elems.subrange(
            i,
            elems.len() as int,
        ));
    }
}

/// The PDU as the decoder hands it back: the entry count is the one the
/// encoder wrote, the actual length of the data set.
pub open spec fn normalize_pdu(p: PduModel) -> PduModel {
    PduModel { numDatSetEntries: encoded_entry_count(p), ..p }
}

proof fn lemma_string_field_rt(bs: Seq<u8>, tag: u8, b: Seq<u8>, pos: nat)
    requires
        vstd::utf8::valid_utf8(bs),
        b.len() <= usize::MAX,
        pos + tlv(tag, bs).len() <= b.len(),
        b.subrange(pos as int, pos as int + tlv(tag, bs).len() as int) == tlv(tag, bs),
    ensures
        read_string_field(b, pos) == Ok::<(nat, Seq<u8>), ErrModel>(
            ((pos + tlv(tag, bs).len()) as nat, bs),
        ),
{
    lemma_tlv_parts(b, pos, tag, bs);
}

proof fn lemma_uint_field_rt(v: u32, tag: u8, b: Seq<u8>, pos: nat)
    requires
        b.len() <= usize::MAX,
        pos + tlv(tag, u_be(v as nat, ufield_width(v))).len() <= b.len(),
        b.subrange(
            pos as int,
            pos as int + tlv(tag, u_be(v as nat, ufield_width(v))).len() as int,
        ) == tlv(tag, u_be(v as nat, ufield_width(v))),
    ensures
        read_uint_field(b, pos) == Ok::<(nat, u32), ErrModel>(
            ((pos + tlv(tag, u_be(v as nat, ufield_width(v))).len()) as nat, v),
        ),
{
    let w = ufield_width(v);
    lemma_p256_values();
    lemma_u_be_len(v as nat, w);
    lemma_u_be_val(v as nat, w);
    lemma_small_mod(v as nat, p256(w));
    lemma_tlv_parts(b, pos, tag, u_be(v as nat, w));
}

proof fn lemma_bool_field_rt(v: bool, tag: u8, b: Seq<u8>, pos: nat)
    requires
        b.len() <= usize::MAX,
        pos + tlv(tag, seq![if v { 1u8 } else { 0u8 }]).len() <= b.len(),
        b.subrange(
            pos as int,
            pos as int + tlv(tag, seq![if v { 1u8 } else { 0u8 }]).len() as int,
        ) == tlv(tag, seq![if v { 1u8 } else { 0u8 }]),
    ensures
        read_bool_field(b, pos) == Ok::<(nat, bool), ErrModel>(
            ((pos + tlv(tag, seq![if v { 1u8 } else { 0u8 }]).len()) as nat, v),
        ),
{
    let payload = seq![if v { 1u8 } else { 0u8 }];
    lemma_tlv_parts(b, pos, tag, payload);
    let p2 = pos as int + 1 + len_bytes(1).len() as int;
    assert(b[p2] == b.subrange(p2, p2 + 1)[0]);
}

proof fn lemma_time_field_rt(bs: Seq<u8>, tag: u8, b: Seq<u8>, pos: nat)
    requires
        bs.len() == 8,
        b.len() <= usize::MAX,
        pos + tlv(tag, bs).len() <= b.len(),
        b.subrange(pos as int, pos as int + tlv(tag, bs).len() as int) == tlv(tag, bs),
    ensures
        read_time_field(b, pos) == Ok::<(nat, Seq<u8>), ErrModel>(
            ((pos + tlv(tag, bs).len()) as nat, bs),
        ),
{
    lemma_tlv_parts(b, pos, tag, bs);
}

/// Bytes known to hold a concatenation hold its two parts, one after the
/// other.
pub proof fn lemma_split_concat(b: Seq<u8>, pos: int, x: Seq<u8>, y: Seq<u8>)
    requires
        0 <= pos,
        pos + (x + y).len() <= b.len(),
        b.subrange(pos, pos + (x + y).len() as int) == x + y,
    ensures
        b.subrange(pos, pos + x.len() as int) == x,
        b.subrange(pos + x.len() as int, pos + x.len() as int + y.len() as int) == y,
{
    lemma_subrange_of_eq(b, pos, x + y, 0, x.len() as int);
    assert((x + y).subrange(0, x.len() as int) =~= x);
    lemma_subrange_of_eq(b, pos, x + y, x.len() as int, (x + y).len() as int);
    assert((x + y).subrange(x.len() as int, (x + y).len() as int) =~= y);
}

/// A well-formed PDU survives the round trip: decoding its encoding yields
/// the PDU back, with the entry count the encoder recomputed from the
/// data-set length, whatever the caller had stored there.
#[verifier::rlimit(100)]
#[verifier::spinoff_prover]
pub proof fn lemma_pdu_rt(p: PduModel, b: Seq<u8>, pos: nat)
    requires
        pdu_wf(p),
        p.allData.len() < 0x1_0000_0000,
        b.len() <= usize::MAX,
        pos + pdu_bytes(p).len() <= b.len(),
        b.subrange(pos as int, pos as int + pdu_bytes(p).len() as int) == pdu_bytes(p),
    ensures
        decode_pdu(b, pos) == Ok::<(nat, PduModel), ErrModel>(
            ((pos + pdu_bytes(p).len()) as nat, normalize_pdu(p)),
        ),
{
    let ec = encoded_entry_count(p);
    let f1 = tlv(0x80, p.gocbRef);
    let f2 = tlv(0x81, u_be(p.timeAllowedtoLive as nat, ufield_width(p.timeAllowedtoLive)));
    let f3 = tlv(0x82, p.datSet);
    let f4 = tlv(0x83, p.goID);
    let f5 = tlv(0x84, p.t);
    let f6 = tlv(0x85, u_be(p.stNum as nat, ufield_width(p.stNum)));
    let f7 = tlv(0x86, u_be(p.sqNum as nat, ufield_width(p.sqNum)));
    let f8 = tlv(0x87, seq![if p.simulation { 1u8 } else { 0u8 }]);
    let f9 = tlv(0x88, u_be(p.confRev as nat, ufield_width(p.confRev)));
    let f10 = tlv(0x89, seq![if p.ndsCom { 1u8 } else { 0u8 }]);
    let f11 = tlv(0x8a, u_be(ec as nat, ufield_width(ec)));
    let f12 = tlv(TAG_ALL_DATA, seq_bytes(p.allData, 0));
    let s12 = f12;
    let s11 = f11 + s12;
    let s10 = f10 + s11;
    let s9 = f9 + s10;
    let s8 = f8 + s9;
    let s7 = f7 + s8;
    let s6 = f6 + s7;
    let s5 = f5 + s6;
    let s4 = f4 + s5;
    let s3 = f3 + s4;
    let s2 = f2 + s3;
    let fs = pdu_fields_bytes(p);
    assert(fs == f1 + s2);
    lemma_tlv_parts(b, pos, TAG_GOOSE_PDU, fs);
    let p0 = (pos + 1 + len_bytes(fs.len()).len()) as nat;
    assert(b.subrange(p0 as int, p0 as int + fs.len() as int) == fs);
    let o1 = p0 as int;
    lemma_split_concat(b, o1, f1, s2);
    let o2 = o1 + f1.len();
    lemma_split_concat(b, o2, f2, s3);
    let o3 = o2 + f2.len();
    lemma_split_concat(b, o3, f3, s4);
    let o4 = o3 + f3.len();
    lemma_split_concat(b, o4, f4, s5);
    let o5 = o4 + f4.len();
    lemma_split_concat(b, o5, f5, s6);
    let o6 = o5 + f5.len();
    lemma_split_concat(b, o6, f6, s7);
    let o7 = o6 + f6.len();
    lemma_split_concat(b, o7, f7, s8);
    let o8 = o7 + f7.len();
    lemma_split_concat(b, o8, f8, s9);
    let o9 = o8 + f8.len();
    lemma_split_concat(b, o9, f9, s10);
    let o10 = o9 + f9.len();
    lemma_split_concat(b, o10, f10, s11);
    let o11 = o10 + f10.len();
    lemma_split_concat(b, o11, f11, s12);
    let o12 = o11 + f11.len();
    lemma_string_field_rt(p.gocbRef, 0x80, b, o1 as nat);
    lemma_uint_field_rt(p.timeAllowedtoLive, 0x81, b, o2 as nat);
    lemma_string_field_rt(p.datSet, 0x82, b, o3 as nat);
    lemma_string_field_rt(p.goID, 0x83, b, o4 as nat);
    lemma_time_field_rt(p.t, 0x84, b, o5 as nat);
    lemma_uint_field_rt(p.stNum, 0x85, b, o6 as nat);
    lemma_uint_field_rt(p.sqNum, 0x86, b, o7 as nat);
    lemma_bool_field_rt(p.simulation, 0x87, b, o8 as nat);
    lemma_uint_field_rt(p.confRev, 0x88, b, o9 as nat);
    lemma_bool_field_rt(p.ndsCom, 0x89, b, o10 as nat);
    lemma_uint_field_rt(ec, 0x8a, b, o11 as nat);
    // the AllData container
    let ad = seq_bytes(p.allData, 0);
    lemma_tlv_parts(b, o12 as nat, TAG_ALL_DATA, ad);
    let p12 = (o12 + 1 + len_bytes(ad.len()).len()) as nat;
    lemma_seq_rt(p.allData, 0, b, p12, p12 + ad.len());
    assert(p.allData.subrange(0, p.allData.len() as int) =~= p.allData);
    lemma_small_mod(p.allData.len(), 0x1_0000_0000);
    assert(ec as nat == p.allData.len());
    assert(decode_pdu(b, pos) == Ok::<(nat, PduModel), ErrModel>(
        ((pos + pdu_bytes(p).len()) as nat, normalize_pdu(p)),
    ));
}

/// Encoding always writes `entryCount == len(AllData)`: whatever entry
/// count a PDU carries, decoding its encoding yields one whose entry count
/// is the length of the data set.
pub proof fn lemma_entry_count_recomputed(p: PduModel, q: PduModel, b: Seq<u8>, pos: nat)
    requires
        pdu_wf(p),
        p.allData.len() < 0x1_0000_0000,
        b.len() <= usize::MAX,
        pos + pdu_bytes(p).len() <= b.len(),
        b.subrange(pos as int, pos as int + pdu_bytes(p).len() as int) == pdu_bytes(p),
        decode_pdu(b, pos) == Ok::<(nat, PduModel), ErrModel>(
            ((pos + pdu_bytes(p).len()) as nat, q),
        ),
    ensures
        q.numDatSetEntries == p.allData.len(),
        q.allData == p.allData,
{
    lemma_pdu_rt(p, b, pos);
    lemma_small_mod(p.allData.len(), 0x1_0000_0000);
}

/// A PDU the decoder accepts always has `entryCount == len(AllData)`: a
/// buffer in which the two disagree is rejected, never silently accepted.
pub proof fn lemma_decoded_pdu_entry_count(b: Seq<u8>, pos: nat)
    ensures
        decode_pdu(b, pos) matches Ok((np, pm)) ==> pm.numDatSetEntries == pm.allData.len(),
{
}

/// A PDU whose declared outer length exceeds the remaining buffer is
/// rejected.
pub proof fn lemma_overlong_pdu_rejected(b: Seq<u8>, pos: nat)
    ensures
        (read_tl(b, pos) matches Some((tag, plen, p0)) && tag == TAG_GOOSE_PDU && p0 + plen
            > b.len()) ==> decode_pdu(b, pos) == Err::<(nat, PduModel), ErrModel>(fault(
            "buffer too short"@,
            read_tl(b, pos)->Some_0.2,
        )),
{
}

/// A header with a VLAN id encodes to exactly four bytes more than the same
/// header without one.
pub proof fn lemma_vlan_four_bytes(h: EthModel, id: u16)
    ensures
        eth_bytes(EthModel { VLANID: Some(id), ..h }).len() == eth_bytes(
            EthModel { VLANID: None, ..h },
        ).len() + 4,
{
    lemma_u_be_len(id as nat, 2);
}

/// A PRP trailer encodes to exactly six bytes, and they end in the fixed
/// PRP marker 0x88 0xfb.
pub proof fn lemma_prp_six_bytes(prp: PrpModel, frame_size: nat)
    ensures
        prp_bytes(prp, frame_size).len() == 6,
        prp_bytes(prp, frame_size)[4] == 0x88,
        prp_bytes(prp, frame_size)[5] == 0xfb,
{
    lemma_u_be_len(prp.sequence as nat, 2);
    lemma_u_be_len((lan_nibble(prp.lan) * 0x1000 + frame_size % 0x1000) as nat, 2);
}

/// The packet as the decoder hands it back: the GOOSE header length and the
/// PRP frame size are the values the encoder computed, and the PDU is
/// normalized.
pub open spec fn normalize_packet(p: PacketModel) -> PacketModel {
    PacketModel {
        eth_hdr: p.eth_hdr,
        goose_hdr: HdrModel {
            APPID: p.goose_hdr.APPID,
            length: ((pdu_bytes(p.pdu).len() + 8) % 0x1_0000) as u16,
        },
        pdu: normalize_pdu(p.pdu),
        prp: match p.prp {
            Some(x) => Some(
                PrpModel {
                    sequence: x.sequence,
                    lan: x.lan,
                    frame_size: (prp_frame_size(p) % 0x1000) as u16,
                },
            ),
            None => None,
        },
    }
}

/// The Ethernet-header part of the frame round trip.
proof fn lemma_eth_rt(h: EthModel, b: Seq<u8>, pos: nat, n0: u8, n1: u8)
    requires
        eth_wf(h),
        b.len() <= usize::MAX,
        pos + 18 <= b.len(),
        pos + eth_bytes(h).len() + 2 <= b.len(),
        b.subrange(pos as int, pos as int + eth_bytes(h).len() as int) == eth_bytes(h),
        b[pos as int + eth_bytes(h).len() as int] == n0,
        b[pos as int + eth_bytes(h).len() as int + 1] == n1,
        h.VLANID is None ==> !(n0 == 0x81 && n1 == 0x00),
    ensures
        decode_eth(b, pos) == Ok::<(nat, EthModel), ErrModel>(
            ((pos + eth_bytes(h).len()) as nat, h),
        ),
{
    lemma_p256_values();
    let eth = eth_bytes(h);
    let e = pos as int;
    let elen = eth.len() as int;
    lemma_subrange_of_eq(b, e, eth, 0, 6);
    assert(eth.subrange(0, 6) =~= h.dstAddr);
    lemma_subrange_of_eq(b, e, eth, 6, 12);
    assert(eth.subrange(6, 12) =~= h.srcAddr);
    match h.VLANID {
        Some(id) => {
            lemma_u_be_len(id as nat, 2);
            assert(elen == 16);
            assert(b[e + 12] == eth[12] && b[e + 13] == eth[13]) by {
                assert(b.subrange(e, e + elen)[12] == eth[12]);
                assert(b.subrange(e, e + elen)[13] == eth[13]);
            }
            assert(eth[12] == 0x81 && eth[13] == 0x00);
            lemma_subrange_of_eq(b, e, eth, 14, 16);
            assert(eth.subrange(14, 16) =~= u_be(id as nat, 2));
            lemma_u_be_val(id as nat, 2);
            lemma_small_mod(id as nat, p256(2));
        },
        None => {
            assert(elen == 12);
            assert(b[e + 12] == n0 && b[e + 13] == n1);
        },
    }
}

/// The GOOSE-header part of the frame round trip.
proof fn lemma_goose_hdr_rt(appid: Seq<u8>, plen: nat, b: Seq<u8>, pos: nat)
    requires
        appid.len() == 2,
        b.len() <= usize::MAX,
        pos + 10 <= b.len(),
        b.subrange(pos as int, pos as int + 10) == goose_hdr_bytes(appid, plen),
    ensures
        decode_goose_hdr(b, pos) == Ok::<Option<(nat, HdrModel)>, ErrModel>(
            Some(
                (
                    (pos + 10) as nat,
                    HdrModel { APPID: appid, length: ((plen + 8) % 0x1_0000) as u16 },
                ),
            ),
        ),
{
    lemma_p256_values();
    let ghdr = goose_hdr_bytes(appid, plen);
    lemma_u_be_len((plen + 8) as nat, 2);
    assert(ghdr.len() == 10);
    let g = pos as int;
    assert(b[g] == 0x88 && b[g + 1] == 0xb8) by {
        assert(b.subrange(g, g + 10)[0] == ghdr[0]);
        assert(b.subrange(g, g + 10)[1] == ghdr[1]);
    }
    lemma_subrange_of_eq(b, g, ghdr, 2, 4);
    assert(ghdr.subrange(2, 4) =~= appid);
    lemma_subrange_of_eq(b, g, ghdr, 4, 6);
    assert(ghdr.subrange(4, 6) =~= u_be((plen + 8) as nat, 2));
    lemma_u_be_val((plen + 8) as nat, 2);
}

/// The PRP-trailer part of the frame round trip.
proof fn lemma_prp_rt(x: PrpModel, fsz: nat, b: Seq<u8>, pos: nat)
    requires
        b.len() <= usize::MAX,
        b.len() == pos + 6,
        b.subrange(pos as int, pos as int + 6) == prp_bytes(x, fsz),
    ensures
        decode_prp(b, pos) == Ok::<Option<(nat, PrpModel)>, ErrModel>(
            Some(
                (
                    (pos + 6) as nat,
                    PrpModel {
                        sequence: x.sequence,
                        lan: x.lan,
                        frame_size: (fsz % 0x1000) as u16,
                    },
                ),
            ),
        ),
{
    lemma_p256_values();
    let pb = prp_bytes(x, fsz);
    let t = pos as int;
    lemma_prp_six_bytes(x, fsz);
    assert(b[t + 4] == pb[4] && b[t + 5] == pb[5]) by {
        assert(b.subrange(t, t + 6)[4] == pb[4]);
        assert(b.subrange(t, t + 6)[5] == pb[5]);
    }
    lemma_u_be_len(x.sequence as nat, 2);
    let packed = (lan_nibble(x.lan) * 0x1000 + fsz % 0x1000) as nat;
    lemma_u_be_len(packed as nat, 2);
    lemma_subrange_of_eq(b, t, pb, 0, 2);
    assert(pb.subrange(0, 2) =~= u_be(x.sequence as nat, 2));
    lemma_u_be_val(x.sequence as nat, 2);
    lemma_small_mod(x.sequence as nat, p256(2));
    lemma_subrange_of_eq(b, t, pb, 2, 4);
    assert(pb.subrange(2, 4) =~= u_be(packed, 2));
    lemma_u_be_val(packed, 2);
    assert(packed < 0x1_0000);
    lemma_small_mod(packed, p256(2));
    assert(packed / 0x1000 == lan_nibble(x.lan) && packed % 0x1000 == fsz % 0x1000) by {
        lemma_fundamental_div_mod_converse(
            packed as int,
            0x1000,
            lan_nibble(x.lan) as int,
            (fsz % 0x1000) as int,
        );
    }
}

/// A well-formed packet survives the round trip: decoding a buffer that
/// ends exactly with the packet's frame yields the packet back, normalized
/// as `normalize_packet` says; in particular a VLAN id decodes back
/// identically, and the PRP trailer is reconstructed exactly when one was
/// encoded.
#[verifier::rlimit(100)]
#[verifier::spinoff_prover]
pub proof fn lemma_packet_rt(p: PacketModel, b: Seq<u8>, pos: nat)
    requires
        packet_wf(p),
        p.pdu.allData.len() < 0x1_0000_0000,
        b.len() <= usize::MAX,
        b.len() == pos + frame_bytes(p).len(),
        b.subrange(pos as int, b.len() as int) == frame_bytes(p),
    ensures
        decode_packet(b, pos) == FrameResult::Packet(normalize_packet(p)),
{
    lemma_p256_values();
    let eth = eth_bytes(p.eth_hdr);
    let pdu = pdu_bytes(p.pdu);
    let ghdr = goose_hdr_bytes(p.goose_hdr.APPID, pdu.len());
    let trailer = match p.prp {
        Some(x) => prp_bytes(x, prp_frame_size(p)),
        None => Seq::<u8>::empty(),
    };
    let fb = frame_bytes(p);
    // the PDU encoding is at least two bytes, so every header read fits
    assert(pdu.len() >= 2) by {
        assert(pdu == tlv(TAG_GOOSE_PDU, pdu_fields_bytes(p.pdu)));
        if pdu_fields_bytes(p.pdu).len() >= 128 {
            lemma_min_be_val(pdu_fields_bytes(p.pdu).len());
        }
    }
    assert(ghdr.len() == 10) by {
        lemma_u_be_len((pdu.len() + 8) as nat, 2);
    }
    let elen = eth.len() as int;
    assert(p.eth_hdr.VLANID is Some ==> elen == 16) by {
        if p.eth_hdr.VLANID is Some {
            lemma_u_be_len(p.eth_hdr.VLANID->0 as nat, 2);
        }
    }
    assert(p.eth_hdr.VLANID is None ==> elen == 12);
    match p.prp {
        Some(x) => {
            lemma_prp_six_bytes(x, prp_frame_size(p));
        },
        None => {},
    }
    assert(fb == eth + (ghdr + (pdu + trailer)));
    lemma_split_concat(b, pos as int, eth, ghdr + (pdu + trailer));
    lemma_split_concat(b, pos as int + elen, ghdr, pdu + trailer);
    lemma_split_concat(b, pos as int + elen + 10, pdu, trailer);
    // Ethernet header: the two bytes after it open the GOOSE header
    let g = pos as int + elen;
    assert(b[g] == 0x88 && b[g + 1] == 0xb8) by {
        assert(b.subrange(g, g + 10)[0] == ghdr[0]);
        assert(b.subrange(g, g + 10)[1] == ghdr[1]);
    }
    lemma_eth_rt(p.eth_hdr, b, pos, 0x88, 0xb8);
    let p1 = (pos + elen) as nat;
    // GOOSE header
    lemma_goose_hdr_rt(p.goose_hdr.APPID, pdu.len(), b, p1);
    // PDU
    let p2 = (p1 + 10) as nat;
    lemma_pdu_rt(p.pdu, b, p2);
    let p3 = (p2 + pdu.len()) as nat;
    // PRP trailer
    match p.prp {
        Some(x) => {
            assert(b.len() == p3 + 6);
            assert(b.subrange(p3 as int, p3 as int + 6) == trailer);
            lemma_prp_rt(x, prp_frame_size(p), b, p3);
        },
        None => {
            assert(b.len() == p3);
            assert(decode_prp(b, p3) == Ok::<Option<(nat, PrpModel)>, ErrModel>(None));
        },
    }
    assert(decode_packet(b, pos) == FrameResult::Packet(normalize_packet(p)));
}

} // verus!
