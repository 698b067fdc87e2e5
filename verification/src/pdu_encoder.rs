//! Executable encoders for data elements and the GOOSE PDU, each appending
//! to a growing buffer and proved to produce exactly the bytes that `wire`
//! specifies.

use crate::basic_encoder::{push_slice, push_tl, push_u_be};
use crate::types::{data_views, lemma_data_views_index, IECData, IECGoosePdu};
use crate::wire::{
    i32_width, i64_width, i_be, lemma_p256_split, lemma_p256_values, lemma_u_be_len,
    lemma_u_be_mod, p256, pdu_bytes, pdu_fields_bytes, seq_bytes, tlv, u32_width, u_be,
    ufield_width, value_bytes, TAG_ALL_DATA, TAG_ARRAY, TAG_BIT_STRING, TAG_BOOLEAN, TAG_FLOAT,
    TAG_GOOSE_PDU, TAG_MMS_STRING, TAG_OCTET_STRING, TAG_SIGNED, TAG_STRUCTURE, TAG_UNSIGNED,
    TAG_UTC_TIME, TAG_VISIBLE_STRING,
};
use vstd::prelude::*;
use vstd::string::StrSliceExecFns;
use vstd::arithmetic::div_mod::{
    lemma_mod_mod, lemma_mod_multiples_vanish, lemma_small_mod,
};

verus! {

/// Appends the `k`-byte two's-complement big-endian encoding of `v`.
fn push_i_be(out: &mut Vec<u8>, v: i64, k: usize)
    requires
        1 <= k <= 8,
    ensures
        final(out)@ == old(out)@ + i_be(v as int, k as nat),
{
    proof {
        lemma_p256_values();
    }
    let u: u64 = if v >= 0 {
        v as u64
    } else {
        let t: i64 = v + 0x4000_0000_0000_0000 + 0x4000_0000_0000_0000;
        (t as u64) + 0x8000_0000_0000_0000
    };
    proof {
        if v >= 0 {
            lemma_small_mod(v as nat, p256(8));
            assert(u as int == (v as int) % (p256(8) as int));
        } else {
            lemma_mod_multiples_vanish(1, v as int, p256(8) as int);
            lemma_small_mod((v + p256(8)) as nat, p256(8));
            assert(u as int == (v as int) % (p256(8) as int));
        }
        // reduce modulo p256(k)
        lemma_p256_split(k as nat, (8 - k) as nat);
        lemma_mod_mod(v as int, p256(k as nat) as int, p256((8 - k) as nat) as int);
        assert((u as int) % (p256(k as nat) as int) == (v as int) % (p256(k as nat) as int));
        lemma_u_be_mod(u as nat, k as nat);
        lemma_u_be_mod((((v as int) % (p256(k as nat) as int)) as nat), k as nat);
        assert(u_be(u as nat, k as nat) == i_be(v as int, k as nat));
    }
    push_u_be(out, u, k);
}

/// Appends one unsigned PDU field: the given tag, a minimal one- to
/// four-byte length, and the value.
fn push_uint_field(out: &mut Vec<u8>, tag: u8, v: u32)
    ensures
        final(out)@ == old(out)@ + tlv(tag, u_be(v as nat, ufield_width(v))),
{
    let w: usize = if v < 0x100 {
        1
    } else if v < 0x1_0000 {
        2
    } else if v < 0x100_0000 {
        3
    } else {
        4
    };
    push_tl(out, tag, w);
    push_u_be(out, v as u64, w);
    proof {
        lemma_u_be_len(v as nat, w as nat);
        assert(final(out)@ =~= old(out)@ + tlv(tag, u_be(v as nat, ufield_width(v))));
    }
}

/// Appends one boolean PDU field under the given tag.
fn push_bool_field(out: &mut Vec<u8>, tag: u8, v: bool)
    ensures
        final(out)@ == old(out)@ + tlv(tag, seq![if v { 1u8 } else { 0u8 }]),
{
    push_tl(out, tag, 1);
    out.push(if v {
        1
    } else {
        0
    });
    assert(final(out)@ =~= old(out)@ + tlv(tag, seq![if v { 1u8 } else { 0u8 }]));
}

/// Appends one string PDU field under the given tag: the string's UTF-8
/// bytes behind their length.
fn push_string_field(out: &mut Vec<u8>, tag: u8, s: &String)
    ensures
        final(out)@ == old(out)@ + tlv(tag, vstd::utf8::encode_utf8(s@)),
{
    let bs = s.as_str().as_bytes_vec();
    push_tl(out, tag, bs.len());
    push_slice(out, bs.as_slice());
    assert(final(out)@ =~= old(out)@ + tlv(tag, vstd::utf8::encode_utf8(s@)));
}

/// Appends one eight-byte octet-string field under the given tag.
fn push_time_field(out: &mut Vec<u8>, tag: u8, t: &[u8; 8])
    ensures
        final(out)@ == old(out)@ + tlv(tag, t@),
{
    push_tl(out, tag, 8);
    push_slice(out, t.as_slice());
    assert(final(out)@ =~= old(out)@ + tlv(tag, t@));
}

/// Encodes one data element, appending its tag, length and payload.
pub fn encodeIECDataElement(v: &IECData, out: &mut Vec<u8>)
    ensures
        final(out)@ == old(out)@ + value_bytes(v@),
    decreases v,
{
    match v {
        IECData::array(elems) => {
            let mut payload: Vec<u8> = Vec::new();
            encodeIECData(elems, &mut payload);
            push_tl(out, TAG_ARRAY, payload.len());
            push_slice(out, payload.as_slice());
            assert(final(out)@ =~= old(out)@ + value_bytes(v@));
        },
        IECData::structure(elems) => {
            let mut payload: Vec<u8> = Vec::new();
            encodeIECData(elems, &mut payload);
            push_tl(out, TAG_STRUCTURE, payload.len());
            push_slice(out, payload.as_slice());
            assert(final(out)@ =~= old(out)@ + value_bytes(v@));
        },
        IECData::boolean(b) => {
            push_bool_field(out, TAG_BOOLEAN, *b);
        },
        IECData::int8(x) => {
            push_tl(out, TAG_SIGNED, 1);
            push_i_be(out, *x as i64, 1);
            proof {
                lemma_u_be_len(((*x as int) % (p256(1) as int)) as nat, 1);
                assert(final(out)@ =~= old(out)@ + value_bytes(v@));
            }
        },
        IECData::int16(x) => {
            push_tl(out, TAG_SIGNED, 2);
            push_i_be(out, *x as i64, 2);
            proof {
                lemma_u_be_len(((*x as int) % (p256(2) as int)) as nat, 2);
                assert(final(out)@ =~= old(out)@ + value_bytes(v@));
            }
        },
        IECData::int32(x) => {
            let w: usize = if -0x80_0000 <= *x && *x < 0x80_0000 {
                3
            } else {
                4
            };
            push_tl(out, TAG_SIGNED, w);
            push_i_be(out, *x as i64, w);
            proof {
                lemma_u_be_len(((*x as int) % (p256(w as nat) as int)) as nat, w as nat);
                assert(w as nat == i32_width(*x));
                assert(final(out)@ =~= old(out)@ + value_bytes(v@));
            }
        },
        IECData::int64(x) => {
            let w: usize = if -0x80_0000_0000 <= *x && *x < 0x80_0000_0000 {
                5
            } else if -0x8000_0000_0000 <= *x && *x < 0x8000_0000_0000 {
                6
            } else if -0x80_0000_0000_0000 <= *x && *x < 0x80_0000_0000_0000 {
                7
            } else {
                8
            };
            push_tl(out, TAG_SIGNED, w);
            push_i_be(out, *x, w);
            proof {
                lemma_u_be_len(((*x as int) % (p256(w as nat) as int)) as nat, w as nat);
                assert(w as nat == i64_width(*x));
                assert(final(out)@ =~= old(out)@ + value_bytes(v@));
            }
        },
        IECData::int8u(x) => {
            push_tl(out, TAG_UNSIGNED, 1);
            push_u_be(out, *x as u64, 1);
            proof {
                lemma_u_be_len(*x as nat, 1);
                assert(final(out)@ =~= old(out)@ + value_bytes(v@));
            }
        },
        IECData::int16u(x) => {
            push_tl(out, TAG_UNSIGNED, 2);
            push_u_be(out, *x as u64, 2);
            proof {
                lemma_u_be_len(*x as nat, 2);
                assert(final(out)@ =~= old(out)@ + value_bytes(v@));
            }
        },
        IECData::int32u(x) => {
            let w: usize = if *x < 0x100_0000 {
                3
            } else {
                4
            };
            push_tl(out, TAG_UNSIGNED, w);
            push_u_be(out, *x as u64, w);
            proof {
                lemma_u_be_len(*x as nat, w as nat);
                assert(w as nat == u32_width(*x));
                assert(final(out)@ =~= old(out)@ + value_bytes(v@));
            }
        },
        IECData::float32(bits) => {
            push_tl(out, TAG_FLOAT, 5);
            out.push(8);
            push_u_be(out, *bits as u64, 4);
            proof {
                lemma_u_be_len(*bits as nat, 4);
                assert(final(out)@ =~= old(out)@ + value_bytes(v@));
            }
        },
        IECData::float64(bits) => {
            push_tl(out, TAG_FLOAT, 9);
            out.push(11);
            push_u_be(out, *bits, 8);
            proof {
                lemma_u_be_len(*bits as nat, 8);
                assert(final(out)@ =~= old(out)@ + value_bytes(v@));
            }
        },
        IECData::visible_string(s) => {
            push_string_field(out, TAG_VISIBLE_STRING, s);
        },
        IECData::mms_string(s) => {
            push_string_field(out, TAG_MMS_STRING, s);
        },
        IECData::bit_string { padding, val } => {
            let mut payload: Vec<u8> = Vec::new();
            payload.push(*padding);
            push_slice(&mut payload, val.as_slice());
            push_tl(out, TAG_BIT_STRING, payload.len());
            push_slice(out, payload.as_slice());
            assert(payload@ =~= seq![*padding] + val@);
            assert(final(out)@ =~= old(out)@ + value_bytes(v@));
        },
        IECData::octet_string(bs) => {
            push_tl(out, TAG_OCTET_STRING, bs.len());
            push_slice(out, bs.as_slice());
            assert(final(out)@ =~= old(out)@ + value_bytes(v@));
        },
        IECData::utc_time(bs) => {
            push_time_field(out, TAG_UTC_TIME, bs);
        },
    }
}

/// Encodes a sequence of data elements in order, appending each element's
/// tag, length and payload.
pub fn encodeIECData(data: &Vec<IECData>, out: &mut Vec<u8>)
    ensures
        final(out)@ == old(out)@ + seq_bytes(data_views(data@), 0),
    decreases data,
{
    proof {
        lemma_data_views_index(data@);
    }
    let ghost views = data_views(data@);
    let mut j: usize = 0;
    while j < data.len()
        invariant
            j <= data.len(),
            views == data_views(data@),
            views.len() == data@.len(),
            forall|i: int| 0 <= i < data@.len() ==> views[i] == data@[i]@,
            old(out)@ + seq_bytes(views, 0) == out@ + seq_bytes(views, j as int),
        decreases data.len() - j,
    {
        encodeIECDataElement(&data[j], out);
        proof {
            assert(seq_bytes(views, j as int) == value_bytes(views[j as int]) + seq_bytes(
                views,
                j as int + 1,
            ));
            assert(old(out)@ + seq_bytes(views, 0) =~= out@ + seq_bytes(views, j as int + 1));
        }
        j = j + 1;
    }
    proof {
        assert(seq_bytes(views, data@.len() as int) =~= Seq::<u8>::empty());
        assert(final(out)@ =~= old(out)@ + seq_bytes(views, 0));
    }
}

/// Encodes a whole PDU: the eleven fixed fields in order, then the AllData
/// container, all behind the reserved outer PDU tag. The entry count is
/// recomputed from the actual data-set length; the caller-supplied
/// `numDatSetEntries` never reaches the wire.
#[verifier::rlimit(100)]
pub fn encodeIECGoosePdu(pdu: &IECGoosePdu, out: &mut Vec<u8>)
    ensures
        final(out)@ == old(out)@ + pdu_bytes(pdu@),
{
    let mut fields: Vec<u8> = Vec::new();
    push_string_field(&mut fields, 0x80, &pdu.gocbRef);
    push_uint_field(&mut fields, 0x81, pdu.timeAllowedtoLive);
    push_string_field(&mut fields, 0x82, &pdu.datSet);
    push_string_field(&mut fields, 0x83, &pdu.goID);
    push_time_field(&mut fields, 0x84, &pdu.t);
    push_uint_field(&mut fields, 0x85, pdu.stNum);
    push_uint_field(&mut fields, 0x86, pdu.sqNum);
    push_bool_field(&mut fields, 0x87, pdu.simulation);
    push_uint_field(&mut fields, 0x88, pdu.confRev);
    push_bool_field(&mut fields, 0x89, pdu.ndsCom);
    let count: u32 = ((pdu.allData.len() as u64) % 0x1_0000_0000) as u32;
    proof {
        lemma_data_views_index(pdu.allData@);
        assert(count == crate::wire::encoded_entry_count(pdu@));
    }
    push_uint_field(&mut fields, 0x8a, count);
    let mut payload: Vec<u8> = Vec::new();
    encodeIECData(&pdu.allData, &mut payload);
    push_tl(&mut fields, TAG_ALL_DATA, payload.len());
    push_slice(&mut fields, payload.as_slice());
    assert(fields@ =~= pdu_fields_bytes(pdu@));
    push_tl(out, TAG_GOOSE_PDU, fields.len());
    push_slice(out, fields.as_slice());
    assert(final(out)@ =~= old(out)@ + pdu_bytes(pdu@));
}

} // verus!
