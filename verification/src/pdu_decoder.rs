#![allow(non_snake_case)]

//! Executable decoders for data elements and the GOOSE PDU, each proved to
//! agree exactly with the decoding functions of `wire`: they succeed on
//! precisely the buffers those functions accept, and return the value the
//! specification assigns to the bytes.

use crate::basic_decoder::{
    copy_range, decode_bool_field, decode_string_field, decode_string_payload, decode_tag_length,
    decode_time_field, decode_uint_field, read_be,
};
use crate::error::GooseError;
use crate::types::{data_views, IECData, IECGoosePdu};
use crate::wire::{
    decode_elem, fault, ErrModel, decode_pdu, decode_seq, lemma_be_val_bound, lemma_decode_elem_bounds,
    lemma_p256_le, lemma_p256_values, lemma_read_tl_bounds,
    lemma_sign_val_bound, p256, sign_val, TAG_ALL_DATA, TAG_ARRAY, TAG_BIT_STRING, TAG_BOOLEAN,
    TAG_FLOAT, TAG_GOOSE_PDU, TAG_MMS_STRING, TAG_OCTET_STRING, TAG_SIGNED, TAG_STRUCTURE,
    TAG_UNSIGNED, TAG_UTC_TIME, TAG_VISIBLE_STRING,
};
use vstd::prelude::*;

verus! {

/// `p256(k)` as a machine value, for widths below eight.
fn p256_u64(k: usize) -> (r: u64)
    requires
        k <= 7,
    ensures
        r as nat == p256(k as nat),
{
    proof {
        lemma_p256_values();
    }
    if k == 0 {
        1
    } else if k == 1 {
        0x100
    } else if k == 2 {
        0x1_0000
    } else if k == 3 {
        0x100_0000
    } else if k == 4 {
        0x1_0000_0000
    } else if k == 5 {
        0x100_0000_0000
    } else if k == 6 {
        0x1_0000_0000_0000
    } else {
        0x100_0000_0000_0000
    }
}

/// `p256(k) / 2` as a machine value: the smallest `k`-byte pattern whose
/// two's-complement reading is negative.
fn half_p256(k: usize) -> (r: u64)
    requires
        1 <= k <= 8,
    ensures
        r as nat == p256(k as nat) / 2,
{
    proof {
        lemma_p256_values();
    }
    if k == 1 {
        0x80
    } else if k == 2 {
        0x8000
    } else if k == 3 {
        0x80_0000
    } else if k == 4 {
        0x8000_0000
    } else if k == 5 {
        0x80_0000_0000
    } else if k == 6 {
        0x8000_0000_0000
    } else if k == 7 {
        0x80_0000_0000_0000
    } else {
        0x8000_0000_0000_0000
    }
}

/// Reads `len` payload bytes at `pos` as a signed two's-complement value.
fn read_signed(buffer: &[u8], pos: usize, len: usize) -> (r: i64)
    requires
        pos + len <= buffer@.len(),
        1 <= len <= 8,
    ensures
        r as int == sign_val(buffer@.subrange(pos as int, pos as int + len as int)),
{
    let ghost payload = buffer@.subrange(pos as int, pos as int + len as int);
    let u = read_be(buffer, pos, len);
    let half = half_p256(len);
    proof {
        lemma_be_val_bound(payload);
        lemma_p256_values();
        lemma_p256_le(len as nat, 8);
    }
    if u < half {
        u as i64
    } else if len < 8 {
        let p = p256_u64(len);
        (u as i64) - (p as i64)
    } else {
        ((u - half) as i64) + i64::MIN
    }
}

/// Decodes one data element at `pos`: its tag byte, its length field, and a
/// payload whose reading depends on the tag. Unknown tags and unsupported
/// width combinations fail with an error positioned at the tag byte.
pub fn decodeIECDataElement(buffer: &[u8], pos: usize) -> (r: Result<
    (usize, IECData),
    GooseError,
>)
    ensures
        match r {
            Ok((np, v)) => decode_elem(buffer@, pos as nat) == Ok::<(nat, crate::model::DataModel), ErrModel>(
                (np as nat, v@),
            ),
            Err(e) => decode_elem(buffer@, pos as nat) matches Err(f) && f.message == e.message@
                && f.pos == e.pos,
        },
    decreases buffer@.len() - pos, 0int,
{
    let blen = buffer.len();
    let (tag, length, p2) = match decode_tag_length(buffer, pos) {
        Ok(t) => t,
        Err(e) => {
            return Err(e);
        },
    };
    proof {
        lemma_read_tl_bounds(buffer@, pos as nat);
    }
    if tag == TAG_BOOLEAN {
        if length != 1 || p2 >= blen {
            return Err(GooseError { message: "unexpected size boolean".to_owned(), pos });
        }
        Ok((p2 + 1, IECData::boolean(buffer[p2] != 0)))
    } else if tag == TAG_SIGNED {
        if length < 1 || length > 8 {
            return Err(GooseError { message: "oversize signed interger".to_owned(), pos });
        }
        if length > blen - p2 {
            return Err(GooseError { message: "buffer too short".to_owned(), pos: p2 });
        }
        let ghost payload = buffer@.subrange(p2 as int, p2 as int + length as int);
        let v = read_signed(buffer, p2, length);
        proof {
            lemma_sign_val_bound(payload);
            lemma_p256_values();
        }
        if length == 1 {
            Ok((p2 + 1, IECData::int8(v as i8)))
        } else if length == 2 {
            Ok((p2 + 2, IECData::int16(v as i16)))
        } else if length <= 4 {
            Ok((p2 + length, IECData::int32(v as i32)))
        } else {
            Ok((p2 + length, IECData::int64(v)))
        }
    } else if tag == TAG_UNSIGNED {
        if length < 1 || length > 8 {
            return Err(GooseError { message: "oversize unsigned interger".to_owned(), pos });
        }
        if length >= 6 {
            return Err(GooseError { message: "oversize unsigned interger".to_owned(), pos });
        }
        if length > blen - p2 {
            return Err(GooseError { message: "buffer too short".to_owned(), pos: p2 });
        }
        proof {
            lemma_p256_values();
        }
        if length == 1 {
            let u = read_be(buffer, p2, 1);
            proof {
                lemma_be_val_bound(buffer@.subrange(p2 as int, p2 as int + 1));
            }
            Ok((p2 + 1, IECData::int8u(u as u8)))
        } else if length == 2 {
            let u = read_be(buffer, p2, 2);
            proof {
                lemma_be_val_bound(buffer@.subrange(p2 as int, p2 as int + 2));
            }
            Ok((p2 + 2, IECData::int16u(u as u16)))
        } else if length <= 4 {
            let u = read_be(buffer, p2, length);
            proof {
                lemma_be_val_bound(buffer@.subrange(p2 as int, p2 as int + length as int));
                lemma_p256_le(length as nat, 4);
            }
            Ok((p2 + length, IECData::int32u(u as u32)))
        } else {
            // five bytes: only a 32-bit value prepended with one zero pad byte
            if buffer[p2] != 0 {
                return Err(GooseError { message: "oversize unsigned interger".to_owned(), pos });
            }
            let u = read_be(buffer, p2 + 1, 4);
            proof {
                lemma_be_val_bound(buffer@.subrange(p2 as int + 1, p2 as int + 5));
            }
            Ok((p2 + 5, IECData::int32u(u as u32)))
        }
    } else if tag == TAG_FLOAT {
        if length != 5 && length != 9 {
            return Err(GooseError { message: "unexpexted size float".to_owned(), pos });
        }
        if length > blen - p2 {
            return Err(GooseError { message: "buffer too short".to_owned(), pos: p2 });
        }
        proof {
            lemma_p256_values();
        }
        if length == 5 {
            let u = read_be(buffer, p2 + 1, 4);
            proof {
                lemma_be_val_bound(buffer@.subrange(p2 as int + 1, p2 as int + 5));
            }
            Ok((p2 + 5, IECData::float32(u as u32)))
        } else {
            let u = read_be(buffer, p2 + 1, 8);
            Ok((p2 + 9, IECData::float64(u)))
        }
    } else if tag == TAG_VISIBLE_STRING || tag == TAG_MMS_STRING {
        if length > blen - p2 {
            return Err(GooseError { message: "buffer too short".to_owned(), pos: p2 });
        }
        let s = match decode_string_payload(buffer, p2, length) {
            Ok(s) => s,
            Err(e) => {
                return Err(e);
            },
        };
        if tag == TAG_VISIBLE_STRING {
            Ok((p2 + length, IECData::visible_string(s)))
        } else {
            Ok((p2 + length, IECData::mms_string(s)))
        }
    } else if tag == TAG_BIT_STRING {
        if length < 1 || length > blen - p2 {
            return Err(GooseError { message: "buffer too short".to_owned(), pos: p2 });
        }
        let padding = buffer[p2];
        if padding > 7 {
            return Err(GooseError { message: "invalid bit string padding".to_owned(), pos });
        }
        let val = copy_range(buffer, p2 + 1, length - 1);
        proof {
            assert(val@ =~= buffer@.subrange(p2 as int + 1, (p2 + length) as int));
        }
        Ok((p2 + length, IECData::bit_string { padding, val }))
    } else if tag == TAG_OCTET_STRING {
        if length > blen - p2 {
            return Err(GooseError { message: "buffer too short".to_owned(), pos: p2 });
        }
        let val = copy_range(buffer, p2, length);
        Ok((p2 + length, IECData::octet_string(val)))
    } else if tag == TAG_UTC_TIME {
        if length != 8 {
            return Err(GooseError { message: "unexpected size utc-time".to_owned(), pos });
        }
        if 8 > blen - p2 {
            return Err(GooseError { message: "buffer too short".to_owned(), pos: p2 });
        }
        let t: [u8; 8] = [
            buffer[p2],
            buffer[p2 + 1],
            buffer[p2 + 2],
            buffer[p2 + 3],
            buffer[p2 + 4],
            buffer[p2 + 5],
            buffer[p2 + 6],
            buffer[p2 + 7],
        ];
        proof {
            assert(t@ =~= buffer@.subrange(p2 as int, p2 as int + 8));
        }
        Ok((p2 + 8, IECData::utc_time(t)))
    } else if tag == TAG_ARRAY || tag == TAG_STRUCTURE {
        if length > blen - p2 {
            return Err(GooseError { message: "buffer too short".to_owned(), pos: p2 });
        }
        let mut val: Vec<IECData> = Vec::new();
        let np = match decodeIECData(&mut val, buffer, p2, p2 + length) {
            Ok(n) => n,
            Err(e) => {
                return Err(e);
            },
        };
        proof {
            assert(val@.skip(0) =~= val@);
            assert(data_views(val@) == decode_seq(
                buffer@,
                p2 as nat,
                (p2 + length) as nat,
            )->Ok_0.1);
        }
        if tag == TAG_ARRAY {
            Ok((np, IECData::array(val)))
        } else {
            Ok((np, IECData::structure(val)))
        }
    } else {
        Err(GooseError { message: "unknown data type".to_owned(), pos })
    }
}

/// Decodes data elements starting at `pos` and appends them to `data`,
/// until the running position reaches or passes `end`. The wire format
/// carries no element count: termination is purely length-bounded.
pub fn decodeIECData(data: &mut Vec<IECData>, buffer: &[u8], pos: usize, end: usize) -> (r: Result<
    usize,
    GooseError,
>)
    ensures
        match r {
            Ok(np) => {
                &&& decode_seq(buffer@, pos as nat, end as nat) matches Ok((snp, ms))
                &&& np as nat == decode_seq(buffer@, pos as nat, end as nat)->Ok_0.0
                &&& final(data)@.len() == old(data)@.len() + decode_seq(
                    buffer@,
                    pos as nat,
                    end as nat,
                )->Ok_0.1.len()
                &&& final(data)@.subrange(0, old(data)@.len() as int) == old(data)@
                &&& data_views(final(data)@.skip(old(data)@.len() as int)) == decode_seq(
                    buffer@,
                    pos as nat,
                    end as nat,
                )->Ok_0.1
            },
            Err(e) => decode_seq(buffer@, pos as nat, end as nat) matches Err(f) && f.message
                == e.message@ && f.pos == e.pos,
        },
    decreases buffer@.len() - pos, 1int,
{
    let ghost base = old(data)@.len() as int;
    let mut new_pos = pos;
    while new_pos < end
        invariant
            pos <= new_pos,
            data@.len() >= old(data)@.len(),
            data@.subrange(0, base) == old(data)@,
            base == old(data)@.len(),
            match decode_seq(buffer@, new_pos as nat, end as nat) {
                Ok((e, rest)) => decode_seq(buffer@, pos as nat, end as nat) == Ok::<
                    (nat, Seq<crate::model::DataModel>),
                    ErrModel,
                >((e, data_views(data@.skip(base)) + rest)),
                Err(f) => decode_seq(buffer@, pos as nat, end as nat) == Err::<
                    (nat, Seq<crate::model::DataModel>),
                    ErrModel,
                >(f),
            },
        ensures
            new_pos >= end,
        decreases end - new_pos,
    {
        let blen = buffer.len();
        if new_pos > blen {
            proof {
                assert(decode_elem(buffer@, new_pos as nat) == Err::<
                    (nat, crate::model::DataModel),
                    ErrModel,
                >(fault("buffer too short"@, new_pos as nat)));
            }
            return Err(GooseError { message: "buffer too short".to_owned(), pos: new_pos });
        }
        let (np, v) = match decodeIECDataElement(buffer, new_pos) {
            Ok(t) => t,
            Err(e) => {
                return Err(e);
            },
        };
        proof {
            lemma_decode_elem_bounds(buffer@, new_pos as nat);
        }
        let ghost dpre = data@;
        data.push(v);
        proof {
            let cur = new_pos as nat;
            assert(data@ == dpre.push(v));
            assert(data@.skip(base) =~= dpre.skip(base).push(v));
            assert(data@.skip(base).drop_last() =~= dpre.skip(base));
            assert(data@.skip(base).last() == v);
            assert(data_views(data@.skip(base)) == data_views(dpre.skip(base)).push(v@));
            assert(data@.subrange(0, base) =~= dpre.subrange(0, base));
            match decode_seq(buffer@, np as nat, end as nat) {
                Ok((e, rest)) => {
                    assert(decode_seq(buffer@, cur, end as nat) == Ok::<
                        (nat, Seq<crate::model::DataModel>),
                        ErrModel,
                    >((e, seq![v@] + rest)));
                    assert(data_views(dpre.skip(base)) + (seq![v@] + rest) =~= data_views(
                        data@.skip(base),
                    ) + rest);
                    assert(decode_seq(buffer@, pos as nat, end as nat) == Ok::<
                        (nat, Seq<crate::model::DataModel>),
                        ErrModel,
                    >((e, data_views(data@.skip(base)) + rest)));
                },
                Err(f) => {
                    assert(decode_seq(buffer@, cur, end as nat) == Err::<
                        (nat, Seq<crate::model::DataModel>),
                        ErrModel,
                    >(f));
                },
            }
        }
        new_pos = np;
        if new_pos >= end {
            break;
        }
    }
    proof {
        assert(decode_seq(buffer@, new_pos as nat, end as nat) == Ok::<
            (nat, Seq<crate::model::DataModel>),
            ErrModel,
        >((new_pos as nat, Seq::<crate::model::DataModel>::empty())));
        let done = data_views(data@.skip(base));
        assert(done + Seq::<crate::model::DataModel>::empty() =~= done);
        assert(data@.skip(base).len() == data@.len() - base);
        crate::types::lemma_data_views_index(data@.skip(base));
    }
    Ok(new_pos)
}

/// Decodes a whole PDU at `*pos`, advancing `*pos` past it. The outer tag
/// must be the reserved PDU tag and its declared length must fit the
/// remaining buffer; the eleven fixed fields follow in strict order (their
/// individual tags are not checked), then the AllData container under its
/// own tag. A decoded entry count that disagrees with the number of decoded
/// elements is a hard error.
pub fn decodeIECGoosePdu(buffer: &[u8], pos: &mut usize) -> (r: Result<IECGoosePdu, GooseError>)
    ensures
        match r {
            Ok(pdu) => decode_pdu(buffer@, *old(pos) as nat) matches Ok((np, pm)) && *final(pos)
                == np && pdu@ == pm,
            Err(e) => decode_pdu(buffer@, *old(pos) as nat) matches Err(f) && f.message
                == e.message@ && f.pos == e.pos,
        },
{
    let blen = buffer.len();
    let (tag0, plen, p0) = match decode_tag_length(buffer, *pos) {
        Ok(t) => t,
        Err(e) => {
            return Err(e);
        },
    };
    proof {
        lemma_read_tl_bounds(buffer@, *old(pos) as nat);
    }
    if tag0 != TAG_GOOSE_PDU {
        return Err(GooseError { message: "first tag != 61".to_owned(), pos: p0 });
    }
    if plen > blen - p0 {
        return Err(GooseError { message: "buffer too short".to_owned(), pos: p0 });
    }
    let (p1, gocbRef) = match decode_string_field(buffer, p0) {
        Ok(t) => t,
        Err(e) => {
            return Err(e);
        },
    };
    let (p2, timeAllowedtoLive) = match decode_uint_field(buffer, p1) {
        Ok(t) => t,
        Err(e) => {
            return Err(e);
        },
    };
    let (p3, datSet) = match decode_string_field(buffer, p2) {
        Ok(t) => t,
        Err(e) => {
            return Err(e);
        },
    };
    let (p4, goID) = match decode_string_field(buffer, p3) {
        Ok(t) => t,
        Err(e) => {
            return Err(e);
        },
    };
    let (p5, t) = match decode_time_field(buffer, p4) {
        Ok(t) => t,
        Err(e) => {
            return Err(e);
        },
    };
    let (p6, stNum) = match decode_uint_field(buffer, p5) {
        Ok(t) => t,
        Err(e) => {
            return Err(e);
        },
    };
    let (p7, sqNum) = match decode_uint_field(buffer, p6) {
        Ok(t) => t,
        Err(e) => {
            return Err(e);
        },
    };
    let (p8, simulation) = match decode_bool_field(buffer, p7) {
        Ok(t) => t,
        Err(e) => {
            return Err(e);
        },
    };
    let (p9, confRev) = match decode_uint_field(buffer, p8) {
        Ok(t) => t,
        Err(e) => {
            return Err(e);
        },
    };
    let (p10, ndsCom) = match decode_bool_field(buffer, p9) {
        Ok(t) => t,
        Err(e) => {
            return Err(e);
        },
    };
    let (p11, numDatSetEntries) = match decode_uint_field(buffer, p10) {
        Ok(t) => t,
        Err(e) => {
            return Err(e);
        },
    };
    let (atag, alen, p12) = match decode_tag_length(buffer, p11) {
        Ok(t) => t,
        Err(e) => {
            return Err(e);
        },
    };
    proof {
        lemma_read_tl_bounds(buffer@, p11 as nat);
    }
    if atag != TAG_ALL_DATA {
        return Err(GooseError { message: "allData tag != ab".to_owned(), pos: p12 });
    }
    if alen > blen - p12 {
        return Err(GooseError { message: "buffer too short".to_owned(), pos: p12 });
    }
    let mut allData: Vec<IECData> = Vec::new();
    let p13 = match decodeIECData(&mut allData, buffer, p12, p12 + alen) {
        Ok(n) => n,
        Err(e) => {
            return Err(e);
        },
    };
    if (numDatSetEntries as usize) != allData.len() {
        return Err(
            GooseError {
                message: "allData size does not match data entries".to_owned(),
                pos: p13,
            },
        );
    }
    let pdu = IECGoosePdu {
        gocbRef,
        timeAllowedtoLive,
        datSet,
        goID,
        t,
        stNum,
        sqNum,
        simulation,
        confRev,
        ndsCom,
        numDatSetEntries,
        allData,
    };
    proof {
        assert(data_views(pdu.allData@.skip(0)) == data_views(pdu.allData@)) by {
            assert(pdu.allData@.skip(0) =~= pdu.allData@);
        }
        assert(pdu@ == decode_pdu(buffer@, *old(pos) as nat)->Ok_0.1);
    }
    *pos = p13;
    Ok(pdu)
}

} // verus!
