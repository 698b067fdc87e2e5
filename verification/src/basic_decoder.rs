//! Executable byte-reading primitives: the tag-length header, big-endian
//! integers, byte ranges, strings, and the tag-prefixed fixed PDU fields,
//! each proved to agree with the reading functions of `wire`.

use crate::error::GooseError;
use crate::wire::{
    be_val, ErrModel, lemma_be_val_bound, lemma_p256_le, lemma_p256_values, p256, read_bool_field,
    read_string_field, read_time_field, read_tl, read_uint_field,
};
use vstd::prelude::*;
use vstd::utf8::{encode_utf8, valid_utf8};

verus! {

/// Reads `k` big-endian bytes at `pos` as an unsigned value.
pub(crate) fn read_be(buffer: &[u8], pos: usize, k: usize) -> (r: u64)
    requires
        pos + k <= buffer@.len(),
        k <= 8,
    ensures
        r as nat == be_val(buffer@.subrange(pos as int, pos as int + k as int)),
{
    proof {
        lemma_p256_values();
    }
    let blen = buffer.len();
    let mut acc: u64 = 0;
    let mut i: usize = 0;
    while i < k
        invariant
            i <= k,
            k <= 8,
            blen == buffer@.len(),
            pos + k <= buffer@.len(),
            acc as nat == be_val(buffer@.subrange(pos as int, pos as int + i as int)),
            (acc as nat) < p256(i as nat),
            p256(8) == 0x1_0000_0000_0000_0000,
        decreases k - i,
    {
        let b = buffer[pos + i];
        proof {
            lemma_p256_le((i + 1) as nat, 8);
            assert(p256((i + 1) as nat) == 256 * p256(i as nat));
            assert((acc as nat) * 256 + b < p256((i + 1) as nat));
        }
        acc = acc * 256 + (b as u64);
        proof {
            let sub1 = buffer@.subrange(pos as int, pos as int + i as int + 1);
            assert(sub1.drop_last() =~= buffer@.subrange(pos as int, pos as int + i as int));
            assert(sub1.last() == buffer@[pos as int + i as int]);
            assert(acc as nat == be_val(sub1));
        }
        i = i + 1;
    }
    proof {
        assert(buffer@.subrange(pos as int, pos as int + i as int) =~= buffer@.subrange(
            pos as int,
            pos as int + k as int,
        ));
    }
    acc
}

/// Copies `len` bytes starting at `pos` into a fresh buffer.
pub(crate) fn copy_range(buffer: &[u8], pos: usize, len: usize) -> (r: Vec<u8>)
    requires
        pos + len <= buffer@.len(),
    ensures
        r@ == buffer@.subrange(pos as int, pos as int + len as int),
{
    let blen = buffer.len();
    let mut r: Vec<u8> = Vec::new();
    let mut i: usize = 0;
    while i < len
        invariant
            i <= len,
            blen == buffer@.len(),
            pos + len <= buffer@.len(),
            r@ == buffer@.subrange(pos as int, pos as int + i as int),
        decreases len - i,
    {
        r.push(buffer[pos + i]);
        i = i + 1;
        assert(r@ =~= buffer@.subrange(pos as int, pos as int + i as int));
    }
    proof {
        assert(r@ =~= buffer@.subrange(pos as int, pos as int + len as int));
    }
    r
}

/// Relies on `String::from_utf8`: when the bytes are valid UTF-8 it returns
/// the string holding exactly those bytes, and otherwise it fails.
#[verifier::external_body]
fn bytes_to_string(v: Vec<u8>) -> (r: Option<String>)
    ensures
        match r {
            Some(s) => valid_utf8(v@) && encode_utf8(s@) == v@,
            None => !valid_utf8(v@),
        },
{
    match String::from_utf8(v) {
        Ok(s) => Some(s),
        Err(_) => None,
    }
}

/// Reads one tag byte and one (possibly multi-byte) length field.
pub fn decode_tag_length(buffer: &[u8], pos: usize) -> (r: Result<(u8, usize, usize), GooseError>)
    ensures
        match r {
            Ok((tag, len, np)) => read_tl(buffer@, pos as nat) == Some(
                (tag, len as nat, np as nat),
            ),
            Err(e) => read_tl(buffer@, pos as nat) is None && e.message@ == "buffer too short"@
                && e.pos == pos,
        },
{
    if buffer.len() < 2 || pos > buffer.len() - 2 {
        return Err(GooseError { message: "buffer too short".to_owned(), pos });
    }
    let tag = buffer[pos];
    let l0 = buffer[pos + 1];
    if l0 < 0x80 {
        Ok((tag, l0 as usize, pos + 2))
    } else {
        let k = (l0 - 0x80) as usize;
        if k == 0 || k > 8 || k > buffer.len() - (pos + 2) {
            return Err(GooseError { message: "buffer too short".to_owned(), pos });
        }
        let val = read_be(buffer, pos + 2, k);
        if val > usize::MAX as u64 {
            return Err(GooseError { message: "buffer too short".to_owned(), pos });
        }
        Ok((tag, val as usize, pos + 2 + k))
    }
}

/// Reads a string payload of `len` bytes at `pos`.
pub(crate) fn decode_string_payload(buffer: &[u8], pos: usize, len: usize) -> (r: Result<
    String,
    GooseError,
>)
    requires
        pos + len <= buffer@.len(),
    ensures
        match r {
            Ok(s) => valid_utf8(buffer@.subrange(pos as int, pos as int + len as int))
                && encode_utf8(s@) == buffer@.subrange(pos as int, pos as int + len as int),
            Err(e) => !valid_utf8(buffer@.subrange(pos as int, pos as int + len as int))
                && e.message@ == "invalid utf-8 string"@ && e.pos == pos,
        },
{
    let v = copy_range(buffer, pos, len);
    match bytes_to_string(v) {
        Some(s) => Ok(s),
        None => Err(GooseError { message: "invalid utf-8 string".to_owned(), pos }),
    }
}

/// Reads one unsigned PDU field: a tag-length header (the tag itself is not
/// checked) and one to four big-endian payload bytes.
pub(crate) fn decode_uint_field(buffer: &[u8], pos: usize) -> (r: Result<
    (usize, u32),
    GooseError,
>)
    ensures
        match r {
            Ok((np, v)) => read_uint_field(buffer@, pos as nat) == Ok::<(nat, u32), ErrModel>((np as nat, v)),
            Err(e) => read_uint_field(buffer@, pos as nat) matches Err(f) && f.message
                == e.message@ && f.pos == e.pos,
        },
{
    let (tag, len, p2) = match decode_tag_length(buffer, pos) {
        Ok(t) => t,
        Err(e) => {
            return Err(e);
        },
    };
    proof {
        crate::wire::lemma_read_tl_bounds(buffer@, pos as nat);
    }
    if len < 1 || len > 4 || len > buffer.len() - p2 {
        return Err(GooseError { message: "buffer too short".to_owned(), pos: p2 });
    }
    let v = read_be(buffer, p2, len);
    proof {
        lemma_be_val_bound(buffer@.subrange(p2 as int, p2 as int + len as int));
        lemma_p256_le(len as nat, 4);
        lemma_p256_values();
    }
    Ok((p2 + len, v as u32))
}

/// Reads one boolean PDU field: a tag-length header (the tag itself is not
/// checked) and a single payload byte, nonzero meaning true.
pub(crate) fn decode_bool_field(buffer: &[u8], pos: usize) -> (r: Result<
    (usize, bool),
    GooseError,
>)
    ensures
        match r {
            Ok((np, v)) => read_bool_field(buffer@, pos as nat) == Ok::<(nat, bool), ErrModel>((np as nat, v)),
            Err(e) => read_bool_field(buffer@, pos as nat) matches Err(f) && f.message
                == e.message@ && f.pos == e.pos,
        },
{
    let (tag, len, p2) = match decode_tag_length(buffer, pos) {
        Ok(t) => t,
        Err(e) => {
            return Err(e);
        },
    };
    proof {
        crate::wire::lemma_read_tl_bounds(buffer@, pos as nat);
    }
    if len != 1 || p2 >= buffer.len() {
        return Err(GooseError { message: "buffer too short".to_owned(), pos: p2 });
    }
    Ok((p2 + 1, buffer[p2] != 0))
}

/// Reads one string PDU field: a tag-length header (the tag itself is not
/// checked) and the string's bytes.
pub(crate) fn decode_string_field(buffer: &[u8], pos: usize) -> (r: Result<
    (usize, String),
    GooseError,
>)
    ensures
        match r {
            Ok((np, s)) => read_string_field(buffer@, pos as nat) matches Ok((snp, bs))
                && np as nat == snp && encode_utf8(s@) == bs,
            Err(e) => read_string_field(buffer@, pos as nat) matches Err(f) && f.message
                == e.message@ && f.pos == e.pos,
        },
{
    let (tag, len, p2) = match decode_tag_length(buffer, pos) {
        Ok(t) => t,
        Err(e) => {
            return Err(e);
        },
    };
    proof {
        crate::wire::lemma_read_tl_bounds(buffer@, pos as nat);
    }
    if len > buffer.len() - p2 {
        return Err(GooseError { message: "buffer too short".to_owned(), pos: p2 });
    }
    let s = match decode_string_payload(buffer, p2, len) {
        Ok(s) => s,
        Err(e) => {
            return Err(e);
        },
    };
    Ok((p2 + len, s))
}

/// Reads the eight-byte timestamp PDU field: a tag-length header (the tag
/// itself is not checked) and exactly eight payload bytes.
pub(crate) fn decode_time_field(buffer: &[u8], pos: usize) -> (r: Result<
    (usize, [u8; 8]),
    GooseError,
>)
    ensures
        match r {
            Ok((np, t)) => read_time_field(buffer@, pos as nat) matches Ok((snp, bs))
                && np as nat == snp && t@ == bs,
            Err(e) => read_time_field(buffer@, pos as nat) matches Err(f) && f.message
                == e.message@ && f.pos == e.pos,
        },
{
    let (tag, len, p2) = match decode_tag_length(buffer, pos) {
        Ok(t) => t,
        Err(e) => {
            return Err(e);
        },
    };
    proof {
        crate::wire::lemma_read_tl_bounds(buffer@, pos as nat);
    }
    if len != 8 || 8 > buffer.len() - p2 {
        return Err(GooseError { message: "buffer too short".to_owned(), pos: p2 });
    }
    let t: [u8; 8] = [
        buffer[p2],
        buffer[p2 + 1],
        buffer[p2 + 2],
        buffer[p2 + 3],
        buffer[p2 + 4],
        buffer[p2 + 5],
        buffer[p2 + 6],
        buffer[p2 + 7],
    ];
    proof {
        assert(t@ =~= buffer@.subrange(p2 as int, p2 as int + 8));
    }
    Ok((p2 + 8, t))
}

} // verus!
