//! Executable byte-writing primitives: big-endian integers, BER length
//! fields and tag-length headers, each appending to a growing buffer and
//! proved to produce exactly the bytes that `wire` specifies.

use crate::wire::{
    len_bytes, lemma_min_be_len, lemma_p256_values, min_be, p256, u_be,
};
use vstd::prelude::*;

verus! {

/// Appends the `k`-byte big-endian encoding of `v` (truncated to `k` bytes).
pub(crate) fn push_u_be(out: &mut Vec<u8>, v: u64, k: usize)
    ensures
        final(out)@ == old(out)@ + u_be(v as nat, k as nat),
    decreases k,
{
    if k > 0 {
        push_u_be(out, v / 256, k - 1);
        out.push((v % 256) as u8);
        assert(out@ =~= old(out)@ + u_be(v as nat, k as nat));
    } else {
        assert(out@ =~= old(out)@ + u_be(v as nat, 0));
    }
}

/// Appends the minimal big-endian encoding of `n`.
pub(crate) fn push_min_be(out: &mut Vec<u8>, n: usize)
    ensures
        final(out)@ == old(out)@ + min_be(n as nat),
    decreases n,
{
    if n < 256 {
        out.push(n as u8);
        assert(out@ =~= old(out)@ + min_be(n as nat));
    } else {
        push_min_be(out, n / 256);
        out.push((n % 256) as u8);
        assert(out@ =~= old(out)@ + min_be(n as nat));
    }
}

/// The number of bytes in the minimal big-endian encoding of `n`.
pub(crate) fn min_be_len(n: usize) -> (r: usize)
    ensures
        r == min_be(n as nat).len(),
        1 <= r <= 8,
    decreases n,
{
    proof {
        lemma_p256_values();
        assert(n as nat <= usize::MAX as nat);
        assert((usize::MAX as nat) < p256(8));
        lemma_min_be_len(n as nat, 8);
    }
    if n < 256 {
        1
    } else {
        let r = 1 + min_be_len(n / 256);
        r
    }
}

/// Appends the BER length field for a payload of `n` bytes.
pub(crate) fn push_len(out: &mut Vec<u8>, n: usize)
    ensures
        final(out)@ == old(out)@ + len_bytes(n as nat),
{
    if n < 128 {
        out.push(n as u8);
        assert(out@ =~= old(out)@ + len_bytes(n as nat));
    } else {
        let k = min_be_len(n);
        out.push(128 + k as u8);
        push_min_be(out, n);
        assert(out@ =~= old(out)@ + len_bytes(n as nat));
    }
}

/// Appends a tag byte and the length field for a payload of `n` bytes.
pub(crate) fn push_tl(out: &mut Vec<u8>, tag: u8, n: usize)
    ensures
        final(out)@ == old(out)@ + seq![tag] + len_bytes(n as nat),
{
    out.push(tag);
    push_len(out, n);
    assert(out@ =~= old(out)@ + seq![tag] + len_bytes(n as nat));
}

/// Appends every byte of `s`.
pub(crate) fn push_slice(out: &mut Vec<u8>, s: &[u8])
    ensures
        final(out)@ == old(out)@ + s@,
{
    let mut i: usize = 0;
    while i < s.len()
        invariant
            i <= s.len(),
            out@ == old(out)@ + s@.subrange(0, i as int),
        decreases s.len() - i,
    {
        out.push(s[i]);
        i = i + 1;
        assert(out@ =~= old(out)@ + s@.subrange(0, i as int));
    }
    assert(out@ =~= old(out)@ + s@);
}

} // verus!
