//! Big-endian integers and byte-range helpers shared by the wire formats.
use vstd::prelude::*;
use vstd::slice::slice_subrange;
use vstd::slice::slice_to_vec;

verus! {

/// The value of the four bytes at `at` read as a big-endian unsigned integer.
pub open spec fn be32_at(s: Seq<u8>, at: int) -> nat {
    (s[at] as nat) * 16777216 + (s[at + 1] as nat) * 65536 + (s[at + 2] as nat) * 256 + (
    s[at + 3] as nat)
}

/// The four big-endian bytes of `n`.
#[verifier::opaque]
pub open spec fn be32_bytes(n: u32) -> Seq<u8> {
    seq![
        (n / 16777216) as u8,
        ((n / 65536) % 256) as u8,
        ((n / 256) % 256) as u8,
        (n % 256) as u8,
    ]
}

/// Reading back the bytes of `n` gives `n`.
pub proof fn lemma_be32_round_trip(n: u32)
    ensures
        be32_bytes(n).len() == 4,
        be32_at(be32_bytes(n), 0) == n,
{
    reveal(be32_bytes);
    assert(n == (n / 16777216) * 16777216 + ((n / 65536) % 256) * 65536 + ((n / 256) % 256) * 256
        + n % 256) by (bit_vector);
}

/// Reads the big-endian `u32` that starts at `at`.
pub fn read_be32(s: &[u8], at: usize) -> (r: u32)
    requires
        at + 4 <= s@.len(),
    ensures
        r as nat == be32_at(s@, at as int),
{
    let b0 = s[at] as u32;
    let b1 = s[at + 1] as u32;
    let b2 = s[at + 2] as u32;
    let b3 = s[at + 3] as u32;
    b0 * 16777216 + b1 * 65536 + b2 * 256 + b3
}

/// Appends the big-endian bytes of `n` to `dst`.
pub fn push_be32(dst: &mut Vec<u8>, n: u32)
    ensures
        final(dst)@ == old(dst)@ + be32_bytes(n),
{
    proof {
        reveal(be32_bytes);
    }
    dst.push((n / 16777216) as u8);
    dst.push(((n / 65536) % 256) as u8);
    dst.push(((n / 256) % 256) as u8);
    dst.push((n % 256) as u8);
    assert(final(dst)@ =~= old(dst)@ + be32_bytes(n));
}

/// The big-endian bytes of `n` as an array.
pub fn be32_array(n: u32) -> (r: [u8; 4])
    ensures
        r@ == be32_bytes(n),
{
    proof {
        reveal(be32_bytes);
    }
    let r = [(n / 16777216) as u8, ((n / 65536) % 256) as u8, ((n / 256) % 256) as u8, (n % 256) as u8];
    assert(r@ =~= be32_bytes(n));
    r
}

/// A copy of the bytes of `s` from `lo` up to `hi`.
pub fn copy_range(s: &[u8], lo: usize, hi: usize) -> (r: Vec<u8>)
    requires
        lo <= hi <= s@.len(),
    ensures
        r@ == s@.subrange(lo as int, hi as int),
{
    slice_to_vec(slice_subrange(s, lo, hi))
}

/// Appends all of `src` to `dst`.
pub fn append_bytes(dst: &mut Vec<u8>, src: &[u8])
    ensures
        final(dst)@ == old(dst)@ + src@,
{
    let mut i: usize = 0;
    while i < src.len()
        invariant
            i <= src@.len(),
            dst@ == old(dst)@ + src@.subrange(0, i as int),
        decreases src@.len() - i,
    {
        dst.push(src[i]);
        i = i + 1;
        assert(dst@ =~= old(dst)@ + src@.subrange(0, i as int));
    }
    assert(src@.subrange(0, src@.len() as int) =~= src@);
}

/// The eight bytes of `b` from `at`.
pub fn array8(b: &[u8], at: usize) -> (r: [u8; 8])
    requires
        at + 8 <= b@.len(),
    ensures
        r@ == b@.subrange(at as int, at + 8),
{
    let mut r = [0u8; 8];
    let mut i: usize = 0;
    while i < 8
        invariant
            i <= 8,
            at + 8 <= b@.len(),
            b@.len() == b.len(),
            forall|j: int| 0 <= j < i ==> r@[j] == b@[at + j],
        decreases 8 - i,
    {
        r[i] = b[at + i];
        i = i + 1;
    }
    assert(r@ =~= b@.subrange(at as int, at + 8));
    r
}

/// The 19 bytes of `b` from `at`.
pub fn array19(b: &[u8], at: usize) -> (r: [u8; 19])
    requires
        at + 19 <= b@.len(),
    ensures
        r@ == b@.subrange(at as int, at + 19),
{
    let mut r = [0u8; 19];
    let mut i: usize = 0;
    while i < 19
        invariant
            i <= 19,
            at + 19 <= b@.len(),
            b@.len() == b.len(),
            forall|j: int| 0 <= j < i ==> r@[j] == b@[at + j],
        decreases 19 - i,
    {
        r[i] = b[at + i];
        i = i + 1;
    }
    assert(r@ =~= b@.subrange(at as int, at + 19));
    r
}

/// The 20 bytes of `b` from `at`.
pub fn array20(b: &[u8], at: usize) -> (r: [u8; 20])
    requires
        at + 20 <= b@.len(),
    ensures
        r@ == b@.subrange(at as int, at + 20),
{
    let mut r = [0u8; 20];
    let mut i: usize = 0;
    while i < 20
        invariant
            i <= 20,
            at + 20 <= b@.len(),
            b@.len() == b.len(),
            forall|j: int| 0 <= j < i ==> r@[j] == b@[at + j],
        decreases 20 - i,
    {
        r[i] = b[at + i];
        i = i + 1;
    }
    assert(r@ =~= b@.subrange(at as int, at + 20));
    r
}

} // verus!
