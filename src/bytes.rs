//! Big-endian integer encoding on byte buffers, through `byteorder`.

use byteorder::{BigEndian, ByteOrder, WriteBytesExt};
use vstd::prelude::*;

verus! {

/// The two big-endian bytes of `n`.
pub open spec fn be16(n: u16) -> Seq<u8> {
    seq![(n >> 8u16) as u8, n as u8]
}

/// The four big-endian bytes of `n`.
pub open spec fn be32(n: u32) -> Seq<u8> {
    seq![(n >> 24u32) as u8, (n >> 16u32) as u8, (n >> 8u32) as u8, n as u8]
}

/// The `u16` whose big-endian bytes are `b0, b1`.
pub open spec fn from_be16(b0: u8, b1: u8) -> u16 {
    ((b0 as u16) << 8u16) | (b1 as u16)
}

/// The `u32` whose big-endian bytes are `b0, b1, b2, b3`.
pub open spec fn from_be32(b0: u8, b1: u8, b2: u8, b3: u8) -> u32 {
    ((b0 as u32) << 24u32) | ((b1 as u32) << 16u32) | ((b2 as u32) << 8u32) | (b3 as u32)
}

/// Decoding the big-endian bytes of a `u16` gives it back.
pub proof fn lemma_be16_round_trip(n: u16)
    ensures
        from_be16(be16(n)[0], be16(n)[1]) == n,
{
    let b0 = (n >> 8u16) as u8;
    let b1 = n as u8;
    assert(((((n >> 8u16) as u8) as u16) << 8u16) | ((n as u8) as u16) == n) by (bit_vector);
    assert(be16(n)[0] == b0 && be16(n)[1] == b1);
}

/// Decoding the big-endian bytes of a `u32` gives it back.
pub proof fn lemma_be32_round_trip(n: u32)
    ensures
        from_be32(be32(n)[0], be32(n)[1], be32(n)[2], be32(n)[3]) == n,
{
    assert(((((n >> 24u32) as u8) as u32) << 24u32) | ((((n >> 16u32) as u8) as u32) << 16u32)
        | ((((n >> 8u32) as u8) as u32) << 8u32) | ((n as u8) as u32) == n) by (bit_vector);
}

/// Relies on byteorder's `WriteBytesExt::write_u16::<BigEndian>`: appends
/// the two big-endian bytes of `n`; writing into a `Vec` cannot fail.
#[verifier::external_body]
pub(crate) fn push_u16_be(buf: &mut Vec<u8>, n: u16)
    ensures
        final(buf)@ == old(buf)@ + be16(n),
{
    let _ = buf.write_u16::<BigEndian>(n);
}

/// Relies on byteorder's `WriteBytesExt::write_u32::<BigEndian>`: appends
/// the four big-endian bytes of `n`; writing into a `Vec` cannot fail.
#[verifier::external_body]
pub(crate) fn push_u32_be(buf: &mut Vec<u8>, n: u32)
    ensures
        final(buf)@ == old(buf)@ + be32(n),
{
    let _ = buf.write_u32::<BigEndian>(n);
}

/// Relies on byteorder's `BigEndian::read_u16`: the `u16` whose big-endian
/// bytes start at `at`; it panics on fewer than two bytes, hence `requires`.
#[verifier::external_body]
pub(crate) fn read_u16_be(buf: &[u8], at: usize) -> (r: u16)
    requires
        at + 2 <= buf@.len(),
    ensures
        r == from_be16(buf@[at as int], buf@[at + 1]),
{
    BigEndian::read_u16(&buf[at..])
}

/// Relies on byteorder's `BigEndian::read_u32`: the `u32` whose big-endian
/// bytes start at `at`; it panics on fewer than four bytes, hence `requires`.
#[verifier::external_body]
pub(crate) fn read_u32_be(buf: &[u8], at: usize) -> (r: u32)
    requires
        at + 4 <= buf@.len(),
    ensures
        r == from_be32(buf@[at as int], buf@[at + 1], buf@[at + 2], buf@[at + 3]),
{
    BigEndian::read_u32(&buf[at..])
}

/// The bytes of `buf` from `start` on, in a fresh vector.
pub fn tail_from(buf: &[u8], start: usize) -> (r: Vec<u8>)
    requires
        start <= buf@.len(),
    ensures
        r@ == buf@.subrange(start as int, buf@.len() as int),
{
    let mut r: Vec<u8> = Vec::new();
    let mut i: usize = start;
    while i < buf.len()
        invariant
            start <= i <= buf@.len(),
            r@ == buf@.subrange(start as int, i as int),
        decreases buf@.len() - i,
    {
        r.push(buf[i]);
        i = i + 1;
    }
    r
}

/// Appends the bytes of `src` to `dst`.
pub fn append_bytes(dst: &mut Vec<u8>, src: &[u8])
    ensures
        final(dst)@ == old(dst)@ + src@,
{
    let mut i: usize = 0;
    while i < src.len()
        invariant
            i <= src@.len(),
            dst@ == old(dst)@ + src@.subrange(0, i as int),
        decreases src@.len() - i,
    {
        dst.push(src[i]);
        i = i + 1;
    }
    assert(src@.subrange(0, src@.len() as int) =~= src@);
}

} // verus!
