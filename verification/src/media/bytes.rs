//! Fixed-width integers as big- and little-endian bytes, and byte-string building.

use vstd::prelude::*;

verus! {

pub open spec fn be24(x: nat) -> Seq<u8> {
    seq![(x / 0x1_0000 % 0x100) as u8, (x / 0x100 % 0x100) as u8, (x % 0x100) as u8]
}

pub open spec fn be32(x: nat) -> Seq<u8> {
    seq![(x / 0x100_0000 % 0x100) as u8, (x / 0x1_0000 % 0x100) as u8, (x / 0x100 % 0x100) as u8, (x % 0x100) as u8]
}

pub open spec fn be64(x: nat) -> Seq<u8> {
    be32(x / 0x1_0000_0000 % 0x1_0000_0000) + be32(x % 0x1_0000_0000)
}

pub open spec fn le16(x: nat) -> Seq<u8> {
    seq![(x % 0x100) as u8, (x / 0x100 % 0x100) as u8]
}

pub open spec fn le32(x: nat) -> Seq<u8> {
    seq![(x % 0x100) as u8, (x / 0x100 % 0x100) as u8, (x / 0x1_0000 % 0x100) as u8, (x / 0x100_0000 % 0x100) as u8]
}

/// Big-endian value of four bytes.
pub open spec fn be32_value(b: Seq<u8>) -> nat {
    b[0] as nat * 0x100_0000 + b[1] as nat * 0x1_0000 + b[2] as nat * 0x100 + b[3] as nat
}

/// Big-endian value of eight bytes.
pub open spec fn be64_value(b: Seq<u8>) -> nat {
    be32_value(b.subrange(0, 4)) * 0x1_0000_0000 + be32_value(b.subrange(4, 8))
}

/// Reading four big-endian bytes gives back the value they were written from.
pub proof fn lemma_be32_roundtrip(x: u32)
    ensures
        be32(x as nat).len() == 4,
        be32_value(be32(x as nat)) == x,
{
    let a = x / 0x100_0000 % 0x100;
    let b = x / 0x1_0000 % 0x100;
    let c = x / 0x100 % 0x100;
    let d = x % 0x100;
    assert(a * 0x100_0000 + b * 0x1_0000 + c * 0x100 + d == x) by (bit_vector)
        requires
            a == x / 0x100_0000 % 0x100,
            b == x / 0x1_0000 % 0x100,
            c == x / 0x100 % 0x100,
            d == x % 0x100;
}

/// Reading eight big-endian bytes gives back the value they were written from.
pub proof fn lemma_be64_roundtrip(x: u64)
    ensures
        be64(x as nat).len() == 8,
        be64_value(be64(x as nat)) == x,
{
    let hi = x as nat / 0x1_0000_0000 % 0x1_0000_0000;
    let lo = x as nat % 0x1_0000_0000;
    lemma_be32_roundtrip(hi as u32);
    lemma_be32_roundtrip(lo as u32);
    let b = be64(x as nat);
    assert(b.subrange(0, 4) =~= be32(hi));
    assert(b.subrange(4, 8) =~= be32(lo));
    assert(x as nat / 0x1_0000_0000 < 0x1_0000_0000);
    vstd::arithmetic::div_mod::lemma_small_mod(x as nat / 0x1_0000_0000, 0x1_0000_0000);
    vstd::arithmetic::div_mod::lemma_fundamental_div_mod(x as int, 0x1_0000_0000);
}

/// Little-endian value of two bytes.
pub open spec fn le16_value(b: Seq<u8>) -> nat {
    b[0] as nat + b[1] as nat * 0x100
}

/// Little-endian value of four bytes.
pub open spec fn le32_value(b: Seq<u8>) -> nat {
    b[0] as nat + b[1] as nat * 0x100 + b[2] as nat * 0x1_0000 + b[3] as nat * 0x100_0000
}

/// Reading four little-endian bytes gives back the value they were written from.
pub proof fn lemma_le32_roundtrip(x: u32)
    ensures
        le32(x as nat).len() == 4,
        le32_value(le32(x as nat)) == x,
{
    let a = x / 0x100_0000 % 0x100;
    let b = x / 0x1_0000 % 0x100;
    let c = x / 0x100 % 0x100;
    let d = x % 0x100;
    assert(a * 0x100_0000 + b * 0x1_0000 + c * 0x100 + d == x) by (bit_vector)
        requires
            a == x / 0x100_0000 % 0x100,
            b == x / 0x1_0000 % 0x100,
            c == x / 0x100 % 0x100,
            d == x % 0x100;
}

/// Reading two little-endian bytes gives back the value they were written from.
pub proof fn lemma_le16_roundtrip(x: u16)
    ensures
        le16(x as nat).len() == 2,
        le16_value(le16(x as nat)) == x,
{
    let c = x / 0x100 % 0x100;
    let d = x % 0x100;
    assert(c * 0x100 + d == x) by (bit_vector)
        requires
            c == x / 0x100 % 0x100,
            d == x % 0x100;
}

pub fn push_be24(v: &mut Vec<u8>, x: u32)
    ensures
        final(v)@ == old(v)@ + be24(x as nat),
{
    let b0 = ((x >> 16u32) & 0xFF) as u8;
    let b1 = ((x >> 8u32) & 0xFF) as u8;
    let b2 = (x & 0xFF) as u8;
    assert(b0 == x / 0x1_0000 % 0x100 && b1 == x / 0x100 % 0x100 && b2 == x % 0x100) by (bit_vector)
        requires b0 == ((x >> 16u32) & 0xFF) as u8, b1 == ((x >> 8u32) & 0xFF) as u8, b2 == (x & 0xFF) as u8;
    v.push(b0);
    v.push(b1);
    v.push(b2);
    assert(v@ =~= old(v)@ + be24(x as nat));
}

pub fn push_be32(v: &mut Vec<u8>, x: u32)
    ensures
        final(v)@ == old(v)@ + be32(x as nat),
{
    let b0 = (x >> 24u32) as u8;
    let b1 = ((x >> 16u32) & 0xFF) as u8;
    let b2 = ((x >> 8u32) & 0xFF) as u8;
    let b3 = (x & 0xFF) as u8;
    assert(b0 == x / 0x100_0000 % 0x100 && b1 == x / 0x1_0000 % 0x100 && b2 == x / 0x100 % 0x100
        && b3 == x % 0x100) by (bit_vector)
        requires
            b0 == (x >> 24u32) as u8,
            b1 == ((x >> 16u32) & 0xFF) as u8,
            b2 == ((x >> 8u32) & 0xFF) as u8,
            b3 == (x & 0xFF) as u8;
    v.push(b0);
    v.push(b1);
    v.push(b2);
    v.push(b3);
    assert(v@ =~= old(v)@ + be32(x as nat));
}

pub fn push_be64(v: &mut Vec<u8>, x: u64)
    ensures
        final(v)@ == old(v)@ + be64(x as nat),
{
    let hi = (x >> 32u64) as u32;
    let lo = (x & 0xFFFF_FFFF) as u32;
    assert(hi == x / 0x1_0000_0000 % 0x1_0000_0000 && lo == x % 0x1_0000_0000) by (bit_vector)
        requires hi == (x >> 32u64) as u32, lo == (x & 0xFFFF_FFFF) as u32;
    push_be32(v, hi);
    push_be32(v, lo);
    assert(v@ =~= old(v)@ + be64(x as nat));
}

pub fn push_le16(v: &mut Vec<u8>, x: u16)
    ensures
        final(v)@ == old(v)@ + le16(x as nat),
{
    let hi = (x >> 8u16) as u8;
    let lo = (x & 0xFF) as u8;
    assert(hi == x / 0x100 % 0x100 && lo == x % 0x100) by (bit_vector)
        requires hi == (x >> 8u16) as u8, lo == (x & 0xFF) as u8;
    v.push(lo);
    v.push(hi);
    assert(v@ =~= old(v)@ + le16(x as nat));
}

pub fn push_le32(v: &mut Vec<u8>, x: u32)
    ensures
        final(v)@ == old(v)@ + le32(x as nat),
{
    let b0 = (x >> 24u32) as u8;
    let b1 = ((x >> 16u32) & 0xFF) as u8;
    let b2 = ((x >> 8u32) & 0xFF) as u8;
    let b3 = (x & 0xFF) as u8;
    assert(b0 == x / 0x100_0000 % 0x100 && b1 == x / 0x1_0000 % 0x100 && b2 == x / 0x100 % 0x100
        && b3 == x % 0x100) by (bit_vector)
        requires
            b0 == (x >> 24u32) as u8,
            b1 == ((x >> 16u32) & 0xFF) as u8,
            b2 == ((x >> 8u32) & 0xFF) as u8,
            b3 == (x & 0xFF) as u8;
    v.push(b3);
    v.push(b2);
    v.push(b1);
    v.push(b0);
    assert(v@ =~= old(v)@ + le32(x as nat));
}

/// Appends every byte of `s`.
pub fn extend(v: &mut Vec<u8>, s: &[u8])
    ensures
        final(v)@ == old(v)@ + s@,
{
    let mut i: usize = 0;
    while i < s.len()
        invariant
            i <= s.len(),
            v@ == old(v)@ + s@.subrange(0, i as int),
        decreases s.len() - i,
    {
        v.push(s[i]);
        assert(v@ =~= old(v)@ + s@.subrange(0, i + 1));
        i = i + 1;
    }
    assert(s@.subrange(0, i as int) =~= s@);
}

/// Copies a byte slice.
pub fn to_vec(s: &[u8]) -> (v: Vec<u8>)
    ensures
        v@ == s@,
{
    let mut v = Vec::new();
    extend(&mut v, s);
    assert(Seq::<u8>::empty() + s@ =~= s@);
    v
}

/// `n` zero bytes.
pub open spec fn zero_bytes(n: nat) -> Seq<u8> {
    Seq::new(n, |i: int| 0u8)
}

pub fn push_zeros(v: &mut Vec<u8>, n: usize)
    ensures
        final(v)@ == old(v)@ + zero_bytes(n as nat),
{
    let mut i: usize = 0;
    while i < n
        invariant
            i <= n,
            v@ == old(v)@ + zero_bytes(i as nat),
        decreases n - i,
    {
        v.push(0);
        assert(v@ =~= old(v)@ + zero_bytes((i + 1) as nat));
        i = i + 1;
    }
}

} // verus!
