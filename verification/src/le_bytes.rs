//! Little-endian encoding of fixed-width integers.

use vstd::prelude::*;

verus! {

/// The 4 little-endian bytes of `x`.
pub open spec fn le_u32(x: u32) -> Seq<u8> {
    seq![x as u8, (x >> 8u32) as u8, (x >> 16u32) as u8, (x >> 24u32) as u8]
}

/// The 8 little-endian bytes of `x`.
pub open spec fn le_u64(x: u64) -> Seq<u8> {
    seq![
        x as u8,
        (x >> 8u64) as u8,
        (x >> 16u64) as u8,
        (x >> 24u64) as u8,
        (x >> 32u64) as u8,
        (x >> 40u64) as u8,
        (x >> 48u64) as u8,
        (x >> 56u64) as u8,
    ]
}

/// The `u32` whose little-endian bytes are `b0..b3`.
pub open spec fn u32_from_le(b0: u8, b1: u8, b2: u8, b3: u8) -> u32 {
    (b0 as u32) | ((b1 as u32) << 8u32) | ((b2 as u32) << 16u32) | ((b3 as u32) << 24u32)
}

/// The `u64` whose little-endian bytes are `b0..b7`.
pub open spec fn u64_from_le(b0: u8, b1: u8, b2: u8, b3: u8, b4: u8, b5: u8, b6: u8, b7: u8) -> u64 {
    (b0 as u64) | ((b1 as u64) << 8u64) | ((b2 as u64) << 16u64) | ((b3 as u64) << 24u64) | ((
    b4 as u64) << 32u64) | ((b5 as u64) << 40u64) | ((b6 as u64) << 48u64) | ((b7 as u64)
        << 56u64)
}

/// The `u32` stored little-endian at `b[p..p + 4]`.
pub open spec fn read_le_u32(b: Seq<u8>, p: int) -> u32 {
    u32_from_le(b[p], b[p + 1], b[p + 2], b[p + 3])
}

/// The `u64` stored little-endian at `b[p..p + 8]`.
pub open spec fn read_le_u64(b: Seq<u8>, p: int) -> u64 {
    u64_from_le(b[p], b[p + 1], b[p + 2], b[p + 3], b[p + 4], b[p + 5], b[p + 6], b[p + 7])
}

/// Reading back the little-endian bytes of a `u32` gives the `u32`.
pub proof fn lemma_le_u32_roundtrip(x: u32)
    ensures
        u32_from_le(x as u8, (x >> 8u32) as u8, (x >> 16u32) as u8, (x >> 24u32) as u8) == x,
{
    assert((x as u8) as u32 | (((x >> 8u32) as u8) as u32) << 8u32 | (((x >> 16u32) as u8) as u32)
        << 16u32 | (((x >> 24u32) as u8) as u32) << 24u32 == x) by (bit_vector);
}

/// Reading back the little-endian bytes of a `u64` gives the `u64`.
pub proof fn lemma_le_u64_roundtrip(x: u64)
    ensures
        u64_from_le(
            x as u8,
            (x >> 8u64) as u8,
            (x >> 16u64) as u8,
            (x >> 24u64) as u8,
            (x >> 32u64) as u8,
            (x >> 40u64) as u8,
            (x >> 48u64) as u8,
            (x >> 56u64) as u8,
        ) == x,
{
    assert((x as u8) as u64 | (((x >> 8u64) as u8) as u64) << 8u64 | (((x >> 16u64) as u8) as u64)
        << 16u64 | (((x >> 24u64) as u8) as u64) << 24u64 | (((x >> 32u64) as u8) as u64)
        << 32u64 | (((x >> 40u64) as u8) as u64) << 40u64 | (((x >> 48u64) as u8) as u64)
        << 48u64 | (((x >> 56u64) as u8) as u64) << 56u64 == x) by (bit_vector);
}

/// Where `b[p..p + 4]` are the little-endian bytes of `x`, reading there gives `x`.
pub proof fn lemma_read_le_u32(b: Seq<u8>, p: int, x: u32)
    requires
        0 <= p,
        p + 4 <= b.len(),
        b.subrange(p, p + 4) == le_u32(x),
    ensures
        read_le_u32(b, p) == x,
{
    assert(b[p] == b.subrange(p, p + 4)[0]);
    assert(b[p + 1] == b.subrange(p, p + 4)[1]);
    assert(b[p + 2] == b.subrange(p, p + 4)[2]);
    assert(b[p + 3] == b.subrange(p, p + 4)[3]);
    lemma_le_u32_roundtrip(x);
}

/// Where `b[p..p + 8]` are the little-endian bytes of `x`, reading there gives `x`.
pub proof fn lemma_read_le_u64(b: Seq<u8>, p: int, x: u64)
    requires
        0 <= p,
        p + 8 <= b.len(),
        b.subrange(p, p + 8) == le_u64(x),
    ensures
        read_le_u64(b, p) == x,
{
    let s = b.subrange(p, p + 8);
    assert(b[p] == s[0]);
    assert(b[p + 1] == s[1]);
    assert(b[p + 2] == s[2]);
    assert(b[p + 3] == s[3]);
    assert(b[p + 4] == s[4]);
    assert(b[p + 5] == s[5]);
    assert(b[p + 6] == s[6]);
    assert(b[p + 7] == s[7]);
    lemma_le_u64_roundtrip(x);
}

/// The bytes read at `p` re-encode to `b[p..p + 4]`.
pub proof fn lemma_le_u32_of_read(b: Seq<u8>, p: int)
    requires
        0 <= p,
        p + 4 <= b.len(),
    ensures
        le_u32(read_le_u32(b, p)) == b.subrange(p, p + 4),
{
    let (b0, b1, b2, b3) = (b[p], b[p + 1], b[p + 2], b[p + 3]);
    let x = u32_from_le(b0, b1, b2, b3);
    assert(x as u8 == b0 && (x >> 8u32) as u8 == b1 && (x >> 16u32) as u8 == b2 && (x >> 24u32) as u8
        == b3) by (bit_vector)
        requires
            x == (b0 as u32) | ((b1 as u32) << 8u32) | ((b2 as u32) << 16u32) | ((b3 as u32)
                << 24u32),
    ;
    assert(le_u32(x) =~= b.subrange(p, p + 4));
}

/// The bytes read at `p` re-encode to `b[p..p + 8]`.
pub proof fn lemma_le_u64_of_read(b: Seq<u8>, p: int)
    requires
        0 <= p,
        p + 8 <= b.len(),
    ensures
        le_u64(read_le_u64(b, p)) == b.subrange(p, p + 8),
{
    let (b0, b1, b2, b3, b4, b5, b6, b7) = (
        b[p],
        b[p + 1],
        b[p + 2],
        b[p + 3],
        b[p + 4],
        b[p + 5],
        b[p + 6],
        b[p + 7],
    );
    let x = u64_from_le(b0, b1, b2, b3, b4, b5, b6, b7);
    assert(x as u8 == b0 && (x >> 8u64) as u8 == b1 && (x >> 16u64) as u8 == b2 && (x >> 24u64) as u8
        == b3 && (x >> 32u64) as u8 == b4 && (x >> 40u64) as u8 == b5 && (x >> 48u64) as u8 == b6
        && (x >> 56u64) as u8 == b7) by (bit_vector)
        requires
            x == (b0 as u64) | ((b1 as u64) << 8u64) | ((b2 as u64) << 16u64) | ((b3 as u64)
                << 24u64) | ((b4 as u64) << 32u64) | ((b5 as u64) << 40u64) | ((b6 as u64)
                << 48u64) | ((b7 as u64) << 56u64),
    ;
    assert(le_u64(x) =~= b.subrange(p, p + 8));
}

/// Append the little-endian bytes of `x` to `out`.
pub fn push_le_u32(out: &mut Vec<u8>, x: u32)
    ensures
        final(out)@ == old(out)@ + le_u32(x),
{
    out.push(x as u8);
    out.push((x >> 8u32) as u8);
    out.push((x >> 16u32) as u8);
    out.push((x >> 24u32) as u8);
    assert(final(out)@ =~= old(out)@ + le_u32(x));
}

/// Append the little-endian bytes of `x` to `out`.
pub fn push_le_u64(out: &mut Vec<u8>, x: u64)
    ensures
        final(out)@ == old(out)@ + le_u64(x),
{
    out.push(x as u8);
    out.push((x >> 8u64) as u8);
    out.push((x >> 16u64) as u8);
    out.push((x >> 24u64) as u8);
    out.push((x >> 32u64) as u8);
    out.push((x >> 40u64) as u8);
    out.push((x >> 48u64) as u8);
    out.push((x >> 56u64) as u8);
    assert(final(out)@ =~= old(out)@ + le_u64(x));
}

/// The `u32` stored little-endian at `b[p..p + 4]`.
pub fn get_le_u32(b: &[u8], p: usize) -> (r: u32)
    requires
        p + 4 <= b@.len(),
    ensures
        r == read_le_u32(b@, p as int),
{
    (b[p] as u32) | ((b[p + 1] as u32) << 8u32) | ((b[p + 2] as u32) << 16u32) | ((b[p + 3] as u32)
        << 24u32)
}

/// The `u64` stored little-endian at `b[p..p + 8]`.
pub fn get_le_u64(b: &[u8], p: usize) -> (r: u64)
    requires
        p + 8 <= b@.len(),
    ensures
        r == read_le_u64(b@, p as int),
{
    (b[p] as u64) | ((b[p + 1] as u64) << 8u64) | ((b[p + 2] as u64) << 16u64) | ((b[p + 3] as u64)
        << 24u64) | ((b[p + 4] as u64) << 32u64) | ((b[p + 5] as u64) << 40u64) | ((b[p + 6] as u64)
        << 48u64) | ((b[p + 7] as u64) << 56u64)
}

} // verus!
