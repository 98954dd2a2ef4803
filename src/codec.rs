use vstd::prelude::*;

verus! {

/// Two bytes, least significant first.
pub open spec fn u16_le(x: u16) -> Seq<u8> {
    seq![(x & 0xff) as u8, (x >> 8) as u8]
}

pub open spec fn le_u16(b0: u8, b1: u8) -> u16 {
    (b0 as u16) | ((b1 as u16) << 8)
}

/// The little-endian `u16` stored at `p`.
pub open spec fn u16_at(s: Seq<u8>, p: int) -> u16 {
    le_u16(s[p], s[p + 1])
}

/// Eight bytes, least significant first.
pub open spec fn u64_le(x: u64) -> Seq<u8> {
    seq![
        (x & 0xff) as u8,
        ((x >> 8) & 0xff) as u8,
        ((x >> 16) & 0xff) as u8,
        ((x >> 24) & 0xff) as u8,
        ((x >> 32) & 0xff) as u8,
        ((x >> 40) & 0xff) as u8,
        ((x >> 48) & 0xff) as u8,
        ((x >> 56) & 0xff) as u8,
    ]
}

pub open spec fn le_u64(b0: u8, b1: u8, b2: u8, b3: u8, b4: u8, b5: u8, b6: u8, b7: u8) -> u64 {
    (b0 as u64) | ((b1 as u64) << 8) | ((b2 as u64) << 16) | ((b3 as u64) << 24) | ((b4 as u64)
        << 32) | ((b5 as u64) << 40) | ((b6 as u64) << 48) | ((b7 as u64) << 56)
}

/// The little-endian `u64` stored at `p`.
pub open spec fn u64_at(s: Seq<u8>, p: int) -> u64 {
    le_u64(s[p], s[p + 1], s[p + 2], s[p + 3], s[p + 4], s[p + 5], s[p + 6], s[p + 7])
}

/// Four bytes, most significant first.
pub open spec fn u32_be(x: u32) -> Seq<u8> {
    seq![(x >> 24) as u8, ((x >> 16) & 0xff) as u8, ((x >> 8) & 0xff) as u8, (x & 0xff) as u8]
}

pub open spec fn be_u32(b0: u8, b1: u8, b2: u8, b3: u8) -> u32 {
    ((b0 as u32) << 24) | ((b1 as u32) << 16) | ((b2 as u32) << 8) | (b3 as u32)
}

/// The big-endian `u32` stored at `p`.
pub open spec fn u32_be_at(s: Seq<u8>, p: int) -> u32 {
    be_u32(s[p], s[p + 1], s[p + 2], s[p + 3])
}

/// Two bytes, most significant first.
pub open spec fn u16_be(x: u16) -> Seq<u8> {
    seq![(x >> 8) as u8, (x & 0xff) as u8]
}

/// The big-endian `u16` stored at `p`.
pub open spec fn u16_be_at(s: Seq<u8>, p: int) -> u16 {
    ((s[p] as u16) << 8) | (s[p + 1] as u16)
}

pub proof fn lemma_u16_le(x: u16)
    ensures
        le_u16(u16_le(x)[0], u16_le(x)[1]) == x,
{
    assert(((x & 0xff) as u8 as u16) | (((x >> 8) as u8 as u16) << 8) == x) by (bit_vector);
}

pub proof fn lemma_u16_be(x: u16)
    ensures
        ((u16_be(x)[0] as u16) << 8) | (u16_be(x)[1] as u16) == x,
{
    assert((((x >> 8) as u8 as u16) << 8) | ((x & 0xff) as u8 as u16) == x) by (bit_vector);
}

pub proof fn lemma_u64_le(x: u64)
    ensures
        le_u64(
            u64_le(x)[0],
            u64_le(x)[1],
            u64_le(x)[2],
            u64_le(x)[3],
            u64_le(x)[4],
            u64_le(x)[5],
            u64_le(x)[6],
            u64_le(x)[7],
        ) == x,
{
    assert(((x & 0xff) as u8 as u64) | ((((x >> 8) & 0xff) as u8 as u64) << 8) | ((((x >> 16)
        & 0xff) as u8 as u64) << 16) | ((((x >> 24) & 0xff) as u8 as u64) << 24) | ((((x >> 32)
        & 0xff) as u8 as u64) << 32) | ((((x >> 40) & 0xff) as u8 as u64) << 40) | ((((x >> 48)
        & 0xff) as u8 as u64) << 48) | ((((x >> 56) & 0xff) as u8 as u64) << 56) == x)
        by (bit_vector);
}

pub proof fn lemma_u32_be(x: u32)
    ensures
        be_u32(u32_be(x)[0], u32_be(x)[1], u32_be(x)[2], u32_be(x)[3]) == x,
{
    assert((((x >> 24) as u8 as u32) << 24) | ((((x >> 16) & 0xff) as u8 as u32) << 16) | ((((x
        >> 8) & 0xff) as u8 as u32) << 8) | ((x & 0xff) as u8 as u32) == x) by (bit_vector);
}

pub proof fn lemma_be_u32_bytes(b0: u8, b1: u8, b2: u8, b3: u8)
    ensures
        u32_be(be_u32(b0, b1, b2, b3)) == seq![b0, b1, b2, b3],
{
    let x = be_u32(b0, b1, b2, b3);
    assert(((((b0 as u32) << 24) | ((b1 as u32) << 16) | ((b2 as u32) << 8) | (b3 as u32)) >> 24) as u8 == b0) by (bit_vector);
    assert(((((((b0 as u32) << 24) | ((b1 as u32) << 16) | ((b2 as u32) << 8) | (b3 as u32)) >> 16) & 0xff) as u8) == b1) by (bit_vector);
    assert(((((((b0 as u32) << 24) | ((b1 as u32) << 16) | ((b2 as u32) << 8) | (b3 as u32)) >> 8) & 0xff) as u8) == b2) by (bit_vector);
    assert((((((b0 as u32) << 24) | ((b1 as u32) << 16) | ((b2 as u32) << 8) | (b3 as u32)) & 0xff) as u8) == b3) by (bit_vector);
    assert(u32_be(x) =~= seq![b0, b1, b2, b3]);
}

pub proof fn lemma_be_u16_bytes(b0: u8, b1: u8)
    ensures
        u16_be(((b0 as u16) << 8) | (b1 as u16)) == seq![b0, b1],
{
    let x = ((b0 as u16) << 8) | (b1 as u16);
    assert((((((b0 as u16) << 8) | (b1 as u16)) >> 8) as u8) == b0) by (bit_vector);
    assert((((((b0 as u16) << 8) | (b1 as u16)) & 0xff) as u8) == b1) by (bit_vector);
    assert(u16_be(x) =~= seq![b0, b1]);
}

/// Appends `x` as two little-endian bytes.
pub fn put_u16_le(v: &mut Vec<u8>, x: u16)
    ensures
        final(v)@ == old(v)@ + u16_le(x),
{
    v.push((x & 0xff) as u8);
    v.push((x >> 8) as u8);
    assert(final(v)@ =~= old(v)@ + u16_le(x));
}

/// Appends `x` as eight little-endian bytes.
pub fn put_u64_le(v: &mut Vec<u8>, x: u64)
    ensures
        final(v)@ == old(v)@ + u64_le(x),
{
    v.push((x & 0xff) as u8);
    v.push(((x >> 8) & 0xff) as u8);
    v.push(((x >> 16) & 0xff) as u8);
    v.push(((x >> 24) & 0xff) as u8);
    v.push(((x >> 32) & 0xff) as u8);
    v.push(((x >> 40) & 0xff) as u8);
    v.push(((x >> 48) & 0xff) as u8);
    v.push(((x >> 56) & 0xff) as u8);
    assert(final(v)@ =~= old(v)@ + u64_le(x));
}

/// Appends `x` as four big-endian bytes.
pub fn put_u32_be(v: &mut Vec<u8>, x: u32)
    ensures
        final(v)@ == old(v)@ + u32_be(x),
{
    v.push((x >> 24) as u8);
    v.push(((x >> 16) & 0xff) as u8);
    v.push(((x >> 8) & 0xff) as u8);
    v.push((x & 0xff) as u8);
    assert(final(v)@ =~= old(v)@ + u32_be(x));
}

/// Appends `x` as two big-endian bytes.
pub fn put_u16_be(v: &mut Vec<u8>, x: u16)
    ensures
        final(v)@ == old(v)@ + u16_be(x),
{
    v.push((x >> 8) as u8);
    v.push((x & 0xff) as u8);
    assert(final(v)@ =~= old(v)@ + u16_be(x));
}

/// Reads the little-endian `u16` at `p`.
pub fn get_u16_le(s: &[u8], p: usize) -> (r: u16)
    requires
        p + 2 <= s@.len(),
    ensures
        r == u16_at(s@, p as int),
{
    (s[p] as u16) | ((s[p + 1] as u16) << 8)
}

/// Reads the little-endian `u64` at `p`.
pub fn get_u64_le(s: &[u8], p: usize) -> (r: u64)
    requires
        p + 8 <= s@.len(),
    ensures
        r == u64_at(s@, p as int),
{
    (s[p] as u64) | ((s[p + 1] as u64) << 8) | ((s[p + 2] as u64) << 16) | ((s[p + 3] as u64)
        << 24) | ((s[p + 4] as u64) << 32) | ((s[p + 5] as u64) << 40) | ((s[p + 6] as u64) << 48)
        | ((s[p + 7] as u64) << 56)
}

/// Reads the big-endian `u32` at `p`.
pub fn get_u32_be(s: &[u8], p: usize) -> (r: u32)
    requires
        p + 4 <= s@.len(),
    ensures
        r == u32_be_at(s@, p as int),
{
    ((s[p] as u32) << 24) | ((s[p + 1] as u32) << 16) | ((s[p + 2] as u32) << 8) | (s[p + 3] as u32)
}

/// Reads the big-endian `u16` at `p`.
pub fn get_u16_be(s: &[u8], p: usize) -> (r: u16)
    requires
        p + 2 <= s@.len(),
    ensures
        r == u16_be_at(s@, p as int),
{
    ((s[p] as u16) << 8) | (s[p + 1] as u16)
}

} // verus!
