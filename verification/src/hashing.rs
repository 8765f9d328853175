//! The page hash used throughout the library is supplied by the caller as a
//! function from bytes to `u64` (the swarm's own hash of a byte string).
//! These definitions say what it means for a value to be such a hash.

use vstd::prelude::*;

verus! {

/// The page hasher can be called on any byte string.
pub open spec fn hasher_total<H: Fn(&[u8]) -> u64>(sha: H) -> bool {
    forall|s: &[u8]| #[trigger] call_requires(sha, (s,))
}

/// `h` is a value that the hasher returned on a byte string equal to `bytes`.
pub open spec fn hashes_to<H: Fn(&[u8]) -> u64>(sha: H, bytes: Seq<u8>, h: u64) -> bool {
    exists|s: &[u8]| s@ == bytes && #[trigger] call_ensures(sha, (s,), h)
}

/// Big-endian bytes of a `u64`.
pub open spec fn be_u64(x: u64) -> Seq<u8> {
    seq![
        (x >> 56) as u8,
        (x >> 48) as u8,
        (x >> 40) as u8,
        (x >> 32) as u8,
        (x >> 24) as u8,
        (x >> 16) as u8,
        (x >> 8) as u8,
        x as u8,
    ]
}

/// Big-endian bytes of a `u16`.
pub open spec fn be_u16(x: u16) -> Seq<u8> {
    seq![(x >> 8) as u8, x as u8]
}

/// Big-endian bytes of a `u32`.
pub open spec fn be_u32(x: u32) -> Seq<u8> {
    seq![(x >> 24) as u8, (x >> 16) as u8, (x >> 8) as u8, x as u8]
}

/// The `u32` whose big-endian bytes are `s[0..4]`.
pub open spec fn u32_of(s: Seq<u8>) -> u32
    recommends
        s.len() >= 4,
{
    (s[0] as int * 0x1000000 + s[1] as int * 0x10000 + s[2] as int * 0x100 + s[3] as int) as u32
}

/// The `u16` whose big-endian bytes are `b0`, `b1`.
pub open spec fn u16_of(b0: u8, b1: u8) -> u16 {
    (b0 as u16 * 256 + b1 as u16) as u16
}

/// The `u64` whose big-endian bytes are `s[0..8]`.
pub open spec fn u64_of(s: Seq<u8>) -> u64
    recommends
        s.len() >= 8,
{
    (s[0] as int * 0x100000000000000 + s[1] as int * 0x1000000000000 + s[2] as int
        * 0x10000000000 + s[3] as int * 0x100000000 + s[4] as int * 0x1000000 + s[5] as int
        * 0x10000 + s[6] as int * 0x100 + s[7] as int) as u64
}

/// The hash of an ordered pair of hashes: the page hasher applied to the
/// sixteen big-endian bytes of the two values.
pub open spec fn is_pair_hash<H: Fn(&[u8]) -> u64>(sha: H, left: u64, right: u64, h: u64) -> bool {
    hashes_to(sha, be_u64(left) + be_u64(right), h)
}

pub fn u16_to_be(x: u16) -> (r: [u8; 2])
    ensures
        r@ == be_u16(x),
{
    let r = [(x >> 8) as u8, x as u8];
    assert(r@ =~= be_u16(x));
    r
}

pub fn u16_from_be(b0: u8, b1: u8) -> (r: u16)
    ensures
        r == u16_of(b0, b1),
        be_u16(r) == seq![b0, b1],
{
    let r = (b0 as u16) * 256 + (b1 as u16);
    assert(((r >> 8) as u8) == b0 && (r as u8) == b1) by (bit_vector)
        requires
            r == (b0 as u16) * 256 + (b1 as u16),
    ;
    assert(be_u16(r) =~= seq![b0, b1]);
    r
}

/// Appends the big-endian bytes of `x` to `v`.
pub fn push_u64_be(v: &mut Vec<u8>, x: u64)
    ensures
        final(v)@ == old(v)@ + be_u64(x),
{
    v.push((x >> 56) as u8);
    v.push((x >> 48) as u8);
    v.push((x >> 40) as u8);
    v.push((x >> 32) as u8);
    v.push((x >> 24) as u8);
    v.push((x >> 16) as u8);
    v.push((x >> 8) as u8);
    v.push(x as u8);
    assert(v@ =~= old(v)@ + be_u64(x));
}

/// Appends the big-endian bytes of `x` to `v`.
pub fn push_u16_be(v: &mut Vec<u8>, x: u16)
    ensures
        final(v)@ == old(v)@ + be_u16(x),
{
    v.push((x >> 8) as u8);
    v.push(x as u8);
    assert(v@ =~= old(v)@ + be_u16(x));
}

/// Appends the big-endian bytes of `x` to `v`.
pub fn push_u32_be(v: &mut Vec<u8>, x: u32)
    ensures
        final(v)@ == old(v)@ + be_u32(x),
{
    v.push((x >> 24) as u8);
    v.push((x >> 16) as u8);
    v.push((x >> 8) as u8);
    v.push(x as u8);
    assert(v@ =~= old(v)@ + be_u32(x));
}

/// Reads the big-endian `u32` at `pos`.
pub fn read_u32_be(v: &Vec<u8>, pos: usize) -> (r: u32)
    requires
        pos + 4 <= v@.len(),
    ensures
        r == u32_of(v@.subrange(pos as int, pos + 4)),
{
    let _n = v.len();
    let b0 = v[pos];
    let b1 = v[pos + 1];
    let b2 = v[pos + 2];
    let b3 = v[pos + 3];
    let r: u32 = (b0 as u32) << 24 | (b1 as u32) << 16 | (b2 as u32) << 8 | (b3 as u32);
    assert(r == (b0 as int * 0x1000000 + b1 as int * 0x10000 + b2 as int * 0x100 + b3 as int)) by (bit_vector)
        requires
            r == (b0 as u32) << 24 | (b1 as u32) << 16 | (b2 as u32) << 8 | (b3 as u32),
    ;
    r
}

/// Reads the big-endian `u64` at `pos`.
pub fn read_u64_be(v: &Vec<u8>, pos: usize) -> (r: u64)
    requires
        pos + 8 <= v@.len(),
    ensures
        r == u64_of(v@.subrange(pos as int, pos + 8)),
        be_u64(r) == v@.subrange(pos as int, pos + 8),
{
    let _n = v.len();
    let b0 = v[pos];
    let b1 = v[pos + 1];
    let b2 = v[pos + 2];
    let b3 = v[pos + 3];
    let b4 = v[pos + 4];
    let b5 = v[pos + 5];
    let b6 = v[pos + 6];
    let b7 = v[pos + 7];
    let r: u64 = (b0 as u64) << 56 | (b1 as u64) << 48 | (b2 as u64) << 40 | (b3 as u64) << 32
        | (b4 as u64) << 24 | (b5 as u64) << 16 | (b6 as u64) << 8 | (b7 as u64);
    assert(
        (r >> 56) as u8 == b0 && (r >> 48) as u8 == b1 && (r >> 40) as u8 == b2 && (r >> 32) as u8
            == b3 && (r >> 24) as u8 == b4 && (r >> 16) as u8 == b5 && (r >> 8) as u8 == b6
            && r as u8 == b7
    ) by (bit_vector)
        requires
            r == (b0 as u64) << 56 | (b1 as u64) << 48 | (b2 as u64) << 40 | (b3 as u64) << 32 | (
            b4 as u64) << 24 | (b5 as u64) << 16 | (b6 as u64) << 8 | (b7 as u64),
    ;
    assert(r == (b0 as int * 0x100000000000000 + b1 as int * 0x1000000000000 + b2 as int
        * 0x10000000000 + b3 as int * 0x100000000 + b4 as int * 0x1000000 + b5 as int * 0x10000
        + b6 as int * 0x100 + b7 as int)) by (bit_vector)
        requires
            r == (b0 as u64) << 56 | (b1 as u64) << 48 | (b2 as u64) << 40 | (b3 as u64) << 32 | (
            b4 as u64) << 24 | (b5 as u64) << 16 | (b6 as u64) << 8 | (b7 as u64),
    ;
    assert(be_u64(r) =~= v@.subrange(pos as int, pos + 8));
    r
}

/// Reading back the big-endian bytes of a `u16` gives the value.
pub proof fn lemma_u16_of_be(x: u16)
    ensures
        u16_of(be_u16(x)[0], be_u16(x)[1]) == x,
{
    assert(((((x >> 8) as u8) as u16 * 256 + (x as u8) as u16) as u16) == x) by (bit_vector);
}

/// Reading back the big-endian bytes of a `u64` gives the value.
pub proof fn lemma_u64_of_be(x: u64)
    ensures
        u64_of(be_u64(x)) == x,
{
    let b = be_u64(x);
    assert(((((x >> 56) as u8) as int * 0x100000000000000 + ((x >> 48) as u8) as int
        * 0x1000000000000 + ((x >> 40) as u8) as int * 0x10000000000 + ((x >> 32) as u8) as int
        * 0x100000000 + ((x >> 24) as u8) as int * 0x1000000 + ((x >> 16) as u8) as int * 0x10000
        + ((x >> 8) as u8) as int * 0x100 + (x as u8) as int) as u64) == x) by (bit_vector);
}

/// Reading back the big-endian bytes of a `u32` gives the value.
pub proof fn lemma_u32_of_be(x: u32)
    ensures
        u32_of(be_u32(x)) == x,
{
    assert(((((x >> 24) as u8) as int * 0x1000000 + ((x >> 16) as u8) as int * 0x10000
        + ((x >> 8) as u8) as int * 0x100 + (x as u8) as int) as u32) == x) by (bit_vector);
}

/// The hash of the pair `(num_one, num_two)`: the page hasher applied to the
/// big-endian bytes of `num_one` followed by those of `num_two`.
pub fn double_hash<H: Fn(&[u8]) -> u64>(num_one: u64, num_two: u64, sha: &H) -> (r: u64)
    requires
        hasher_total(*sha),
    ensures
        is_pair_hash(*sha, num_one, num_two, r),
{
    let mut bytes: Vec<u8> = Vec::with_capacity(16);
    push_u64_be(&mut bytes, num_one);
    push_u64_be(&mut bytes, num_two);
    let s = bytes.as_slice();
    assert(call_requires(*sha, (s,)));
    let r = sha(s);
    assert(s@ == be_u64(num_one) + be_u64(num_two));
    r
}

/// Appends `src[from..to]` to `dst`.
pub(crate) fn append_range(dst: &mut Vec<u8>, src: &Vec<u8>, from: usize, to: usize)
    requires
        from <= to <= src@.len(),
    ensures
        final(dst)@ == old(dst)@ + src@.subrange(from as int, to as int),
{
    let mut i = from;
    while i < to
        invariant
            from <= i <= to <= src@.len(),
            dst@ == old(dst)@ + src@.subrange(from as int, i as int),
        decreases to - i,
    {
        dst.push(src[i]);
        assert(src@.subrange(from as int, i + 1) =~= src@.subrange(from as int, i as int).push(src@[i as int]));
        i += 1;
    }
}

} // verus!
