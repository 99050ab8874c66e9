//! Little-endian integers and byte-sequence helpers used by the codecs.

use vstd::prelude::*;

verus! {

/// The `u16` stored little-endian in the first two bytes of `b`.
pub open spec fn le_u16(b: Seq<u8>) -> u16 {
    (b[0] as int + 256 * (b[1] as int)) as u16
}

/// The `u32` stored little-endian in the first four bytes of `b`.
pub open spec fn le_u32(b: Seq<u8>) -> u32 {
    (b[0] as int + 256 * (b[1] as int) + 65536 * (b[2] as int) + 16777216 * (b[3] as int)) as u32
}

/// The two bytes that store `v` little-endian.
pub open spec fn u16_le(v: u16) -> Seq<u8> {
    seq![(v % 256) as u8, (v / 256) as u8]
}

/// The four bytes that store `v` little-endian.
pub open spec fn u32_le(v: u32) -> Seq<u8> {
    seq![
        (v % 256) as u8,
        ((v / 256) % 256) as u8,
        ((v / 65536) % 256) as u8,
        (v / 16777216) as u8,
    ]
}

/// A run of `n` zero bytes.
pub open spec fn zeros(n: int) -> Seq<u8> {
    Seq::new(n as nat, |i: int| 0u8)
}

/// Decoding undoes encoding, for both widths.
pub proof fn lemma_le_round_trip(v16: u16, v32: u32)
    ensures
        u16_le(v16).len() == 2,
        le_u16(u16_le(v16)) == v16,
        u32_le(v32).len() == 4,
        le_u32(u32_le(v32)) == v32,
{
}

/// Skipping twice is skipping once by the sum.
pub proof fn lemma_skip_skip(s: Seq<u8>, a: int, b: int)
    requires
        0 <= a,
        0 <= b,
        a + b <= s.len(),
    ensures
        s.skip(a).skip(b) == s.skip(a + b),
{
    assert(s.skip(a).skip(b) =~= s.skip(a + b));
}

/// Reads a little-endian `u16` at `at`.
pub fn get_u16(bytes: &[u8], at: usize) -> (v: u16)
    requires
        at + 2 <= bytes@.len(),
    ensures
        v == le_u16(bytes@.skip(at as int)),
{
    let lo: u16 = bytes[at] as u16;
    let hi: u16 = bytes[at + 1] as u16;
    lo + hi * 256
}

/// Reads a little-endian `u32` at `at`.
pub fn get_u32(bytes: &[u8], at: usize) -> (v: u32)
    requires
        at + 4 <= bytes@.len(),
    ensures
        v == le_u32(bytes@.skip(at as int)),
{
    let b0: u32 = bytes[at] as u32;
    let b1: u32 = bytes[at + 1] as u32;
    let b2: u32 = bytes[at + 2] as u32;
    let b3: u32 = bytes[at + 3] as u32;
    b0 + b1 * 256 + b2 * 65536 + b3 * 16777216
}

/// Appends `v` little-endian.
pub fn put_u16(out: &mut Vec<u8>, v: u16)
    ensures
        final(out)@ == old(out)@ + u16_le(v),
{
    out.push((v % 256) as u8);
    out.push((v / 256) as u8);
    assert(out@ =~= old(out)@ + u16_le(v));
}

/// Appends `v` little-endian.
pub fn put_u32(out: &mut Vec<u8>, v: u32)
    ensures
        final(out)@ == old(out)@ + u32_le(v),
{
    out.push((v % 256) as u8);
    out.push(((v / 256) % 256) as u8);
    out.push(((v / 65536) % 256) as u8);
    out.push((v / 16777216) as u8);
    assert(out@ =~= old(out)@ + u32_le(v));
}

/// Appends a copy of `src`.
pub fn put_bytes(out: &mut Vec<u8>, src: &[u8])
    ensures
        final(out)@ == old(out)@ + src@,
{
    let n: usize = src.len();
    let mut i: usize = 0;
    while i < n
        invariant
            i <= n,
            n == src@.len(),
            out@ == old(out)@ + src@.subrange(0, i as int),
        decreases n - i,
    {
        out.push(src[i]);
        i = i + 1;
        assert(out@ =~= old(out)@ + src@.subrange(0, i as int));
    }
    assert(src@.subrange(0, n as int) =~= src@);
}

/// Appends `n` zero bytes.
pub fn put_zeros(out: &mut Vec<u8>, n: usize)
    ensures
        final(out)@ == old(out)@ + zeros(n as int),
{
    let mut i: usize = 0;
    while i < n
        invariant
            i <= n,
            out@ == old(out)@ + zeros(i as int),
        decreases n - i,
    {
        out.push(0u8);
        i = i + 1;
        assert(out@ =~= old(out)@ + zeros(i as int));
    }
}

/// Copies `bytes[start..end]` into a fresh vector.
pub fn copy_range(bytes: &[u8], start: usize, end: usize) -> (v: Vec<u8>)
    requires
        start <= end <= bytes@.len(),
    ensures
        v@ == bytes@.subrange(start as int, end as int),
{
    let mut v: Vec<u8> = Vec::new();
    let mut i: usize = start;
    while i < end
        invariant
            start <= i <= end,
            end <= bytes@.len(),
            v@ == bytes@.subrange(start as int, i as int),
        decreases end - i,
    {
        v.push(bytes[i]);
        i = i + 1;
        assert(v@ =~= bytes@.subrange(start as int, i as int));
    }
    v
}

} // verus!
