//! Bit and byte layout shared by every other module.
//!
//! Bits are numbered LSB-first: bit `i` lives in word `i / 32` under the
//! mask `1 << (i % 32)`, and in byte `i / 8` under `1 << (i % 8)`.

use vstd::prelude::*;

verus! {

/// Size in bytes of the fixed chunk header.
pub const HEADER_BYTES: usize = 32;

/// Index of the 32-bit word that holds bit `bit_idx`.
pub open spec fn word_index(bit_idx: u32) -> u32 {
    (bit_idx / 32) as u32
}

/// Mask that selects bit `bit_idx` inside its word.
pub open spec fn word_mask(bit_idx: u32) -> u32 {
    1u32 << (bit_idx % 32)
}

/// Number of bytes needed to hold `count` bits.
pub open spec fn bytes_for(count: int) -> int {
    (count + 7) / 8
}

/// Number of 32-bit words needed to hold `count` bits.
pub open spec fn words_for(count: int) -> int {
    (count + 31) / 32
}

/// Padding that brings `len` up to the next multiple of four.
pub open spec fn pad4(len: int) -> int {
    (4 - len % 4) % 4
}

/// Whether bit `k` (0..32) of `word` is set.
pub open spec fn word_bit(word: u32, k: u32) -> bool {
    word & (1u32 << k) != 0
}

/// Whether bit `k` (0..8) of `byte` is set.
pub open spec fn byte_bit(byte: u8, k: u32) -> bool {
    (byte >> k) & 1 != 0
}

/// Bit `i` of a word-packed bit vector.
pub open spec fn bit_of_words(words: Seq<u32>, i: int) -> bool {
    word_bit(words[i / 32], (i % 32) as u32)
}

/// Bit `i` of a byte-packed bit vector.
pub open spec fn bit_of_bytes(bytes: Seq<u8>, i: int) -> bool {
    byte_bit(bytes[i / 8], (i % 8) as u32)
}

/// Maps a bit index to its word index and in-word mask.
pub fn bit_to_word(bit_idx: u32) -> (r: (u32, u32))
    ensures
        r.0 == word_index(bit_idx),
        r.1 == word_mask(bit_idx),
        r.0 == bit_idx / 32,
{
    assert(bit_idx >> 5 == bit_idx / 32) by (bit_vector);
    assert(bit_idx & 31 == bit_idx % 32) by (bit_vector);
    let word_idx: u32 = bit_idx >> 5;
    let mask: u32 = 1u32 << (bit_idx & 31);
    (word_idx, mask)
}

/// Sets every bit of `mask` in `word`.
pub fn set_bit(word: &mut u32, mask: u32)
    ensures
        *final(word) == *old(word) | mask,
{
    *word = *word | mask;
}

/// Clears every bit of `mask` in `word`.
pub fn clr_bit(word: &mut u32, mask: u32)
    ensures
        *final(word) == *old(word) & !mask,
{
    *word = *word & !mask;
}

/// Flips every bit of `mask` in `word`.
pub fn xor_bit(word: &mut u32, mask: u32)
    ensures
        *final(word) == *old(word) ^ mask,
{
    *word = *word ^ mask;
}

/// Byte offsets of the input, output and internal bit sections of an
/// encoded chunk, counted from the start of the file.
pub fn section_offsets(ni: u32, no: u32, nn: u32) -> (r: (usize, usize, usize))
    ensures
        r.0 == 32,
        r.1 == 32 + bytes_for(ni as int),
        r.2 == 32 + bytes_for(ni as int) + bytes_for(no as int),
{
    let input_bytes: usize = byte_len(ni);
    let output_bytes: usize = byte_len(no);
    let input: usize = HEADER_BYTES;
    let output: usize = input + input_bytes;
    let internal: usize = output + output_bytes;
    (input, output, internal)
}

/// What the padding is, and what it brings about.
pub proof fn lemma_pad4(len: int)
    requires
        0 <= len,
    ensures
        pad4(len) == (if len % 4 == 0 {
            0
        } else {
            4 - len % 4
        }),
        (len + pad4(len)) % 4 == 0,
{
    let r = len % 4;
    assert(0 <= r < 4);
    assert(len == 4 * (len / 4) + r);
    if r == 0 {
        assert(pad4(len) == 0);
    } else {
        assert((4 - r) % 4 == 4 - r);
        assert(len + (4 - r) == 4 * (len / 4 + 1));
    }
}

/// Byte offset of the connection table of an encoded chunk: the header,
/// the three bit sections, and padding to a multiple of four.
pub fn connection_table_offset(ni: u32, no: u32, nn: u32) -> (r: usize)
    ensures
        r == 32 + section_bytes(ni, no, nn) + pad4(section_bytes(ni, no, nn)),
        r % 4 == 0,
{
    let bits_total: usize = byte_len(ni) + byte_len(no) + byte_len(nn);
    let rem: usize = bits_total % 4;
    let pad: usize = if rem == 0 { 0 } else { 4 - rem };
    proof {
        lemma_pad4(bits_total as int);
        lemma_pad4((32 + bits_total) as int);
    }
    HEADER_BYTES + bits_total + pad
}

/// Total bytes taken by the three bit sections.
pub open spec fn section_bytes(ni: u32, no: u32, nn: u32) -> int {
    bytes_for(ni as int) + bytes_for(no as int) + bytes_for(nn as int)
}

/// Bytes needed for `count` bits, as a machine integer.
pub fn byte_len(count: u32) -> (r: usize)
    ensures
        r == bytes_for(count as int),
        r <= 0x2000_0000,
{
    let q: u32 = count / 8;
    let r: u32 = if count % 8 == 0 { q } else { q + 1 };
    r as usize
}

/// Words needed for `count` bits, as a machine integer.
pub fn word_len(count: u32) -> (r: usize)
    ensures
        r == words_for(count as int),
        r <= 0x0800_0000,
{
    let q: u32 = count / 32;
    let r: u32 = if count % 32 == 0 { q } else { q + 1 };
    r as usize
}


/// The first `count` bits of a word-packed bit vector.
pub open spec fn unpack_words(words: Seq<u32>, count: int) -> Seq<bool> {
    Seq::new(count as nat, |i: int| bit_of_words(words, i))
}

/// The first `count` bits of a byte-packed bit vector.
pub open spec fn unpack_bytes(bytes: Seq<u8>, count: int) -> Seq<bool> {
    Seq::new(count as nat, |i: int| bit_of_bytes(bytes, i))
}

/// `bytes` is the packing of `bits`: as many bytes as the bits call
/// for, bit `i` in its place, and zeros in the padding of the last byte.
pub open spec fn packs_bytes(bytes: Seq<u8>, bits: Seq<bool>) -> bool {
    &&& bytes.len() == bytes_for(bits.len() as int)
    &&& forall|i: int| 0 <= i < bits.len() ==> bit_of_bytes(bytes, i) == bits[i]
    &&& forall|i: int| bits.len() <= i < 8 * bytes.len() ==> !bit_of_bytes(bytes, i)
}

/// `words` is the packing of `bits`: as many words as the bits call
/// for, bit `i` in its place, and zeros in the padding of the last word.
pub open spec fn packs_words(words: Seq<u32>, bits: Seq<bool>) -> bool {
    &&& words.len() == words_for(bits.len() as int)
    &&& forall|i: int| 0 <= i < bits.len() ==> bit_of_words(words, i) == bits[i]
    &&& forall|i: int| bits.len() <= i < 32 * words.len() ==> !bit_of_words(words, i)
}

/// How setting, clearing and flipping a mask bit shows in each bit of a
/// word.
pub proof fn lemma_word_bit_ops(x: u32, k: u32, j: u32)
    requires
        k < 32,
        j < 32,
    ensures
        word_bit(x | (1u32 << k), j) == (j == k || word_bit(x, j)),
        word_bit(x & !(1u32 << k), j) == (j != k && word_bit(x, j)),
        word_bit(x ^ (1u32 << k), j) == (word_bit(x, j) != (j == k)),
        !word_bit(0, j),
        word_bit(!x, j) == !word_bit(x, j),
{
    assert(((x | (1u32 << k)) & (1u32 << j) != 0) == (j == k || (x & (1u32 << j) != 0)))
        by (bit_vector)
        requires
            k < 32,
            j < 32,
    ;
    assert(((x & !(1u32 << k)) & (1u32 << j) != 0) == (j != k && (x & (1u32 << j) != 0)))
        by (bit_vector)
        requires
            k < 32,
            j < 32,
    ;
    assert(((x ^ (1u32 << k)) & (1u32 << j) != 0) == ((x & (1u32 << j) != 0) != (j == k)))
        by (bit_vector)
        requires
            k < 32,
            j < 32,
    ;
    assert(0u32 & (1u32 << j) == 0) by (bit_vector);
    assert(((!x) & (1u32 << j) != 0) == !(x & (1u32 << j) != 0)) by (bit_vector)
        requires
            j < 32,
    ;
}

/// How setting and clearing one bit shows in each bit of a byte.
pub proof fn lemma_byte_bit_ops(x: u8, k: u32, j: u32)
    requires
        k < 8,
        j < 8,
    ensures
        byte_bit(x | (1u8 << k), j) == (j == k || byte_bit(x, j)),
        byte_bit(x & !(1u8 << k), j) == (j != k && byte_bit(x, j)),
        !byte_bit(0, j),
{
    assert((((x | (1u8 << k)) >> j) & 1 != 0) == (j == k || ((x >> j) & 1 != 0))) by (bit_vector)
        requires
            k < 8,
            j < 8,
    ;
    assert((((x & !(1u8 << k)) >> j) & 1 != 0) == (j != k && ((x >> j) & 1 != 0)))
        by (bit_vector)
        requires
            k < 8,
            j < 8,
    ;
    assert((0u8 >> j) & 1 == 0) by (bit_vector);
}

/// Reads bit `idx` of a byte-packed bit vector.
pub fn byte_bit_at(bytes: &[u8], idx: u32) -> (r: bool)
    requires
        idx / 8 < bytes@.len(),
    ensures
        r == bit_of_bytes(bytes@, idx as int),
{
    let byte: u8 = bytes[(idx / 8) as usize];
    ((byte >> (idx % 8)) & 1) != 0
}

/// `bytes` with bit `idx` written to `val`.
pub open spec fn with_bit(bytes: Seq<u8>, idx: u32, val: bool) -> Seq<u8> {
    let b = bytes[idx as int / 8];
    let m = 1u8 << (idx % 8);
    bytes.update(idx as int / 8, if val { b | m } else { b & !m })
}

/// What [`with_bit`] does, bit by bit: bit `idx` becomes `val`, and no
/// other bit changes.
pub proof fn lemma_with_bit(bytes: Seq<u8>, idx: u32, val: bool)
    requires
        idx / 8 < bytes.len(),
    ensures
        with_bit(bytes, idx, val).len() == bytes.len(),
        forall|i: int|
            0 <= i < 8 * bytes.len() ==> bit_of_bytes(with_bit(bytes, idx, val), i) == (if i
                == idx {
                val
            } else {
                bit_of_bytes(bytes, i)
            }),
{
    let b = bytes[idx as int / 8];
    assert forall|i: int| 0 <= i < 8 * bytes.len() implies bit_of_bytes(
        with_bit(bytes, idx, val),
        i,
    ) == (if i == idx {
        val
    } else {
        bit_of_bytes(bytes, i)
    }) by {
        if i / 8 == idx as int / 8 {
            lemma_byte_bit_ops(b, idx % 8, (i % 8) as u32);
        }
    }
}

/// Writes bit `idx` of a byte-packed bit vector. No other bit changes.
pub fn set_byte_bit(bytes: &mut Vec<u8>, idx: u32, val: bool)
    requires
        idx / 8 < old(bytes)@.len(),
    ensures
        final(bytes)@ == with_bit(old(bytes)@, idx, val),
        final(bytes)@.len() == old(bytes)@.len(),
        forall|i: int|
            0 <= i < 8 * old(bytes)@.len() ==> bit_of_bytes(final(bytes)@, i) == (if i == idx {
                val
            } else {
                bit_of_bytes(old(bytes)@, i)
            }),
{
    let byte_idx: usize = (idx / 8) as usize;
    let k: u32 = idx % 8;
    let b: u8 = bytes[byte_idx];
    let nb: u8 = if val { b | (1u8 << k) } else { b & !(1u8 << k) };
    bytes.set(byte_idx, nb);
    proof {
        assert forall|i: int| 0 <= i < 8 * old(bytes)@.len() implies bit_of_bytes(bytes@, i) == (
        if i == idx {
            val
        } else {
            bit_of_bytes(old(bytes)@, i)
        }) by {
            if i / 8 == byte_idx {
                lemma_byte_bit_ops(b, k, (i % 8) as u32);
            }
        }
    }
}

/// Reads bit `idx` of a word-packed bit vector.
pub fn word_bit_at(words: &[u32], idx: u32) -> (r: bool)
    requires
        idx / 32 < words@.len(),
    ensures
        r == bit_of_words(words@, idx as int),
{
    let (w, m) = bit_to_word(idx);
    (words[w as usize] & m) != 0
}

/// Two words with the same bits are the same word.
pub proof fn lemma_word_by_bits(x: u32, y: u32)
    requires
        forall|k: u32| k < 32 ==> word_bit(x, k) == #[trigger] word_bit(y, k),
    ensures
        x == y,
{
    assert(word_bit(x, 0) == word_bit(y, 0));
    assert(word_bit(x, 1) == word_bit(y, 1));
    assert(word_bit(x, 2) == word_bit(y, 2));
    assert(word_bit(x, 3) == word_bit(y, 3));
    assert(word_bit(x, 4) == word_bit(y, 4));
    assert(word_bit(x, 5) == word_bit(y, 5));
    assert(word_bit(x, 6) == word_bit(y, 6));
    assert(word_bit(x, 7) == word_bit(y, 7));
    assert(word_bit(x, 8) == word_bit(y, 8));
    assert(word_bit(x, 9) == word_bit(y, 9));
    assert(word_bit(x, 10) == word_bit(y, 10));
    assert(word_bit(x, 11) == word_bit(y, 11));
    assert(word_bit(x, 12) == word_bit(y, 12));
    assert(word_bit(x, 13) == word_bit(y, 13));
    assert(word_bit(x, 14) == word_bit(y, 14));
    assert(word_bit(x, 15) == word_bit(y, 15));
    assert(word_bit(x, 16) == word_bit(y, 16));
    assert(word_bit(x, 17) == word_bit(y, 17));
    assert(word_bit(x, 18) == word_bit(y, 18));
    assert(word_bit(x, 19) == word_bit(y, 19));
    assert(word_bit(x, 20) == word_bit(y, 20));
    assert(word_bit(x, 21) == word_bit(y, 21));
    assert(word_bit(x, 22) == word_bit(y, 22));
    assert(word_bit(x, 23) == word_bit(y, 23));
    assert(word_bit(x, 24) == word_bit(y, 24));
    assert(word_bit(x, 25) == word_bit(y, 25));
    assert(word_bit(x, 26) == word_bit(y, 26));
    assert(word_bit(x, 27) == word_bit(y, 27));
    assert(word_bit(x, 28) == word_bit(y, 28));
    assert(word_bit(x, 29) == word_bit(y, 29));
    assert(word_bit(x, 30) == word_bit(y, 30));
    assert(word_bit(x, 31) == word_bit(y, 31));
    assert(x == y) by (bit_vector)
        requires
            (x & (1u32 << 0u32) != 0) == (y & (1u32 << 0u32) != 0),
            (x & (1u32 << 1u32) != 0) == (y & (1u32 << 1u32) != 0),
            (x & (1u32 << 2u32) != 0) == (y & (1u32 << 2u32) != 0),
            (x & (1u32 << 3u32) != 0) == (y & (1u32 << 3u32) != 0),
            (x & (1u32 << 4u32) != 0) == (y & (1u32 << 4u32) != 0),
            (x & (1u32 << 5u32) != 0) == (y & (1u32 << 5u32) != 0),
            (x & (1u32 << 6u32) != 0) == (y & (1u32 << 6u32) != 0),
            (x & (1u32 << 7u32) != 0) == (y & (1u32 << 7u32) != 0),
            (x & (1u32 << 8u32) != 0) == (y & (1u32 << 8u32) != 0),
            (x & (1u32 << 9u32) != 0) == (y & (1u32 << 9u32) != 0),
            (x & (1u32 << 10u32) != 0) == (y & (1u32 << 10u32) != 0),
            (x & (1u32 << 11u32) != 0) == (y & (1u32 << 11u32) != 0),
            (x & (1u32 << 12u32) != 0) == (y & (1u32 << 12u32) != 0),
            (x & (1u32 << 13u32) != 0) == (y & (1u32 << 13u32) != 0),
            (x & (1u32 << 14u32) != 0) == (y & (1u32 << 14u32) != 0),
            (x & (1u32 << 15u32) != 0) == (y & (1u32 << 15u32) != 0),
            (x & (1u32 << 16u32) != 0) == (y & (1u32 << 16u32) != 0),
            (x & (1u32 << 17u32) != 0) == (y & (1u32 << 17u32) != 0),
            (x & (1u32 << 18u32) != 0) == (y & (1u32 << 18u32) != 0),
            (x & (1u32 << 19u32) != 0) == (y & (1u32 << 19u32) != 0),
            (x & (1u32 << 20u32) != 0) == (y & (1u32 << 20u32) != 0),
            (x & (1u32 << 21u32) != 0) == (y & (1u32 << 21u32) != 0),
            (x & (1u32 << 22u32) != 0) == (y & (1u32 << 22u32) != 0),
            (x & (1u32 << 23u32) != 0) == (y & (1u32 << 23u32) != 0),
            (x & (1u32 << 24u32) != 0) == (y & (1u32 << 24u32) != 0),
            (x & (1u32 << 25u32) != 0) == (y & (1u32 << 25u32) != 0),
            (x & (1u32 << 26u32) != 0) == (y & (1u32 << 26u32) != 0),
            (x & (1u32 << 27u32) != 0) == (y & (1u32 << 27u32) != 0),
            (x & (1u32 << 28u32) != 0) == (y & (1u32 << 28u32) != 0),
            (x & (1u32 << 29u32) != 0) == (y & (1u32 << 29u32) != 0),
            (x & (1u32 << 30u32) != 0) == (y & (1u32 << 30u32) != 0),
            (x & (1u32 << 31u32) != 0) == (y & (1u32 << 31u32) != 0),
    ;
}

/// Bits have one packing only.
pub proof fn lemma_packing_unique(a: Seq<u32>, b: Seq<u32>, bits: Seq<bool>)
    requires
        packs_words(a, bits),
        packs_words(b, bits),
    ensures
        a == b,
{
    assert forall|w: int| 0 <= w < a.len() implies a[w] == b[w] by {
        assert forall|k: u32| k < 32 implies word_bit(a[w], k) == #[trigger] word_bit(b[w], k) by {
            let i = 32 * w + k;
            assert(i / 32 == w && i % 32 == k);
            assert(bit_of_words(a, i) == word_bit(a[w], k));
            assert(bit_of_words(b, i) == word_bit(b[w], k));
        }
        lemma_word_by_bits(a[w], b[w]);
    }
    assert(a =~= b);
}

} // verus!
