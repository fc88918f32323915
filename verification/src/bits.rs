//! Little-endian byte/word conversions and in-word field access.
//!
//! Every offset of the wire format is expressed in 8-byte words; scalar
//! fields live at byte- or bit-granular positions inside a word. This module
//! gives those layouts a mathematical definition and verified executable
//! counterparts, together with the XOR-mask laws behind default-value
//! masking.

use vstd::prelude::*;

verus! {

/// The 64-bit word whose little-endian bytes are `b0` (lowest address)
/// through `b7`.
pub open spec fn le8(b0: u8, b1: u8, b2: u8, b3: u8, b4: u8, b5: u8, b6: u8, b7: u8) -> u64 {
    (b0 as u64) | ((b1 as u64) << 8u64) | ((b2 as u64) << 16u64) | ((b3 as u64) << 24u64)
        | ((b4 as u64) << 32u64) | ((b5 as u64) << 40u64) | ((b6 as u64) << 48u64) | ((
    b7 as u64) << 56u64)
}

/// The 32-bit value whose little-endian bytes are `b0` through `b3`.
pub open spec fn le4(b0: u8, b1: u8, b2: u8, b3: u8) -> u32 {
    (b0 as u32) | ((b1 as u32) << 8u32) | ((b2 as u32) << 16u32) | ((b3 as u32) << 24u32)
}

/// Byte `i` (0 = least significant) of a word.
pub open spec fn byte_of_word(w: u64, i: u64) -> u8
    recommends
        i < 8,
{
    ((w >> ((8 * i) as u64)) & 0xff) as u8
}

/// The word with byte `i` replaced by `v`.
pub open spec fn with_byte(w: u64, i: u64, v: u8) -> u64
    recommends
        i < 8,
{
    (w & !(0xffu64 << ((8 * i) as u64))) | ((v as u64) << ((8 * i) as u64))
}

/// 16-bit lane `i` (0..4) of a word.
pub open spec fn u16_of_word(w: u64, i: u64) -> u16
    recommends
        i < 4,
{
    ((w >> ((16 * i) as u64)) & 0xffff) as u16
}

/// The word with 16-bit lane `i` replaced by `v`.
pub open spec fn with_u16(w: u64, i: u64, v: u16) -> u64
    recommends
        i < 4,
{
    (w & !(0xffffu64 << ((16 * i) as u64))) | ((v as u64) << ((16 * i) as u64))
}

/// 32-bit lane `i` (0..2) of a word.
pub open spec fn u32_of_word(w: u64, i: u64) -> u32
    recommends
        i < 2,
{
    ((w >> ((32 * i) as u64)) & 0xffff_ffff) as u32
}

/// The word with 32-bit lane `i` replaced by `v`.
pub open spec fn with_u32(w: u64, i: u64, v: u32) -> u64
    recommends
        i < 2,
{
    (w & !(0xffff_ffffu64 << ((32 * i) as u64))) | ((v as u64) << ((32 * i) as u64))
}

/// Bit `i` (0..64) of a word.
pub open spec fn bit_of_word(w: u64, i: u64) -> bool
    recommends
        i < 64,
{
    (w >> i) & 1 == 1
}

/// The word with bit `i` set to `v`.
pub open spec fn with_bit(w: u64, i: u64, v: bool) -> u64
    recommends
        i < 64,
{
    if v {
        w | (1u64 << i)
    } else {
        w & !(1u64 << i)
    }
}

/// The word whose little-endian bytes are `b[0]` through `b[7]`.
pub open spec fn word_of_le_bytes(b: Seq<u8>) -> u64
    recommends
        b.len() == 8,
{
    le8(b[0], b[1], b[2], b[3], b[4], b[5], b[6], b[7])
}

/// The eight little-endian bytes of a word, lowest address first.
pub open spec fn le_bytes_of_word(w: u64) -> Seq<u8> {
    seq![
        byte_of_word(w, 0),
        byte_of_word(w, 1),
        byte_of_word(w, 2),
        byte_of_word(w, 3),
        byte_of_word(w, 4),
        byte_of_word(w, 5),
        byte_of_word(w, 6),
        byte_of_word(w, 7),
    ]
}

/// The 32-bit value whose little-endian bytes are `b[0]` through `b[3]`.
pub open spec fn u32_of_le_bytes(b: Seq<u8>) -> u32
    recommends
        b.len() == 4,
{
    le4(b[0], b[1], b[2], b[3])
}

/// The four little-endian bytes of a 32-bit value.
pub open spec fn le_bytes_of_u32(v: u32) -> Seq<u8> {
    seq![(v & 0xff) as u8, ((v >> 8u32) & 0xff) as u8, ((v >> 16u32) & 0xff) as u8, ((v
        >> 24u32) & 0xff) as u8]
}

pub proof fn lemma_word_le_roundtrip(w: u64)
    ensures
        word_of_le_bytes(le_bytes_of_word(w)) == w,
{
    assert(le8(
        byte_of_word(w, 0),
        byte_of_word(w, 1),
        byte_of_word(w, 2),
        byte_of_word(w, 3),
        byte_of_word(w, 4),
        byte_of_word(w, 5),
        byte_of_word(w, 6),
        byte_of_word(w, 7),
    ) == w) by (bit_vector);
}

pub proof fn lemma_le_word_roundtrip(b: Seq<u8>)
    requires
        b.len() == 8,
    ensures
        le_bytes_of_word(word_of_le_bytes(b)) == b,
{
    let b0 = b[0];
    let b1 = b[1];
    let b2 = b[2];
    let b3 = b[3];
    let b4 = b[4];
    let b5 = b[5];
    let b6 = b[6];
    let b7 = b[7];
    assert(byte_of_word(le8(b0, b1, b2, b3, b4, b5, b6, b7), 0) == b0 && byte_of_word(
        le8(b0, b1, b2, b3, b4, b5, b6, b7),
        1,
    ) == b1 && byte_of_word(le8(b0, b1, b2, b3, b4, b5, b6, b7), 2) == b2 && byte_of_word(
        le8(b0, b1, b2, b3, b4, b5, b6, b7),
        3,
    ) == b3 && byte_of_word(le8(b0, b1, b2, b3, b4, b5, b6, b7), 4) == b4 && byte_of_word(
        le8(b0, b1, b2, b3, b4, b5, b6, b7),
        5,
    ) == b5 && byte_of_word(le8(b0, b1, b2, b3, b4, b5, b6, b7), 6) == b6 && byte_of_word(
        le8(b0, b1, b2, b3, b4, b5, b6, b7),
        7,
    ) == b7) by (bit_vector);
    assert(le_bytes_of_word(word_of_le_bytes(b)) =~= b);
}

pub proof fn lemma_u32_le_roundtrip(v: u32)
    ensures
        u32_of_le_bytes(le_bytes_of_u32(v)) == v,
{
    assert(le4((v & 0xff) as u8, ((v >> 8u32) & 0xff) as u8, ((v >> 16u32) & 0xff) as u8, ((v
        >> 24u32) & 0xff) as u8) == v) by (bit_vector);
}

pub proof fn lemma_le_u32_roundtrip(b: Seq<u8>)
    requires
        b.len() == 4,
    ensures
        le_bytes_of_u32(u32_of_le_bytes(b)) == b,
{
    let b0 = b[0];
    let b1 = b[1];
    let b2 = b[2];
    let b3 = b[3];
    assert((le4(b0, b1, b2, b3) & 0xff) as u8 == b0 && ((le4(b0, b1, b2, b3) >> 8u32) & 0xff) as u8
        == b1 && ((le4(b0, b1, b2, b3) >> 16u32) & 0xff) as u8 == b2 && ((le4(b0, b1, b2, b3)
        >> 24u32) & 0xff) as u8 == b3) by (bit_vector);
    assert(le_bytes_of_u32(u32_of_le_bytes(b)) =~= b);
}

/// Replacing byte `i` stores exactly `v` there and leaves every other byte
/// unchanged.
pub proof fn lemma_with_byte(w: u64, i: u64, v: u8, j: u64)
    by (bit_vector)
    requires
        i < 8,
        j < 8,
    ensures
        byte_of_word(with_byte(w, i, v), i) == v,
        j != i ==> byte_of_word(with_byte(w, i, v), j) == byte_of_word(w, j),
{
}

/// Replacing 16-bit lane `i` stores exactly `v` there and leaves every other
/// lane unchanged.
pub proof fn lemma_with_u16(w: u64, i: u64, v: u16, j: u64)
    by (bit_vector)
    requires
        i < 4,
        j < 4,
    ensures
        u16_of_word(with_u16(w, i, v), i) == v,
        j != i ==> u16_of_word(with_u16(w, i, v), j) == u16_of_word(w, j),
{
}

/// Replacing 32-bit lane `i` stores exactly `v` there and leaves the other
/// lane unchanged.
pub proof fn lemma_with_u32(w: u64, i: u64, v: u32, j: u64)
    by (bit_vector)
    requires
        i < 2,
        j < 2,
    ensures
        u32_of_word(with_u32(w, i, v), i) == v,
        j != i ==> u32_of_word(with_u32(w, i, v), j) == u32_of_word(w, j),
{
}

/// Replacing bit `i` stores exactly `v` there and leaves every other bit
/// unchanged.
pub proof fn lemma_with_bit(w: u64, i: u64, v: bool, j: u64)
    by (bit_vector)
    requires
        i < 64,
        j < 64,
    ensures
        bit_of_word(with_bit(w, i, v), i) == v,
        j != i ==> bit_of_word(with_bit(w, i, v), j) == bit_of_word(w, j),
{
}

/// The all-zero word reads as zero in every lane and every bit.
pub proof fn lemma_zero_word_lanes(i: u64)
    by (bit_vector)
    ensures
        i < 8 ==> byte_of_word(0, i) == 0,
        i < 4 ==> u16_of_word(0, i) == 0,
        i < 2 ==> u32_of_word(0, i) == 0,
        i < 64 ==> !bit_of_word(0, i),
{
}

/// XOR masking cancels: masking twice with the same default restores the
/// stored value, masking a value with itself gives zero, and masking zero
/// gives the default back. Stated for each scalar width.
pub proof fn lemma_xor_mask_u64(x: u64, d: u64)
    by (bit_vector)
    ensures
        (x ^ d) ^ d == x,
        x ^ x == 0,
        0u64 ^ d == d,
        d ^ 0u64 == d,
{
}

pub proof fn lemma_xor_mask_u32(x: u32, d: u32)
    by (bit_vector)
    ensures
        (x ^ d) ^ d == x,
        x ^ x == 0,
        0u32 ^ d == d,
        d ^ 0u32 == d,
{
}

pub proof fn lemma_xor_mask_u16(x: u16, d: u16)
    by (bit_vector)
    ensures
        (x ^ d) ^ d == x,
        x ^ x == 0,
        0u16 ^ d == d,
        d ^ 0u16 == d,
{
}

pub proof fn lemma_xor_mask_u8(x: u8, d: u8)
    by (bit_vector)
    ensures
        (x ^ d) ^ d == x,
        x ^ x == 0,
        0u8 ^ d == d,
        d ^ 0u8 == d,
{
}

// ---------------------------------------------------------------------
// Executable counterparts.
// ---------------------------------------------------------------------
/// Byte `i` of a word.
pub fn get_byte_of_word(w: u64, i: u64) -> (r: u8)
    requires
        i < 8,
    ensures
        r == byte_of_word(w, i),
{
    ((w >> (8 * i)) & 0xff) as u8
}

/// The word with byte `i` replaced.
pub fn set_byte_of_word(w: u64, i: u64, v: u8) -> (r: u64)
    requires
        i < 8,
    ensures
        r == with_byte(w, i, v),
{
    (w & !(0xffu64 << (8 * i))) | ((v as u64) << (8 * i))
}

/// 16-bit lane `i` of a word.
pub fn get_u16_of_word(w: u64, i: u64) -> (r: u16)
    requires
        i < 4,
    ensures
        r == u16_of_word(w, i),
{
    ((w >> (16 * i)) & 0xffff) as u16
}

/// The word with 16-bit lane `i` replaced.
pub fn set_u16_of_word(w: u64, i: u64, v: u16) -> (r: u64)
    requires
        i < 4,
    ensures
        r == with_u16(w, i, v),
{
    (w & !(0xffffu64 << (16 * i))) | ((v as u64) << (16 * i))
}

/// 32-bit lane `i` of a word.
pub fn get_u32_of_word(w: u64, i: u64) -> (r: u32)
    requires
        i < 2,
    ensures
        r == u32_of_word(w, i),
{
    ((w >> (32 * i)) & 0xffff_ffff) as u32
}

/// The word with 32-bit lane `i` replaced.
pub fn set_u32_of_word(w: u64, i: u64, v: u32) -> (r: u64)
    requires
        i < 2,
    ensures
        r == with_u32(w, i, v),
{
    (w & !(0xffff_ffffu64 << (32 * i))) | ((v as u64) << (32 * i))
}

/// Bit `i` of a word.
pub fn get_bit_of_word(w: u64, i: u64) -> (r: bool)
    requires
        i < 64,
    ensures
        r == bit_of_word(w, i),
{
    (w >> i) & 1 == 1
}

/// The word with bit `i` replaced.
pub fn set_bit_of_word(w: u64, i: u64, v: bool) -> (r: u64)
    requires
        i < 64,
    ensures
        r == with_bit(w, i, v),
{
    if v {
        w | (1u64 << i)
    } else {
        w & !(1u64 << i)
    }
}

// ---------------------------------------------------------------------
// Word streams as byte streams.
// ---------------------------------------------------------------------
/// The little-endian byte stream of a word sequence.
pub open spec fn bytes_of_words(ws: Seq<u64>) -> Seq<u8>
    decreases ws.len(),
{
    if ws.len() == 0 {
        Seq::empty()
    } else {
        le_bytes_of_word(ws[0]) + bytes_of_words(ws.skip(1))
    }
}

/// The word sequence read back from a little-endian byte stream whose length
/// is a whole number of words.
pub open spec fn words_of_bytes(b: Seq<u8>) -> Seq<u64>
    recommends
        b.len() % 8 == 0,
    decreases b.len(),
{
    if b.len() < 8 {
        Seq::empty()
    } else {
        seq![word_of_le_bytes(b.take(8))] + words_of_bytes(b.skip(8))
    }
}

pub proof fn lemma_bytes_of_words_len(ws: Seq<u64>)
    ensures
        bytes_of_words(ws).len() == 8 * ws.len(),
    decreases ws.len(),
{
    if ws.len() > 0 {
        lemma_bytes_of_words_len(ws.skip(1));
    }
}

/// Appending one word to a stream appends its eight bytes.
pub proof fn lemma_bytes_of_words_snoc(ws: Seq<u64>, w: u64)
    ensures
        bytes_of_words(ws.push(w)) == bytes_of_words(ws) + le_bytes_of_word(w),
    decreases ws.len(),
{
    if ws.len() == 0 {
        assert(ws.push(w).skip(1) =~= Seq::<u64>::empty());
        assert(ws.push(w)[0] == w);
        assert(bytes_of_words(ws.push(w)) == le_bytes_of_word(w) + bytes_of_words(
            ws.push(w).skip(1),
        ));
        assert(bytes_of_words(ws.push(w)) =~= bytes_of_words(ws) + le_bytes_of_word(w));
    } else {
        assert(ws.push(w).skip(1) =~= ws.skip(1).push(w));
        lemma_bytes_of_words_snoc(ws.skip(1), w);
        assert(ws.push(w)[0] == ws[0]);
        assert(bytes_of_words(ws.push(w)) == le_bytes_of_word(ws[0]) + bytes_of_words(
            ws.skip(1).push(w),
        ));
        assert(bytes_of_words(ws) == le_bytes_of_word(ws[0]) + bytes_of_words(ws.skip(1)));
        assert(bytes_of_words(ws.push(w)) =~= bytes_of_words(ws) + le_bytes_of_word(w));
    }
}

/// The byte stream of a word sequence, restricted to word `i`, is that
/// word's eight bytes.
pub proof fn lemma_bytes_of_words_subrange(ws: Seq<u64>, i: int)
    requires
        0 <= i < ws.len(),
    ensures
        bytes_of_words(ws).subrange(8 * i, 8 * i + 8) == le_bytes_of_word(ws[i]),
{
    lemma_bytes_of_words_len(ws);
    lemma_words_bytes_roundtrip(ws);
    lemma_words_of_bytes_index(bytes_of_words(ws), i);
    lemma_le_word_roundtrip(bytes_of_words(ws).subrange(8 * i, 8 * i + 8));
}

/// Concatenating word streams concatenates their byte streams.
pub proof fn lemma_bytes_of_words_concat(a: Seq<u64>, b: Seq<u64>)
    ensures
        bytes_of_words(a + b) == bytes_of_words(a) + bytes_of_words(b),
    decreases a.len(),
{
    if a.len() == 0 {
        assert(a + b =~= b);
        assert(bytes_of_words(a + b) =~= bytes_of_words(a) + bytes_of_words(b));
    } else {
        assert((a + b).skip(1) =~= a.skip(1) + b);
        lemma_bytes_of_words_concat(a.skip(1), b);
        assert(bytes_of_words(a + b) =~= bytes_of_words(a) + bytes_of_words(b));
    }
}

/// Writing words to bytes and reading them back is the identity.
pub proof fn lemma_words_bytes_roundtrip(ws: Seq<u64>)
    ensures
        words_of_bytes(bytes_of_words(ws)) == ws,
    decreases ws.len(),
{
    lemma_bytes_of_words_len(ws);
    if ws.len() == 0 {
        assert(words_of_bytes(bytes_of_words(ws)) =~= ws);
    } else {
        let b = bytes_of_words(ws);
        lemma_bytes_of_words_len(ws.skip(1));
        assert(b.take(8) =~= le_bytes_of_word(ws[0]));
        assert(b.skip(8) =~= bytes_of_words(ws.skip(1)));
        lemma_word_le_roundtrip(ws[0]);
        lemma_words_bytes_roundtrip(ws.skip(1));
        assert(words_of_bytes(bytes_of_words(ws)) =~= ws);
    }
}

/// Reading a whole-word byte stream into words and writing it back is the
/// identity.
pub proof fn lemma_bytes_words_roundtrip(b: Seq<u8>)
    requires
        b.len() % 8 == 0,
    ensures
        bytes_of_words(words_of_bytes(b)) == b,
    decreases b.len(),
{
    if b.len() == 0 {
        assert(bytes_of_words(words_of_bytes(b)) =~= b);
    } else {
        let ws = words_of_bytes(b);
        assert(ws.skip(1) =~= words_of_bytes(b.skip(8)));
        lemma_le_word_roundtrip(b.take(8));
        lemma_bytes_words_roundtrip(b.skip(8));
        assert(bytes_of_words(words_of_bytes(b)) =~= b);
    }
}

/// Word `i` of a byte stream read back as words.
pub proof fn lemma_words_of_bytes_index(b: Seq<u8>, i: int)
    requires
        b.len() % 8 == 0,
        0 <= i < b.len() / 8,
    ensures
        words_of_bytes(b).len() == b.len() / 8,
        words_of_bytes(b)[i] == word_of_le_bytes(b.subrange(8 * i, 8 * i + 8)),
    decreases b.len(),
{
    if i == 0 {
        assert(b.subrange(0, 8) =~= b.take(8));
        if b.len() / 8 > 1 {
            lemma_words_of_bytes_index(b.skip(8), 0);
        } else {
            assert(words_of_bytes(b).len() == 1 + words_of_bytes(b.skip(8)).len());
            lemma_words_of_bytes_len(b.skip(8));
        }
        lemma_words_of_bytes_len(b);
    } else {
        lemma_words_of_bytes_index(b.skip(8), i - 1);
        lemma_words_of_bytes_len(b);
        assert(b.skip(8).subrange(8 * (i - 1), 8 * (i - 1) + 8) =~= b.subrange(8 * i, 8 * i + 8));
    }
}

pub proof fn lemma_words_of_bytes_len(b: Seq<u8>)
    requires
        b.len() % 8 == 0,
    ensures
        words_of_bytes(b).len() == b.len() / 8,
    decreases b.len(),
{
    if b.len() >= 8 {
        lemma_words_of_bytes_len(b.skip(8));
    }
}

/// Reads a whole-word little-endian byte slice as a word vector.
pub fn le_bytes_to_words(bytes: &[u8]) -> (v: Vec<u64>)
    requires
        bytes@.len() % 8 == 0,
    ensures
        v@ == words_of_bytes(bytes@),
        v@.len() == bytes@.len() / 8,
{
    let len = bytes.len();
    let n = len / 8;
    let mut v: Vec<u64> = Vec::new();
    let mut i: usize = 0;
    while i < n
        invariant
            bytes@.len() % 8 == 0,
            bytes@.len() == len,
            n == bytes@.len() / 8,
            i <= n,
            v@.len() == i,
            forall|j: int|
                0 <= j < i ==> v@[j] == word_of_le_bytes(bytes@.subrange(8 * j, 8 * j + 8)),
        decreases n - i,
    {
        proof {
            assert(8 * (n as int) == bytes@.len());
            assert(8 * (i as int) + 8 <= bytes@.len());
        }
        let base = 8 * i;
        let w = le8_exec(
            bytes[base],
            bytes[base + 1],
            bytes[base + 2],
            bytes[base + 3],
            bytes[base + 4],
            bytes[base + 5],
            bytes[base + 6],
            bytes[base + 7],
        );
        proof {
            let sub = bytes@.subrange(8 * (i as int), 8 * (i as int) + 8);
            assert(sub[0] == bytes@[8 * (i as int)]);
            assert(sub[1] == bytes@[8 * (i as int) + 1]);
            assert(sub[2] == bytes@[8 * (i as int) + 2]);
            assert(sub[3] == bytes@[8 * (i as int) + 3]);
            assert(sub[4] == bytes@[8 * (i as int) + 4]);
            assert(sub[5] == bytes@[8 * (i as int) + 5]);
            assert(sub[6] == bytes@[8 * (i as int) + 6]);
            assert(sub[7] == bytes@[8 * (i as int) + 7]);
        }
        v.push(w);
        i = i + 1;
    }
    proof {
        lemma_words_of_bytes_len(bytes@);
        assert forall|j: int| 0 <= j < n implies v@[j] == words_of_bytes(bytes@)[j] by {
            lemma_words_of_bytes_index(bytes@, j);
        }
        assert(v@ =~= words_of_bytes(bytes@));
    }
    v
}

/// Composes a word from its eight little-endian bytes.
pub fn le8_exec(b0: u8, b1: u8, b2: u8, b3: u8, b4: u8, b5: u8, b6: u8, b7: u8) -> (r: u64)
    ensures
        r == le8(b0, b1, b2, b3, b4, b5, b6, b7),
{
    (b0 as u64) | ((b1 as u64) << 8u64) | ((b2 as u64) << 16u64) | ((b3 as u64) << 24u64) | ((
    b4 as u64) << 32u64) | ((b5 as u64) << 40u64) | ((b6 as u64) << 48u64) | ((b7 as u64)
        << 56u64)
}

/// Serialises a word slice to its little-endian byte stream.
pub fn words_to_le_bytes(words: &[u64]) -> (b: Vec<u8>)
    ensures
        b@ == bytes_of_words(words@),
        b@.len() == 8 * words@.len(),
{
    let mut b: Vec<u8> = Vec::new();
    let mut i: usize = 0;
    proof {
        assert(words@.take(0) =~= Seq::<u64>::empty());
    }
    while i < words.len()
        invariant
            i <= words@.len(),
            b@ == bytes_of_words(words@.take(i as int)),
            b@.len() == 8 * i,
        decreases words@.len() - i,
    {
        let w = words[i];
        push_word_le_bytes(&mut b, w);
        proof {
            lemma_bytes_of_words_snoc(words@.take(i as int), w);
            assert(words@.take(i as int).push(w) =~= words@.take(i as int + 1));
        }
        i = i + 1;
    }
    proof {
        assert(words@.take(words@.len() as int) =~= words@);
        lemma_bytes_of_words_len(words@);
    }
    b
}

/// Appends the eight little-endian bytes of one word.
pub fn push_word_le_bytes(b: &mut Vec<u8>, w: u64)
    ensures
        final(b)@ == old(b)@ + le_bytes_of_word(w),
{
    b.push(get_byte_of_word(w, 0));
    b.push(get_byte_of_word(w, 1));
    b.push(get_byte_of_word(w, 2));
    b.push(get_byte_of_word(w, 3));
    b.push(get_byte_of_word(w, 4));
    b.push(get_byte_of_word(w, 5));
    b.push(get_byte_of_word(w, 6));
    b.push(get_byte_of_word(w, 7));
    proof {
        assert(b@ =~= old(b)@ + le_bytes_of_word(w));
    }
}

/// Appends the four little-endian bytes of a 32-bit value.
pub fn push_u32_le_bytes(b: &mut Vec<u8>, v: u32)
    ensures
        final(b)@ == old(b)@ + le_bytes_of_u32(v),
{
    b.push((v & 0xff) as u8);
    b.push(((v >> 8u32) & 0xff) as u8);
    b.push(((v >> 16u32) & 0xff) as u8);
    b.push(((v >> 24u32) & 0xff) as u8);
    proof {
        assert(b@ =~= old(b)@ + le_bytes_of_u32(v));
    }
}

/// Reads the 32-bit value stored little-endian at `pos`.
pub fn read_u32_le(b: &[u8], pos: usize) -> (r: u32)
    requires
        pos + 4 <= b@.len(),
    ensures
        r == u32_of_le_bytes(b@.subrange(pos as int, pos as int + 4)),
{
    let r = le4_exec(b[pos], b[pos + 1], b[pos + 2], b[pos + 3]);
    proof {
        let sub = b@.subrange(pos as int, pos as int + 4);
        assert(sub[0] == b@[pos as int]);
        assert(sub[1] == b@[pos as int + 1]);
        assert(sub[2] == b@[pos as int + 2]);
        assert(sub[3] == b@[pos as int + 3]);
    }
    r
}

/// Composes a 32-bit value from its four little-endian bytes.
pub fn le4_exec(b0: u8, b1: u8, b2: u8, b3: u8) -> (r: u32)
    ensures
        r == le4(b0, b1, b2, b3),
{
    (b0 as u32) | ((b1 as u32) << 8u32) | ((b2 as u32) << 16u32) | ((b3 as u32) << 24u32)
}

} // verus!
