//! Views of the word-addressed backing storage as arrays of 8-, 16-, 32-
//! and 64-bit values, and their inverses. The byte view is little-endian
//! within each word, so exports and reconstructions round-trip exactly.

use vstd::prelude::*;
use vstd::arithmetic::div_mod::lemma_div_by_multiple;
use vstd::arithmetic::div_mod::lemma_fundamental_div_mod;
use vstd::arithmetic::div_mod::lemma_fundamental_div_mod_converse;
use vstd::arithmetic::div_mod::lemma_mod_division_less_than_divisor;

verus! {

/// Byte `j` of word `w`, little-endian.
pub open spec fn byte_of(w: u64, j: int) -> u8 {
    ((w >> ((8 * j) as u64)) & 0xFF) as u8
}

/// 16-bit limb `j` of word `w`, little-endian.
pub open spec fn half_of(w: u64, j: int) -> u16 {
    ((w >> ((16 * j) as u64)) & 0xFFFF) as u16
}

/// 32-bit limb `j` of word `w`, little-endian.
pub open spec fn quad_of(w: u64, j: int) -> u32 {
    ((w >> ((32 * j) as u64)) & 0xFFFFFFFF) as u32
}

/// The byte image of a word sequence: eight bytes per word.
pub open spec fn bytes_of_words(s: Seq<u64>) -> Seq<u8> {
    Seq::new((s.len() * 8) as nat, |i: int| byte_of(s[i / 8], i % 8))
}

/// The 16-bit image of a word sequence: four limbs per word.
pub open spec fn halves_of_words(s: Seq<u64>) -> Seq<u16> {
    Seq::new((s.len() * 4) as nat, |i: int| half_of(s[i / 4], i % 4))
}

/// The 32-bit image of a word sequence: two limbs per word.
pub open spec fn quads_of_words(s: Seq<u64>) -> Seq<u32> {
    Seq::new((s.len() * 2) as nat, |i: int| quad_of(s[i / 2], i % 2))
}

/// Word `w` assembled from eight consecutive bytes, little-endian.
pub open spec fn word_from_bytes(b: Seq<u8>, w: int) -> u64 {
    (b[8 * w] + b[8 * w + 1] * 0x100 + b[8 * w + 2] * 0x10000 + b[8 * w + 3] * 0x1000000 + b[8 * w
        + 4] * 0x100000000 + b[8 * w + 5] * 0x10000000000 + b[8 * w + 6] * 0x1000000000000 + b[8
        * w + 7] * 0x100000000000000) as u64
}

/// Word `w` assembled from four consecutive 16-bit limbs, little-endian.
pub open spec fn word_from_halves(h: Seq<u16>, w: int) -> u64 {
    (h[4 * w] + h[4 * w + 1] * 0x10000 + h[4 * w + 2] * 0x100000000 + h[4 * w + 3]
        * 0x1000000000000) as u64
}

/// Word `w` assembled from two consecutive 32-bit limbs, little-endian.
pub open spec fn word_from_quads(q: Seq<u32>, w: int) -> u64 {
    (q[2 * w] + q[2 * w + 1] * 0x100000000) as u64
}

/// The word sequence encoded by a byte sequence, eight bytes per word.
pub open spec fn words_of_bytes(b: Seq<u8>) -> Seq<u64> {
    Seq::new((b.len() / 8) as nat, |w: int| word_from_bytes(b, w))
}

/// The word sequence encoded by a 16-bit sequence, four limbs per word.
pub open spec fn words_of_halves(h: Seq<u16>) -> Seq<u64> {
    Seq::new((h.len() / 4) as nat, |w: int| word_from_halves(h, w))
}

/// The word sequence encoded by a 32-bit sequence, two limbs per word.
pub open spec fn words_of_quads(q: Seq<u32>) -> Seq<u64> {
    Seq::new((q.len() / 2) as nat, |w: int| word_from_quads(q, w))
}

/// Shifting by zero is the identity; connects limb 0 of a word to the word.
proof fn lemma_shr_zero(w: u64)
    by (bit_vector)
    ensures
        w >> 0u64 == w,
{
}

/// A word is the little-endian sum of its eight bytes, each below 256.
proof fn lemma_u8_unpack(w: u64)
    by (bit_vector)
    ensures
        (w & 0xFF) + ((w >> 8) & 0xFF) * 0x100 + ((w >> 16) & 0xFF) * 0x10000 + ((w >> 24) & 0xFF)
            * 0x1000000 + ((w >> 32) & 0xFF) * 0x100000000 + ((w >> 40) & 0xFF) * 0x10000000000 + ((
        w >> 48) & 0xFF) * 0x1000000000000 + ((w >> 56) & 0xFF) * 0x100000000000000 == w,
        (w & 0xFF) < 0x100,
        ((w >> 8) & 0xFF) < 0x100,
        ((w >> 16) & 0xFF) < 0x100,
        ((w >> 24) & 0xFF) < 0x100,
        ((w >> 32) & 0xFF) < 0x100,
        ((w >> 40) & 0xFF) < 0x100,
        ((w >> 48) & 0xFF) < 0x100,
        ((w >> 56) & 0xFF) < 0x100,
{
}

/// Eight bytes OR-ed into place equal their little-endian sum.
proof fn lemma_u8_pack(b0: u64, b1: u64, b2: u64, b3: u64, b4: u64, b5: u64, b6: u64, b7: u64)
    by (bit_vector)
    requires
        b0 < 0x100,
        b1 < 0x100,
        b2 < 0x100,
        b3 < 0x100,
        b4 < 0x100,
        b5 < 0x100,
        b6 < 0x100,
        b7 < 0x100,
    ensures
        (b0 | (b1 << 8) | (b2 << 16) | (b3 << 24) | (b4 << 32) | (b5 << 40) | (b6 << 48) | (b7
            << 56)) == b0 + b1 * 0x100 + b2 * 0x10000 + b3 * 0x1000000 + b4 * 0x100000000 + b5
            * 0x10000000000 + b6 * 0x1000000000000 + b7 * 0x100000000000000,
{
}

/// A word is the little-endian sum of its four 16-bit limbs.
proof fn lemma_u16_unpack(w: u64)
    by (bit_vector)
    ensures
        (w & 0xFFFF) + ((w >> 16) & 0xFFFF) * 0x10000 + ((w >> 32) & 0xFFFF) * 0x100000000 + ((w
            >> 48) & 0xFFFF) * 0x1000000000000 == w,
        (w & 0xFFFF) < 0x10000,
        ((w >> 16) & 0xFFFF) < 0x10000,
        ((w >> 32) & 0xFFFF) < 0x10000,
        ((w >> 48) & 0xFFFF) < 0x10000,
{
}

/// Four 16-bit limbs OR-ed into place equal their little-endian sum.
proof fn lemma_u16_pack(h0: u64, h1: u64, h2: u64, h3: u64)
    by (bit_vector)
    requires
        h0 < 0x10000,
        h1 < 0x10000,
        h2 < 0x10000,
        h3 < 0x10000,
    ensures
        (h0 | (h1 << 16) | (h2 << 32) | (h3 << 48)) == h0 + h1 * 0x10000 + h2 * 0x100000000 + h3
            * 0x1000000000000,
{
}

/// A word is the little-endian sum of its two 32-bit limbs.
proof fn lemma_u32_unpack(w: u64)
    by (bit_vector)
    ensures
        (w & 0xFFFFFFFF) + ((w >> 32) & 0xFFFFFFFF) * 0x100000000 == w,
        (w & 0xFFFFFFFF) < 0x100000000,
        ((w >> 32) & 0xFFFFFFFF) < 0x100000000,
{
}

/// Two 32-bit limbs OR-ed into place equal their little-endian sum.
proof fn lemma_u32_pack(q0: u64, q1: u64)
    by (bit_vector)
    requires
        q0 < 0x100000000,
        q1 < 0x100000000,
    ensures
        (q0 | (q1 << 32)) == q0 + q1 * 0x100000000,
{
}

/// Law: the byte image decodes back to exactly the words it came from.
pub proof fn lemma_bytes_words_roundtrip(s: Seq<u64>)
    ensures
        words_of_bytes(bytes_of_words(s)) == s,
{
    let b = bytes_of_words(s);
    lemma_div_by_multiple(s.len() as int, 8);
    assert forall|w: int| 0 <= w < s.len() implies word_from_bytes(b, w) == s[w] by {
        assert forall|j: int| 0 <= j < 8 implies b[8 * w + j] == byte_of(s[w], j) by {
            lemma_fundamental_div_mod_converse(8 * w + j, 8, w, j);
        }
        lemma_shr_zero(s[w]);
        lemma_u8_unpack(s[w]);
    }
    assert(words_of_bytes(bytes_of_words(s)) =~= s);
}

/// Law: the 16-bit image decodes back to exactly the words it came from.
pub proof fn lemma_halves_words_roundtrip(s: Seq<u64>)
    ensures
        words_of_halves(halves_of_words(s)) == s,
{
    let h = halves_of_words(s);
    lemma_div_by_multiple(s.len() as int, 4);
    assert forall|w: int| 0 <= w < s.len() implies word_from_halves(h, w) == s[w] by {
        assert forall|j: int| 0 <= j < 4 implies h[4 * w + j] == half_of(s[w], j) by {
            lemma_fundamental_div_mod_converse(4 * w + j, 4, w, j);
        }
        lemma_shr_zero(s[w]);
        lemma_u16_unpack(s[w]);
    }
    assert(words_of_halves(halves_of_words(s)) =~= s);
}

/// Law: the 32-bit image decodes back to exactly the words it came from.
pub proof fn lemma_quads_words_roundtrip(s: Seq<u64>)
    ensures
        words_of_quads(quads_of_words(s)) == s,
{
    let q = quads_of_words(s);
    lemma_div_by_multiple(s.len() as int, 2);
    assert forall|w: int| 0 <= w < s.len() implies word_from_quads(q, w) == s[w] by {
        assert forall|j: int| 0 <= j < 2 implies q[2 * w + j] == quad_of(s[w], j) by {
            lemma_fundamental_div_mod_converse(2 * w + j, 2, w, j);
        }
        lemma_shr_zero(s[w]);
        lemma_u32_unpack(s[w]);
    }
    assert(words_of_quads(quads_of_words(s)) =~= s);
}

/// Serializes words to their little-endian byte image.
pub fn words_to_bytes(words: &Vec<u64>) -> (r: Vec<u8>)
    requires
        words@.len() * 8 <= usize::MAX,
    ensures
        r@ == bytes_of_words(words@),
{
    let n: usize = words.len();
    let mut r: Vec<u8> = Vec::new();
    let mut w: usize = 0;
    while w < n
        invariant
            n == words@.len(),
            n * 8 <= usize::MAX,
            w <= n,
            r@.len() == w * 8,
            forall|i: int| 0 <= i < w * 8 ==> r@[i] == byte_of(words@[i / 8], i % 8),
        decreases n - w,
    {
        let word: u64 = words[w];
        r.push((word & 0xFF) as u8);
        r.push(((word >> 8) & 0xFF) as u8);
        r.push(((word >> 16) & 0xFF) as u8);
        r.push(((word >> 24) & 0xFF) as u8);
        r.push(((word >> 32) & 0xFF) as u8);
        r.push(((word >> 40) & 0xFF) as u8);
        r.push(((word >> 48) & 0xFF) as u8);
        r.push(((word >> 56) & 0xFF) as u8);
        proof {
            lemma_shr_zero(word);
            assert forall|i: int| 0 <= i < (w + 1) * 8 implies r@[i] == byte_of(
                words@[i / 8],
                i % 8,
            ) by {
                if i >= w * 8 {
                    lemma_fundamental_div_mod_converse(i, 8, w as int, i - w * 8);
                }
            }
        }
        w = w + 1;
    }
    proof {
        assert(r@ =~= bytes_of_words(words@));
    }
    r
}

/// Serializes words to their little-endian 16-bit image.
pub fn words_to_halves(words: &Vec<u64>) -> (r: Vec<u16>)
    requires
        words@.len() * 4 <= usize::MAX,
    ensures
        r@ == halves_of_words(words@),
{
    let n: usize = words.len();
    let mut r: Vec<u16> = Vec::new();
    let mut w: usize = 0;
    while w < n
        invariant
            n == words@.len(),
            n * 4 <= usize::MAX,
            w <= n,
            r@.len() == w * 4,
            forall|i: int| 0 <= i < w * 4 ==> r@[i] == half_of(words@[i / 4], i % 4),
        decreases n - w,
    {
        let word: u64 = words[w];
        r.push((word & 0xFFFF) as u16);
        r.push(((word >> 16) & 0xFFFF) as u16);
        r.push(((word >> 32) & 0xFFFF) as u16);
        r.push(((word >> 48) & 0xFFFF) as u16);
        proof {
            lemma_shr_zero(word);
            assert forall|i: int| 0 <= i < (w + 1) * 4 implies r@[i] == half_of(
                words@[i / 4],
                i % 4,
            ) by {
                if i >= w * 4 {
                    lemma_fundamental_div_mod_converse(i, 4, w as int, i - w * 4);
                }
            }
        }
        w = w + 1;
    }
    proof {
        assert(r@ =~= halves_of_words(words@));
    }
    r
}

/// Serializes words to their little-endian 32-bit image.
pub fn words_to_quads(words: &Vec<u64>) -> (r: Vec<u32>)
    requires
        words@.len() * 2 <= usize::MAX,
    ensures
        r@ == quads_of_words(words@),
{
    let n: usize = words.len();
    let mut r: Vec<u32> = Vec::new();
    let mut w: usize = 0;
    while w < n
        invariant
            n == words@.len(),
            n * 2 <= usize::MAX,
            w <= n,
            r@.len() == w * 2,
            forall|i: int| 0 <= i < w * 2 ==> r@[i] == quad_of(words@[i / 2], i % 2),
        decreases n - w,
    {
        let word: u64 = words[w];
        r.push((word & 0xFFFFFFFF) as u32);
        r.push(((word >> 32) & 0xFFFFFFFF) as u32);
        proof {
            lemma_shr_zero(word);
            assert forall|i: int| 0 <= i < (w + 1) * 2 implies r@[i] == quad_of(
                words@[i / 2],
                i % 2,
            ) by {
                if i >= w * 2 {
                    lemma_fundamental_div_mod_converse(i, 2, w as int, i - w * 2);
                }
            }
        }
        w = w + 1;
    }
    proof {
        assert(r@ =~= quads_of_words(words@));
    }
    r
}

/// Copies a word slice into an owned vector.
pub fn copy_words(words: &[u64]) -> (r: Vec<u64>)
    ensures
        r@ == words@,
{
    let n: usize = words.len();
    let mut r: Vec<u64> = Vec::new();
    let mut w: usize = 0;
    while w < n
        invariant
            n == words@.len(),
            w <= n,
            r@ == words@.take(w as int),
        decreases n - w,
    {
        r.push(words[w]);
        proof {
            assert(r@ =~= words@.take(w as int + 1));
        }
        w = w + 1;
    }
    proof {
        assert(words@.take(n as int) =~= words@);
    }
    r
}

/// Decodes a little-endian byte image into words, eight bytes per word.
pub fn bytes_to_words(array: &[u8]) -> (r: Vec<u64>)
    requires
        array@.len() % 8 == 0,
    ensures
        r@ == words_of_bytes(array@),
{
    let len: usize = array.len();
    let n: usize = len / 8;
    proof {
        lemma_fundamental_div_mod(len as int, 8);
        lemma_mod_division_less_than_divisor(len as int, 8);
    }
    let mut r: Vec<u64> = Vec::new();
    let mut w: usize = 0;
    while w < n
        invariant
            n == array@.len() / 8,
            array@.len() == n * 8,
            n * 8 <= usize::MAX,
            w <= n,
            r@.len() == w,
            forall|j: int| 0 <= j < w ==> r@[j] == word_from_bytes(array@, j),
        decreases n - w,
    {
        let base: usize = 8 * w;
        let b0: u64 = array[base] as u64;
        let b1: u64 = array[base + 1] as u64;
        let b2: u64 = array[base + 2] as u64;
        let b3: u64 = array[base + 3] as u64;
        let b4: u64 = array[base + 4] as u64;
        let b5: u64 = array[base + 5] as u64;
        let b6: u64 = array[base + 6] as u64;
        let b7: u64 = array[base + 7] as u64;
        let word: u64 = b0 | (b1 << 8) | (b2 << 16) | (b3 << 24) | (b4 << 32) | (b5 << 40) | (b6
            << 48) | (b7 << 56);
        proof {
            lemma_u8_pack(b0, b1, b2, b3, b4, b5, b6, b7);
        }
        r.push(word);
        w = w + 1;
    }
    proof {
        assert(r@ =~= words_of_bytes(array@));
    }
    r
}

/// Decodes a little-endian 16-bit image into words, four limbs per word.
pub fn halves_to_words(array: &[u16]) -> (r: Vec<u64>)
    requires
        array@.len() % 4 == 0,
    ensures
        r@ == words_of_halves(array@),
{
    let len: usize = array.len();
    let n: usize = len / 4;
    proof {
        lemma_fundamental_div_mod(len as int, 4);
        lemma_mod_division_less_than_divisor(len as int, 4);
    }
    let mut r: Vec<u64> = Vec::new();
    let mut w: usize = 0;
    while w < n
        invariant
            n == array@.len() / 4,
            array@.len() == n * 4,
            n * 4 <= usize::MAX,
            w <= n,
            r@.len() == w,
            forall|j: int| 0 <= j < w ==> r@[j] == word_from_halves(array@, j),
        decreases n - w,
    {
        let base: usize = 4 * w;
        let h0: u64 = array[base] as u64;
        let h1: u64 = array[base + 1] as u64;
        let h2: u64 = array[base + 2] as u64;
        let h3: u64 = array[base + 3] as u64;
        let word: u64 = h0 | (h1 << 16) | (h2 << 32) | (h3 << 48);
        proof {
            lemma_u16_pack(h0, h1, h2, h3);
        }
        r.push(word);
        w = w + 1;
    }
    proof {
        assert(r@ =~= words_of_halves(array@));
    }
    r
}

/// Decodes a little-endian 32-bit image into words, two limbs per word.
pub fn quads_to_words(array: &[u32]) -> (r: Vec<u64>)
    requires
        array@.len() % 2 == 0,
    ensures
        r@ == words_of_quads(array@),
{
    let len: usize = array.len();
    let n: usize = len / 2;
    proof {
        lemma_fundamental_div_mod(len as int, 2);
        lemma_mod_division_less_than_divisor(len as int, 2);
    }
    let mut r: Vec<u64> = Vec::new();
    let mut w: usize = 0;
    while w < n
        invariant
            n == array@.len() / 2,
            array@.len() == n * 2,
            n * 2 <= usize::MAX,
            w <= n,
            r@.len() == w,
            forall|j: int| 0 <= j < w ==> r@[j] == word_from_quads(array@, j),
        decreases n - w,
    {
        let base: usize = 2 * w;
        let q0: u64 = array[base] as u64;
        let q1: u64 = array[base + 1] as u64;
        let word: u64 = q0 | (q1 << 32);
        proof {
            lemma_u32_pack(q0, q1);
        }
        r.push(word);
        w = w + 1;
    }
    proof {
        assert(r@ =~= words_of_quads(array@));
    }
    r
}

} // verus!
