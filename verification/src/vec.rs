//! Word-addressed backing storage for the filters: a bit vector whose bits
//! live in 64-bit words, and a vector of 4-bit saturating counters packed
//! sixteen to a word.

use vstd::prelude::*;
use vstd::arithmetic::div_mod::lemma_fundamental_div_mod;
use vstd::arithmetic::div_mod::lemma_mod_division_less_than_divisor;
use vstd::arithmetic::div_mod::lemma_div_pos_is_pos;
use vstd::arithmetic::mul::lemma_mul_inequality;

verus! {

/// True iff bit `b` (counting from the least significant end) of word `w` is set.
pub open spec fn word_bit(w: u64, b: u64) -> bool {
    (w >> b) & 1u64 == 1u64
}

/// Bit `i` of a word sequence: word `i / 64`, position `i % 64`.
pub open spec fn seq_bit(s: Seq<u64>, i: int) -> bool {
    word_bit(s[i / 64], (i % 64) as u64)
}

/// For an index below `n * d`, integer division by `d` lands below `n`.
pub(crate) proof fn lemma_div_below(i: int, d: int, n: int)
    requires
        0 <= i,
        0 < d,
        i < n * d,
    ensures
        0 <= i / d < n,
{
    lemma_fundamental_div_mod(i, d);
    lemma_mod_division_less_than_divisor(i, d);
    lemma_div_pos_is_pos(i, d);
    assert(i == d * (i / d) + i % d);
    assert(0 <= i % d);
    if i / d >= n {
        lemma_mul_inequality(n, i / d, d);
        assert(n * d <= (i / d) * d);
        assert(d * (i / d) == (i / d) * d) by (nonlinear_arith);
        assert(false);
    }
}

/// Setting bit `b` of a word leaves every other bit as it was and makes bit `b` true.
pub(crate) proof fn lemma_or_bit(w: u64, b: u64, j: u64)
    by (bit_vector)
    requires
        b < 64,
        j < 64,
    ensures
        word_bit(w | (1u64 << b), j) == (j == b || word_bit(w, j)),
{
}

/// A word-addressed bit array. Bit `i` lives in word `i / 64` at position
/// `i % 64`; `nbits` is always the full capacity of the words allocated.
#[derive(Debug, Clone)]
pub struct BloomBitVec {
    /// Internal representation of the bit vector.
    pub storage: Vec<u64>,
    /// The number of valid bits in the internal representation.
    pub nbits: u64,
}

impl BloomBitVec {
    /// Structural well-formedness: the bit count matches the storage exactly.
    pub open spec fn wf(&self) -> bool {
        &&& self.nbits == self.storage@.len() * 64
        &&& self.storage@.len() * 64 <= u64::MAX
    }

    /// The value of bit `i`.
    pub open spec fn bit(&self, i: int) -> bool {
        seq_bit(self.storage@, i)
    }

    /// Allocates `slots` words, all zero.
    pub fn new(slots: usize) -> (r: Self)
        requires
            slots * 64 <= u64::MAX,
        ensures
            r.wf(),
            r.storage@.len() == slots,
            r.nbits == slots * 64,
            forall|w: int| 0 <= w < slots ==> r.storage@[w] == 0u64,
    {
        BloomBitVec { storage: vec![0u64; slots], nbits: (slots as u64) * 64 }
    }

    /// Allocates `slots` words, every bit set to `bit`.
    pub fn from_elem(slots: usize, bit: bool) -> (r: Self)
        requires
            slots * 64 <= u64::MAX,
        ensures
            r.wf(),
            r.storage@.len() == slots,
            r.nbits == slots * 64,
            forall|w: int| 0 <= w < slots ==> r.storage@[w] == (if bit { u64::MAX } else { 0u64 }),
    {
        let word: u64 = if bit { u64::MAX } else { 0u64 };
        BloomBitVec { storage: vec![word; slots], nbits: (slots as u64) * 64 }
    }

    /// Sets bit `index`; every other bit is untouched.
    pub fn set(&mut self, index: u64)
        requires
            old(self).wf(),
            index < old(self).nbits,
        ensures
            final(self).wf(),
            final(self).nbits == old(self).nbits,
            final(self).storage@ == old(self).storage@.update(
                index as int / 64,
                (old(self).storage@[index as int / 64] | (1u64 << ((index as u64) % 64))),
            ),
            forall|j: int|
                0 <= j < final(self).nbits ==> final(self).bit(j) == (j == index || old(
                    self,
                ).bit(j)),
    {
        let n: usize = self.storage.len();
        proof {
            lemma_div_below(index as int, 64, n as int);
        }
        let w: usize = (index / 64) as usize;
        let b: u64 = index % 64;
        let updated: u64 = self.storage[w] | (1u64 << b);
        self.storage[w] = updated;
        proof {
            let s_old = old(self).storage@;
            let s_new = self.storage@;
            assert forall|j: int| 0 <= j < self.nbits implies self.bit(j) == (j == index
                || old(self).bit(j)) by {
                lemma_div_below(j, 64, s_old.len() as int);
                lemma_fundamental_div_mod(j, 64);
                lemma_fundamental_div_mod(index as int, 64);
                if j / 64 == index as int / 64 {
                    lemma_or_bit(s_old[j / 64], b, (j % 64) as u64);
                } else {
                    assert(s_new[j / 64] == s_old[j / 64]);
                }
            }
        }
    }

    /// Returns bit `index`.
    pub fn get(&self, index: u64) -> (r: bool)
        requires
            self.wf(),
            index < self.nbits,
        ensures
            r == self.bit(index as int),
    {
        let n: usize = self.storage.len();
        proof {
            lemma_div_below(index as int, 64, n as int);
        }
        let w: usize = (index / 64) as usize;
        let b: u64 = index % 64;
        (self.storage[w] >> b) & 1u64 == 1u64
    }

    /// Bitwise OR with a vector of the same capacity.
    pub fn or(&mut self, other: &BloomBitVec)
        requires
            old(self).wf(),
            other.wf(),
            old(self).nbits == other.nbits,
        ensures
            final(self).wf(),
            final(self).nbits == old(self).nbits,
            final(self).storage@.len() == old(self).storage@.len(),
            forall|w: int|
                0 <= w < final(self).storage@.len() ==> final(self).storage@[w] == (old(
                    self,
                ).storage@[w] | other.storage@[w]),
    {
        let n: usize = self.storage.len();
        let mut i: usize = 0;
        while i < n
            invariant
                self.wf(),
                other.wf(),
                self.nbits == old(self).nbits,
                n == self.storage@.len(),
                n == old(self).storage@.len(),
                n == other.storage@.len(),
                i <= n,
                forall|w: int|
                    0 <= w < i ==> self.storage@[w] == (old(self).storage@[w]
                        | other.storage@[w]),
                forall|w: int| i <= w < n ==> self.storage@[w] == old(self).storage@[w],
            decreases n - i,
        {
            let v: u64 = self.storage[i] | other.storage[i];
            self.storage[i] = v;
            i = i + 1;
        }
    }

    /// Bitwise AND with a vector of the same capacity.
    pub fn and(&mut self, other: &BloomBitVec)
        requires
            old(self).wf(),
            other.wf(),
            old(self).nbits == other.nbits,
        ensures
            final(self).wf(),
            final(self).nbits == old(self).nbits,
            final(self).storage@.len() == old(self).storage@.len(),
            forall|w: int|
                0 <= w < final(self).storage@.len() ==> final(self).storage@[w] == (old(
                    self,
                ).storage@[w] & other.storage@[w]),
    {
        let n: usize = self.storage.len();
        let mut i: usize = 0;
        while i < n
            invariant
                self.wf(),
                other.wf(),
                self.nbits == old(self).nbits,
                n == self.storage@.len(),
                n == old(self).storage@.len(),
                n == other.storage@.len(),
                i <= n,
                forall|w: int|
                    0 <= w < i ==> self.storage@[w] == (old(self).storage@[w]
                        & other.storage@[w]),
                forall|w: int| i <= w < n ==> self.storage@[w] == old(self).storage@[w],
            decreases n - i,
        {
            let v: u64 = self.storage[i] & other.storage[i];
            self.storage[i] = v;
            i = i + 1;
        }
    }

    /// Bitwise XOR with a vector of the same capacity.
    pub fn xor(&mut self, other: &BloomBitVec)
        requires
            old(self).wf(),
            other.wf(),
            old(self).nbits == other.nbits,
        ensures
            final(self).wf(),
            final(self).nbits == old(self).nbits,
            final(self).storage@.len() == old(self).storage@.len(),
            forall|w: int|
                0 <= w < final(self).storage@.len() ==> final(self).storage@[w] == (old(
                    self,
                ).storage@[w] ^ other.storage@[w]),
    {
        let n: usize = self.storage.len();
        let mut i: usize = 0;
        while i < n
            invariant
                self.wf(),
                other.wf(),
                self.nbits == old(self).nbits,
                n == self.storage@.len(),
                n == old(self).storage@.len(),
                n == other.storage@.len(),
                i <= n,
                forall|w: int|
                    0 <= w < i ==> self.storage@[w] == (old(self).storage@[w]
                        ^ other.storage@[w]),
                forall|w: int| i <= w < n ==> self.storage@[w] == old(self).storage@[w],
            decreases n - i,
        {
            let v: u64 = self.storage[i] ^ other.storage[i];
            self.storage[i] = v;
            i = i + 1;
        }
    }

    /// Bitwise NOR with a vector of the same capacity.
    pub fn nor(&mut self, other: &BloomBitVec)
        requires
            old(self).wf(),
            other.wf(),
            old(self).nbits == other.nbits,
        ensures
            final(self).wf(),
            final(self).nbits == old(self).nbits,
            final(self).storage@.len() == old(self).storage@.len(),
            forall|w: int|
                0 <= w < final(self).storage@.len() ==> final(self).storage@[w] == !(old(
                    self,
                ).storage@[w] | other.storage@[w]),
    {
        let n: usize = self.storage.len();
        let mut i: usize = 0;
        while i < n
            invariant
                self.wf(),
                other.wf(),
                self.nbits == old(self).nbits,
                n == self.storage@.len(),
                n == old(self).storage@.len(),
                n == other.storage@.len(),
                i <= n,
                forall|w: int|
                    0 <= w < i ==> self.storage@[w] == !(old(self).storage@[w]
                        | other.storage@[w]),
                forall|w: int| i <= w < n ==> self.storage@[w] == old(self).storage@[w],
            decreases n - i,
        {
            let v: u64 = !(self.storage[i] | other.storage[i]);
            self.storage[i] = v;
            i = i + 1;
        }
    }

    /// Bitwise XNOR with a vector of the same capacity.
    pub fn xnor(&mut self, other: &BloomBitVec)
        requires
            old(self).wf(),
            other.wf(),
            old(self).nbits == other.nbits,
        ensures
            final(self).wf(),
            final(self).nbits == old(self).nbits,
            final(self).storage@.len() == old(self).storage@.len(),
            forall|w: int|
                0 <= w < final(self).storage@.len() ==> final(self).storage@[w] == !(old(
                    self,
                ).storage@[w] ^ other.storage@[w]),
    {
        let n: usize = self.storage.len();
        let mut i: usize = 0;
        while i < n
            invariant
                self.wf(),
                other.wf(),
                self.nbits == old(self).nbits,
                n == self.storage@.len(),
                n == old(self).storage@.len(),
                n == other.storage@.len(),
                i <= n,
                forall|w: int|
                    0 <= w < i ==> self.storage@[w] == !(old(self).storage@[w]
                        ^ other.storage@[w]),
                forall|w: int| i <= w < n ==> self.storage@[w] == old(self).storage@[w],
            decreases n - i,
        {
            let v: u64 = !(self.storage[i] ^ other.storage[i]);
            self.storage[i] = v;
            i = i + 1;
        }
    }

    /// Bitwise NAND with a vector of the same capacity.
    pub fn nand(&mut self, other: &BloomBitVec)
        requires
            old(self).wf(),
            other.wf(),
            old(self).nbits == other.nbits,
        ensures
            final(self).wf(),
            final(self).nbits == old(self).nbits,
            final(self).storage@.len() == old(self).storage@.len(),
            forall|w: int|
                0 <= w < final(self).storage@.len() ==> final(self).storage@[w] == !(old(
                    self,
                ).storage@[w] & other.storage@[w]),
    {
        let n: usize = self.storage.len();
        let mut i: usize = 0;
        while i < n
            invariant
                self.wf(),
                other.wf(),
                self.nbits == old(self).nbits,
                n == self.storage@.len(),
                n == old(self).storage@.len(),
                n == other.storage@.len(),
                i <= n,
                forall|w: int|
                    0 <= w < i ==> self.storage@[w] == !(old(self).storage@[w]
                        & other.storage@[w]),
                forall|w: int| i <= w < n ==> self.storage@[w] == old(self).storage@[w],
            decreases n - i,
        {
            let v: u64 = !(self.storage[i] & other.storage[i]);
            self.storage[i] = v;
            i = i + 1;
        }
    }

    /// Set difference: keeps the bits of `self` that are clear in `other`.
    pub fn difference(&mut self, other: &BloomBitVec)
        requires
            old(self).wf(),
            other.wf(),
            old(self).nbits == other.nbits,
        ensures
            final(self).wf(),
            final(self).nbits == old(self).nbits,
            final(self).storage@.len() == old(self).storage@.len(),
            forall|w: int|
                0 <= w < final(self).storage@.len() ==> final(self).storage@[w] == (old(
                    self,
                ).storage@[w] & !other.storage@[w]),
    {
        let n: usize = self.storage.len();
        let mut i: usize = 0;
        while i < n
            invariant
                self.wf(),
                other.wf(),
                self.nbits == old(self).nbits,
                n == self.storage@.len(),
                n == old(self).storage@.len(),
                n == other.storage@.len(),
                i <= n,
                forall|w: int|
                    0 <= w < i ==> self.storage@[w] == (old(self).storage@[w]
                        & !other.storage@[w]),
                forall|w: int| i <= w < n ==> self.storage@[w] == old(self).storage@[w],
            decreases n - i,
        {
            let v: u64 = self.storage[i] & !other.storage[i];
            self.storage[i] = v;
            i = i + 1;
        }
    }

    /// Total number of zero bits across all words.
    pub fn count_zeros(&self) -> (r: u32)
        requires
            self.wf(),
            self.storage@.len() * 64 <= u32::MAX,
        ensures
            r == zeros_in_seq(self.storage@, self.storage@.len() as int),
    {
        let n: usize = self.storage.len();
        let mut total: u32 = 0;
        let mut i: usize = 0;
        while i < n
            invariant
                self.wf(),
                n == self.storage@.len(),
                n * 64 <= u32::MAX,
                i <= n,
                total == zeros_in_seq(self.storage@, i as int),
                total <= i * 64,
            decreases n - i,
        {
            let w: u64 = self.storage[i];
            let mut c: u32 = 0;
            let mut b: u64 = 0;
            while b < 64
                invariant
                    b <= 64,
                    c == zeros_in_word(w, b as int),
                    c <= b,
                decreases 64 - b,
            {
                proof {
                    assert(((w >> b) & 1u64 == 0u64) == !word_bit(w, b)) by (bit_vector);
                }
                if (w >> b) & 1u64 == 0u64 {
                    c = c + 1;
                }
                b = b + 1;
            }
            proof {
                lemma_mul_inequality(i as int + 1, n as int, 64);
            }
            total = total + c;
            i = i + 1;
        }
        total
    }

    /// Zeros every word.
    pub fn clear(&mut self)
        requires
            old(self).wf(),
        ensures
            final(self).wf(),
            final(self).nbits == old(self).nbits,
            final(self).storage@.len() == old(self).storage@.len(),
            forall|w: int| 0 <= w < final(self).storage@.len() ==> final(self).storage@[w] == 0u64,
    {
        let n: usize = self.storage.len();
        let mut i: usize = 0;
        while i < n
            invariant
                self.wf(),
                self.nbits == old(self).nbits,
                n == self.storage@.len(),
                i <= n,
                forall|w: int| 0 <= w < i ==> self.storage@[w] == 0u64,
            decreases n - i,
        {
            self.storage[i] = 0;
            i = i + 1;
        }
    }

    /// True iff the vector holds no words at all (capacity zero), which is
    /// distinct from every bit being zero.
    pub fn is_empty(&self) -> (r: bool)
        ensures
            r == (self.storage@.len() == 0),
    {
        self.storage.len() == 0
    }
}

/// The 4-bit counter at nibble position `pos` of word `w`. Counters are laid
/// out most-significant-nibble first: position 0 occupies bits 60..64.
pub open spec fn nibble(w: u64, pos: u64) -> u64 {
    (w >> (((15 - pos) * 4) as u64)) & 0xFu64
}

/// Word `w` with the counter at nibble position `pos` replaced by `v`.
pub open spec fn set_nibble(w: u64, pos: u64, v: u64) -> u64 {
    (w & !(0xFu64 << (((15 - pos) * 4) as u64))) | (v << (((15 - pos) * 4) as u64))
}

/// The counter at index `i` of a word sequence: word `i / 16`, nibble `i % 16`.
pub open spec fn counter_in(s: Seq<u64>, i: int) -> u64 {
    nibble(s[i / 16], (i % 16) as u64)
}

/// Law: saturation safety. Whatever sequence of increments and decrements
/// the backing words have seen, every counter reads as a value in
/// `[0, 15]`: a counter can neither exceed its ceiling nor go negative.
pub proof fn lemma_counter_saturation(s: Seq<u64>, i: int)
    requires
        0 <= i,
    ensures
        0 <= counter_in(s, i) <= 15,
{
    vstd::arithmetic::div_mod::lemma_mod_division_less_than_divisor(i, 16);
    lemma_nibble_range(s[i / 16], (i % 16) as u64);
}

/// Every 4-bit counter reads as a value in `[0, 15]`; a counter can neither
/// exceed its ceiling nor go negative, whatever the word holds.
pub proof fn lemma_nibble_range(w: u64, pos: u64)
    by (bit_vector)
    requires
        pos < 16,
    ensures
        nibble(w, pos) <= 15,
{
}

/// Replacing one nibble neither disturbs the other fifteen nor stores a
/// different value than asked for.
proof fn lemma_set_nibble(w: u64, pos: u64, v: u64, q: u64)
    by (bit_vector)
    requires
        pos < 16,
        q < 16,
        v <= 15,
    ensures
        nibble(set_nibble(w, pos, v), pos) == v,
        q != pos ==> nibble(set_nibble(w, pos, v), q) == nibble(w, q),
{
}

/// A word is exactly the packing of its sixteen nibbles; two words that agree
/// on every counter are equal.
pub proof fn lemma_word_from_nibbles(w1: u64, w2: u64)
    by (bit_vector)
    requires
        nibble(w1, 0) == nibble(w2, 0),
        nibble(w1, 1) == nibble(w2, 1),
        nibble(w1, 2) == nibble(w2, 2),
        nibble(w1, 3) == nibble(w2, 3),
        nibble(w1, 4) == nibble(w2, 4),
        nibble(w1, 5) == nibble(w2, 5),
        nibble(w1, 6) == nibble(w2, 6),
        nibble(w1, 7) == nibble(w2, 7),
        nibble(w1, 8) == nibble(w2, 8),
        nibble(w1, 9) == nibble(w2, 9),
        nibble(w1, 10) == nibble(w2, 10),
        nibble(w1, 11) == nibble(w2, 11),
        nibble(w1, 12) == nibble(w2, 12),
        nibble(w1, 13) == nibble(w2, 13),
        nibble(w1, 14) == nibble(w2, 14),
        nibble(w1, 15) == nibble(w2, 15),
    ensures
        w1 == w2,
{
}

/// A word-addressed array of 4-bit saturating counters, sixteen to a word.
#[derive(Debug, Clone)]
pub struct CountingVec {
    /// Internal representation of the vector.
    pub storage: Vec<u64>,
    /// The number of valid counters in the internal representation.
    pub counters: u64,
    /// The number of counters held by one 64-bit storage word.
    pub counter_per_slot: usize,
}

impl CountingVec {
    /// Structural well-formedness: the counter count matches the storage.
    pub open spec fn wf(&self) -> bool {
        &&& self.counter_per_slot == 16
        &&& self.counters == self.storage@.len() * 16
        &&& self.storage@.len() * 16 <= u64::MAX
    }

    /// The value of counter `i`, always in `[0, 15]`.
    pub open spec fn counter(&self, i: int) -> u64 {
        counter_in(self.storage@, i)
    }

    /// Allocates `slots` words holding `slots * 16` counters, all zero.
    pub fn new(slots: usize) -> (r: Self)
        requires
            slots * 16 <= u64::MAX,
        ensures
            r.wf(),
            r.storage@.len() == slots,
            r.counters == slots * 16,
            forall|w: int| 0 <= w < slots ==> r.storage@[w] == 0u64,
    {
        CountingVec {
            storage: vec![0u64; slots],
            counters: (slots as u64) * 16,
            counter_per_slot: 16,
        }
    }

    /// Returns the counter at `index` as an integer in `[0, 15]`.
    pub fn get(&self, index: u64) -> (r: usize)
        requires
            self.wf(),
            index < self.counters,
        ensures
            r == self.counter(index as int),
            r <= 15,
    {
        let n: usize = self.storage.len();
        proof {
            lemma_div_below(index as int, 16, n as int);
            lemma_nibble_range(self.storage@[index as int / 16], index % 16);
        }
        let w: usize = (index / 16) as usize;
        let b: u64 = index % 16;
        ((self.storage[w] >> ((15 - b) * 4)) & 0xFu64) as usize
    }

    /// Adds one to the counter at `index`, saturating at 15. No other
    /// counter moves, and nothing spills into a neighbouring nibble.
    pub fn increment(&mut self, index: u64)
        requires
            old(self).wf(),
            index < old(self).counters,
        ensures
            final(self).wf(),
            final(self).counters == old(self).counters,
            final(self).storage@.len() == old(self).storage@.len(),
            old(self).counter(index as int) < 15 ==> final(self).storage@ == old(
                self,
            ).storage@.update(
                index as int / 16,
                set_nibble(
                    old(self).storage@[index as int / 16],
                    (index as u64) % 16,
                    (old(self).counter(index as int) + 1) as u64,
                ),
            ),
            old(self).counter(index as int) == 15 ==> final(self).storage@ == old(self).storage@,
            final(self).counter(index as int) == if old(self).counter(index as int) < 15 {
                old(self).counter(index as int) + 1
            } else {
                15int
            },
            forall|j: int|
                0 <= j < final(self).counters && j != index ==> final(self).counter(j) == old(
                    self,
                ).counter(j),
    {
        proof {
            lemma_div_below(index as int, 16, self.storage@.len() as int);
            lemma_nibble_range(self.storage@[index as int / 16], (index as u64) % 16);
        }
        let current: usize = self.get(index);
        if current != 15 {
            let n: usize = self.storage.len();
            proof {
                lemma_div_below(index as int, 16, n as int);
            }
            let w: usize = (index / 16) as usize;
            let b: u64 = index % 16;
            let shift: u64 = (15 - b) * 4;
            let v: u64 = (current as u64) + 1;
            let updated: u64 = (self.storage[w] & !(0xFu64 << shift)) | (v << shift);
            self.storage[w] = updated;
            proof {
                lemma_counter_update(old(self).storage@, self.storage@, index as int, v);
            }
        }
    }

    /// Takes one from the counter at `index`, stopping at 0. No other
    /// counter moves.
    pub fn decrement(&mut self, index: u64)
        requires
            old(self).wf(),
            index < old(self).counters,
        ensures
            final(self).wf(),
            final(self).counters == old(self).counters,
            final(self).storage@.len() == old(self).storage@.len(),
            old(self).counter(index as int) > 0 ==> final(self).storage@ == old(
                self,
            ).storage@.update(
                index as int / 16,
                set_nibble(
                    old(self).storage@[index as int / 16],
                    (index as u64) % 16,
                    (old(self).counter(index as int) - 1) as u64,
                ),
            ),
            old(self).counter(index as int) == 0 ==> final(self).storage@ == old(self).storage@,
            final(self).counter(index as int) == if old(self).counter(index as int) > 0 {
                old(self).counter(index as int) - 1
            } else {
                0int
            },
            forall|j: int|
                0 <= j < final(self).counters && j != index ==> final(self).counter(j) == old(
                    self,
                ).counter(j),
    {
        proof {
            lemma_div_below(index as int, 16, self.storage@.len() as int);
            lemma_nibble_range(self.storage@[index as int / 16], (index as u64) % 16);
        }
        let current: usize = self.get(index);
        if current > 0 {
            let n: usize = self.storage.len();
            proof {
                lemma_div_below(index as int, 16, n as int);
            }
            let w: usize = (index / 16) as usize;
            let b: u64 = index % 16;
            let shift: u64 = (15 - b) * 4;
            let v: u64 = (current as u64) - 1;
            let updated: u64 = (self.storage[w] & !(0xFu64 << shift)) | (v << shift);
            self.storage[w] = updated;
            proof {
                lemma_counter_update(old(self).storage@, self.storage@, index as int, v);
            }
        }
    }

    /// Zeros every word.
    pub fn clear(&mut self)
        requires
            old(self).wf(),
        ensures
            final(self).wf(),
            final(self).counters == old(self).counters,
            final(self).storage@.len() == old(self).storage@.len(),
            forall|w: int| 0 <= w < final(self).storage@.len() ==> final(self).storage@[w] == 0u64,
    {
        let n: usize = self.storage.len();
        let mut i: usize = 0;
        while i < n
            invariant
                self.wf(),
                self.counters == old(self).counters,
                n == self.storage@.len(),
                i <= n,
                forall|w: int| 0 <= w < i ==> self.storage@[w] == 0u64,
            decreases n - i,
        {
            self.storage[i] = 0;
            i = i + 1;
        }
    }
}

/// After replacing the nibble of counter `index` with `v`, that counter
/// reads `v` and every other counter in the sequence is untouched.
pub(crate) proof fn lemma_counter_update(s_old: Seq<u64>, s_new: Seq<u64>, index: int, v: u64)
    requires
        0 <= index < s_old.len() * 16,
        v <= 15,
        s_new == s_old.update(index / 16, set_nibble(s_old[index / 16], (index % 16) as u64, v)),
    ensures
        counter_in(s_new, index) == v,
        forall|j: int|
            0 <= j < s_old.len() * 16 && j != index ==> counter_in(s_new, j) == counter_in(
                s_old,
                j,
            ),
{
    lemma_div_below(index, 16, s_old.len() as int);
    lemma_fundamental_div_mod(index, 16);
    lemma_set_nibble(s_old[index / 16], (index % 16) as u64, v, (index % 16) as u64);
    assert forall|j: int| 0 <= j < s_old.len() * 16 && j != index implies counter_in(s_new, j)
        == counter_in(s_old, j) by {
        lemma_div_below(j, 16, s_old.len() as int);
        lemma_fundamental_div_mod(j, 16);
        if j / 16 == index / 16 {
            lemma_set_nibble(s_old[index / 16], (index % 16) as u64, v, (j % 16) as u64);
        }
    }
}

/// Number of zero bits among positions `[0, n)` of word `w`.
pub open spec fn zeros_in_word(w: u64, n: int) -> int
    decreases n,
{
    if n <= 0 {
        0
    } else {
        zeros_in_word(w, n - 1) + if word_bit(w, (n - 1) as u64) {
            0int
        } else {
            1int
        }
    }
}

/// Number of zero bits in the first `upto` words of `s`.
pub open spec fn zeros_in_seq(s: Seq<u64>, upto: int) -> int
    decreases upto,
{
    if upto <= 0 {
        0
    } else {
        zeros_in_seq(s, upto - 1) + zeros_in_word(s[upto - 1], 64)
    }
}

} // verus!
