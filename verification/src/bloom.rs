//! The filters: a classical Bloom filter over a bit vector and a counting
//! Bloom filter over a vector of 4-bit saturating counters. Both hash an
//! element once with two seeds and derive the `k` probed positions by double
//! hashing: the i-th position is `(h1 + i * h2) mod m`.

use vstd::prelude::*;
use vstd::arithmetic::div_mod::lemma_fundamental_div_mod;
use vstd::arithmetic::div_mod::lemma_mod_division_less_than_divisor;
use vstd::arithmetic::mul::lemma_mul_nonnegative;
use crate::builder::FilterBuilder;
use crate::builder::FilterError;
use crate::vec::BloomBitVec;
use crate::vec::lemma_div_below;
use crate::vec::lemma_or_bit;
use crate::vec::seq_bit;
use crate::vec::word_bit;

verus! {

/// The 64-bit hash of a byte string under a seed, as xxh3 computes it: a
/// pure function of the bytes and the seed alone, identical across runs,
/// processes and machines.
pub uninterp spec fn xxh3_of(data: Seq<u8>, seed: u64) -> u64;

/// Relies on xxhash_rust's `xxh3_64_with_seed`: a keyed 64-bit hash that
/// reads only the input bytes and the seed, never fails, and returns the
/// same value for the same arguments everywhere.
pub assume_specification[ xxhash_rust::xxh3::xxh3_64_with_seed ](
    input: &[u8],
    seed: u64,
) -> (r: u64)
    ensures
        r == xxh3_of(input@, seed),
;

/// The seed of the first hash.
pub const SEED_LOW: u64 = 0;

/// The seed of the second hash. Fixed for the life of the format: changing
/// either seed is a compatibility break.
pub const SEED_HIGH: u64 = 32;

/// The i-th probed position for element `e` in a filter of `m` bits:
/// `(h1 + i * h2) mod m` with both hashes first reduced mod `m`.
pub open spec fn hash_index(e: Seq<u8>, m: u64, i: int) -> int {
    (((xxh3_of(e, SEED_LOW) % m) as int) + i * ((xxh3_of(e, SEED_HIGH) % m) as int)) % (m as int)
}

/// Every probed position lies inside the bit array.
pub proof fn lemma_hash_index_range(e: Seq<u8>, m: u64, i: int)
    requires
        m >= 1,
        i >= 0,
    ensures
        0 <= hash_index(e, m, i) < m,
{
    let h1 = (xxh3_of(e, SEED_LOW) % m) as int;
    let h2 = (xxh3_of(e, SEED_HIGH) % m) as int;
    lemma_mul_nonnegative(i, h2);
    lemma_mod_division_less_than_divisor(h1 + i * h2, m as int);
}

/// Computes the two double-hashing bases of an element: each hash, reduced
/// mod the bit or counter count `size`.
pub(crate) fn element_hashes(element: &[u8], size: u64) -> (r: (u64, u64))
    requires
        size >= 1,
    ensures
        r.0 == xxh3_of(element@, SEED_LOW) % size,
        r.1 == xxh3_of(element@, SEED_HIGH) % size,
        r.0 < size,
        r.1 < size,
{
    let h1 = xxhash_rust::xxh3::xxh3_64_with_seed(element, SEED_LOW) % size;
    let h2 = xxhash_rust::xxh3::xxh3_64_with_seed(element, SEED_HIGH) % size;
    (h1, h2)
}

/// Membership at the specification level: all `k` probed bits are set.
pub open spec fn all_bits_set(s: Seq<u64>, e: Seq<u8>, m: u64, k: u32) -> bool {
    forall|i: int| 0 <= i < k ==> seq_bit(s, hash_index(e, m, i))
}

/// The word-wise OR of two equally long word sequences.
pub open spec fn or_words(s1: Seq<u64>, s2: Seq<u64>) -> Seq<u64> {
    Seq::new(s1.len(), |w: int| s1[w] | s2[w])
}

/// The word-wise AND of two equally long word sequences.
pub open spec fn and_words(s1: Seq<u64>, s2: Seq<u64>) -> Seq<u64> {
    Seq::new(s1.len(), |w: int| s1[w] & s2[w])
}

/// The word sequence with bit `idx` set.
pub open spec fn with_bit(s: Seq<u64>, idx: int) -> Seq<u64> {
    s.update(idx / 64, (s[idx / 64] | (1u64 << ((idx % 64) as u64))))
}

/// The word sequence after setting the first `j` probed bits of element `e`.
pub open spec fn with_indices(s: Seq<u64>, e: Seq<u8>, m: u64, j: nat) -> Seq<u64>
    decreases j,
{
    if j == 0 {
        s
    } else {
        with_bit(with_indices(s, e, m, (j - 1) as nat), hash_index(e, m, j - 1))
    }
}

/// Setting bit `idx` changes that bit and no other.
proof fn lemma_with_bit_bits(s: Seq<u64>, idx: int, b: int)
    requires
        0 <= idx < s.len() * 64,
        0 <= b < s.len() * 64,
    ensures
        with_bit(s, idx).len() == s.len(),
        seq_bit(with_bit(s, idx), b) == (b == idx || seq_bit(s, b)),
{
    lemma_div_below(idx, 64, s.len() as int);
    lemma_div_below(b, 64, s.len() as int);
    lemma_fundamental_div_mod(idx, 64);
    lemma_fundamental_div_mod(b, 64);
    lemma_mod_division_less_than_divisor(idx, 64);
    lemma_mod_division_less_than_divisor(b, 64);
    if b / 64 == idx / 64 {
        lemma_or_bit(s[idx / 64], (idx % 64) as u64, (b % 64) as u64);
    }
}

/// Setting the first `j` probed bits of `e` sets exactly those bits: a bit
/// ends set iff it was set before or is one of the probed positions.
pub proof fn lemma_with_indices_bits(s: Seq<u64>, e: Seq<u8>, m: u64, j: nat, b: int)
    requires
        m >= 1,
        s.len() * 64 == m,
        0 <= b < m,
    ensures
        with_indices(s, e, m, j).len() == s.len(),
        seq_bit(with_indices(s, e, m, j), b) == (seq_bit(s, b) || exists|i: int|
            0 <= i < j && hash_index(e, m, i) == b),
    decreases j,
{
    if j == 0 {
    } else {
        let prev = with_indices(s, e, m, (j - 1) as nat);
        lemma_with_indices_bits(s, e, m, (j - 1) as nat, b);
        lemma_hash_index_range(e, m, j - 1);
        lemma_with_bit_bits(prev, hash_index(e, m, j - 1), b);
        if seq_bit(with_indices(s, e, m, j), b) {
            if b == hash_index(e, m, j - 1) {
                assert(0 <= j - 1 < j && hash_index(e, m, j - 1) == b);
            } else if !seq_bit(s, b) {
                let i = choose|i: int| 0 <= i < j - 1 && hash_index(e, m, i) == b;
                assert(0 <= i < j && hash_index(e, m, i) == b);
            }
        }
    }
}

/// A length at most `usize::MAX / unit` scales by `unit` without leaving
/// the address space.
pub(crate) proof fn lemma_size_fits(len: int, unit: int)
    requires
        0 <= len,
        1 <= unit,
        len <= (usize::MAX as int) / unit,
    ensures
        len * unit <= usize::MAX,
{
    lemma_fundamental_div_mod(usize::MAX as int, unit);
    lemma_mod_division_less_than_divisor(usize::MAX as int, unit);
    vstd::arithmetic::mul::lemma_mul_inequality(len, (usize::MAX as int) / unit, unit);
    assert(((usize::MAX as int) / unit) * unit == unit * ((usize::MAX as int) / unit))
        by (nonlinear_arith);
}

/// An array of `len` units of `unit` bits holds a whole number of 64-bit
/// words when `len` is a multiple of the per-word unit count `group`.
pub(crate) proof fn lemma_size_aligned(len: int, unit: int, group: int)
    requires
        0 <= len,
        0 < group,
        len % group == 0,
        unit * group == 64,
    ensures
        (len * unit) % 64 == 0,
{
    lemma_fundamental_div_mod(len, group);
    let t = len / group;
    assert((group * t) * unit == 64 * t) by (nonlinear_arith)
        requires
            unit * group == 64,
    ;
    vstd::arithmetic::div_mod::lemma_mod_multiples_basic(t, 64);
}

/// The decoded word count times the per-word slot count is the array
/// length times the per-unit slot count: a reconstructed vector has
/// exactly the advertised capacity.
pub(crate) proof fn lemma_words_size(len: int, group: int, unit: int, per: int)
    requires
        0 <= len,
        0 < group,
        len % group == 0,
        group * unit == per,
    ensures
        (len / group) * per == len * unit,
{
    lemma_fundamental_div_mod(len, group);
    let t = len / group;
    assert((group * t) * unit == t * per) by (nonlinear_arith)
        requires
            group * unit == per,
    ;
}

/// A multiple of a larger modulus is a multiple of each of its factors.
pub(crate) proof fn lemma_mod_divides(len: int, big: int, small: int, f: int)
    requires
        0 <= len,
        0 < big,
        0 < small,
        len % big == 0,
        small * f == big,
    ensures
        len % small == 0,
{
    lemma_fundamental_div_mod(len, big);
    let t = len / big;
    assert(big * t == small * (f * t)) by (nonlinear_arith)
        requires
            small * f == big,
    ;
    assert((f * t) * small == small * (f * t)) by (nonlinear_arith);
    assert(len == (f * t) * small);
    vstd::arithmetic::div_mod::lemma_mod_multiples_basic(f * t, small);
}

/// A Bloom filter: a space-efficient probabilistic set that answers
/// membership with no false negatives and a tunable false-positive rate.
#[derive(Debug, Clone)]
pub struct BloomFilter {
    /// The frozen parameter record.
    pub config: FilterBuilder,
    /// The backing bit array of `config.size` bits.
    pub bit_set: BloomBitVec,
}

impl BloomFilter {
    /// Well-formedness: the configuration is complete and the bit array has
    /// exactly `config.size` bits.
    pub open spec fn wf(&self) -> bool {
        &&& self.config.wf()
        &&& self.config.done
        &&& self.config.size <= usize::MAX
        &&& self.bit_set.wf()
        &&& self.bit_set.nbits == self.config.size
    }

    /// Membership of a byte string at the specification level.
    pub open spec fn contains_spec(&self, e: Seq<u8>) -> bool {
        all_bits_set(self.bit_set.storage@, e, self.config.size, self.config.hashes)
    }

    /// Builds a Bloom filter from a builder, completing it first. The
    /// backing bits all start clear.
    pub fn new(config: FilterBuilder) -> (r: BloomFilter)
        requires
            config.wf(),
            crate::builder::completed_config(config).size <= usize::MAX,
        ensures
            r.wf(),
            r.config == crate::builder::completed_config(config),
            r.bit_set.storage@.len() * 64 == r.config.size,
            forall|w: int| 0 <= w < r.bit_set.storage@.len() ==> r.bit_set.storage@[w] == 0u64,
    {
        let mut config = config;
        config.complete();
        let slots: usize = (config.size / 64) as usize;
        proof {
            lemma_fundamental_div_mod(config.size as int, 64);
            lemma_mod_division_less_than_divisor(config.size as int, 64);
        }
        let bit_set = BloomBitVec::new(slots);
        BloomFilter { config, bit_set }
    }

    /// Returns the configuration of the filter.
    pub fn config(&self) -> (r: FilterBuilder)
        ensures
            r == self.config,
    {
        self.config.clone()
    }

    /// Returns the hash count of the filter.
    pub fn hashes(&self) -> (r: u32)
        ensures
            r == self.config.hashes,
    {
        self.config.hashes
    }

    /// Adds the element: sets its `k` probed bits and touches nothing else.
    pub fn add(&mut self, element: &[u8])
        requires
            old(self).wf(),
        ensures
            final(self).wf(),
            final(self).config == old(self).config,
            final(self).bit_set.storage@ == with_indices(
                old(self).bit_set.storage@,
                element@,
                old(self).config.size,
                old(self).config.hashes as nat,
            ),
            final(self).contains_spec(element@),
            forall|x: Seq<u8>| old(self).contains_spec(x) ==> final(self).contains_spec(x),
    {
        let ghost s0 = self.bit_set.storage@;
        let ghost m = self.config.size;
        let ghost e = element@;
        let (h1, h2) = element_hashes(element, self.config.size);
        let k: u32 = self.config.hashes;
        let mut i: u32 = 0;
        while i < k
            invariant
                self.wf(),
                self.config == old(self).config,
                s0 == old(self).bit_set.storage@,
                i <= k,
                k == self.config.hashes,
                m == self.config.size,
                e == element@,
                h1 == xxh3_of(e, SEED_LOW) % m,
                h2 == xxh3_of(e, SEED_HIGH) % m,
                h1 < m,
                h2 < m,
                self.bit_set.storage@ == with_indices(s0, e, m, i as nat),
            decreases k - i,
        {
            proof {
                lemma_hash_index_range(e, m, i as int);
                vstd::arithmetic::mul::lemma_mul_upper_bound(
                    i as int,
                    u32::MAX as int,
                    h2 as int,
                    u64::MAX as int,
                );
            }
            let idx: u64 = (((h1 as u128) + (i as u128) * (h2 as u128)) % (
            self.config.size as u128)) as u64;
            assert(idx == hash_index(e, m, i as int));
            self.bit_set.set(idx);
            i = i + 1;
        }
        proof {
            lemma_membership_after_add(s0, e, m, k);
            assert forall|x: Seq<u8>| old(self).contains_spec(x) implies self.contains_spec(x) by {
                lemma_add_preserves_membership(s0, e, x, m, k);
            }
        }
    }

    /// Tests whether the element is possibly present: true iff all `k`
    /// probed bits are set. An element that was added is always reported
    /// present; an element never added is reported present only by hash
    /// collision, with the configured probability.
    pub fn contains(&self, element: &[u8]) -> (r: bool)
        requires
            self.wf(),
        ensures
            r == self.contains_spec(element@),
    {
        let ghost m = self.config.size;
        let ghost e = element@;
        let (h1, h2) = element_hashes(element, self.config.size);
        let k: u32 = self.config.hashes;
        let mut i: u32 = 0;
        while i < k
            invariant
                self.wf(),
                i <= k,
                k == self.config.hashes,
                m == self.config.size,
                e == element@,
                h1 == xxh3_of(e, SEED_LOW) % m,
                h2 == xxh3_of(e, SEED_HIGH) % m,
                h1 < m,
                h2 < m,
                forall|j: int| 0 <= j < i ==> seq_bit(self.bit_set.storage@, hash_index(e, m, j)),
            decreases k - i,
        {
            proof {
                lemma_hash_index_range(e, m, i as int);
                vstd::arithmetic::mul::lemma_mul_upper_bound(
                    i as int,
                    u32::MAX as int,
                    h2 as int,
                    u64::MAX as int,
                );
            }
            let idx: u64 = (((h1 as u128) + (i as u128) * (h2 as u128)) % (
            self.config.size as u128)) as u64;
            assert(idx == hash_index(e, m, i as int));
            if !self.bit_set.get(idx) {
                proof {
                    assert(!seq_bit(self.bit_set.storage@, hash_index(e, m, i as int)));
                    assert(!all_bits_set(self.bit_set.storage@, e, m, k));
                }
                return false;
            }
            i = i + 1;
        }
        true
    }

    /// Returns the `k` probed bit positions of the element, in probe order.
    pub fn get_hash_indices(&self, element: &[u8]) -> (r: Vec<u64>)
        requires
            self.wf(),
        ensures
            r@.len() == self.config.hashes,
            forall|i: int| 0 <= i < r@.len() ==> r@[i] == hash_index(element@, self.config.size, i),
            forall|i: int| 0 <= i < r@.len() ==> r@[i] < self.config.size,
    {
        let ghost m = self.config.size;
        let ghost e = element@;
        let (h1, h2) = element_hashes(element, self.config.size);
        let k: u32 = self.config.hashes;
        let mut res: Vec<u64> = Vec::new();
        let mut i: u32 = 0;
        while i < k
            invariant
                self.wf(),
                i <= k,
                k == self.config.hashes,
                m == self.config.size,
                e == element@,
                h1 == xxh3_of(e, SEED_LOW) % m,
                h2 == xxh3_of(e, SEED_HIGH) % m,
                h1 < m,
                h2 < m,
                res@.len() == i,
                forall|j: int| 0 <= j < i ==> res@[j] == hash_index(e, m, j),
                forall|j: int| 0 <= j < i ==> res@[j] < m,
            decreases k - i,
        {
            proof {
                lemma_hash_index_range(e, m, i as int);
                vstd::arithmetic::mul::lemma_mul_upper_bound(
                    i as int,
                    u32::MAX as int,
                    h2 as int,
                    u64::MAX as int,
                );
            }
            let idx: u64 = (((h1 as u128) + (i as u128) * (h2 as u128)) % (
            self.config.size as u128)) as u64;
            assert(idx == hash_index(e, m, i as int));
            res.push(idx);
            i = i + 1;
        }
        res
    }

    /// Tests whether every listed bit position is set. The positions must
    /// lie inside the bit array, as those from `get_hash_indices` do.
    pub fn contains_hash_indices(&self, indices: &Vec<u64>) -> (r: bool)
        requires
            self.wf(),
            forall|i: int| 0 <= i < indices@.len() ==> indices@[i] < self.config.size,
        ensures
            r == forall|i: int|
                0 <= i < indices@.len() ==> seq_bit(self.bit_set.storage@, indices@[i] as int),
    {
        let n: usize = indices.len();
        let mut i: usize = 0;
        while i < n
            invariant
                self.wf(),
                i <= n,
                n == indices@.len(),
                forall|j: int| 0 <= j < indices@.len() ==> indices@[j] < self.config.size,
                forall|j: int| 0 <= j < i ==> seq_bit(self.bit_set.storage@, indices@[j] as int),
            decreases n - i,
        {
            if !self.bit_set.get(indices[i]) {
                return false;
            }
            i = i + 1;
        }
        true
    }

    /// Clears every bit.
    pub fn clear(&mut self)
        requires
            old(self).wf(),
        ensures
            final(self).wf(),
            final(self).config == old(self).config,
            final(self).bit_set.storage@.len() == old(self).bit_set.storage@.len(),
            forall|w: int|
                0 <= w < final(self).bit_set.storage@.len() ==> final(self).bit_set.storage@[w]
                    == 0u64,
    {
        self.bit_set.clear();
    }

    /// Whether the two filters agree on bit count and hash count.
    fn compatible(&self, other: &BloomFilter) -> (r: bool)
        ensures
            r == (self.config.size == other.config.size && self.config.hashes
                == other.config.hashes),
    {
        self.config.is_compatible_to(&other.config)
    }

    /// Union with a compatible filter: bitwise OR of the backing arrays,
    /// returning true. On incompatible filters: no mutation, false.
    pub fn union(&mut self, other: &BloomFilter) -> (r: bool)
        requires
            old(self).wf(),
            other.wf(),
        ensures
            final(self).wf(),
            final(self).config == old(self).config,
            r == (old(self).config.size == other.config.size && old(self).config.hashes
                == other.config.hashes),
            r ==> final(self).bit_set.storage@ == or_words(
                old(self).bit_set.storage@,
                other.bit_set.storage@,
            ),
            !r ==> *final(self) == *old(self),
    {
        if self.compatible(other) {
            let ghost s0 = self.bit_set.storage@;
            self.bit_set.or(&other.bit_set);
            proof {
                assert(self.bit_set.storage@ =~= or_words(s0, other.bit_set.storage@));
            }
            true
        } else {
            false
        }
    }

    /// Intersection with a compatible filter: bitwise AND of the backing
    /// arrays, returning true. On incompatible filters: no mutation, false.
    pub fn intersect(&mut self, other: &BloomFilter) -> (r: bool)
        requires
            old(self).wf(),
            other.wf(),
        ensures
            final(self).wf(),
            final(self).config == old(self).config,
            r == (old(self).config.size == other.config.size && old(self).config.hashes
                == other.config.hashes),
            r ==> final(self).bit_set.storage@ == and_words(
                old(self).bit_set.storage@,
                other.bit_set.storage@,
            ),
            !r ==> *final(self) == *old(self),
    {
        if self.compatible(other) {
            let ghost s0 = self.bit_set.storage@;
            self.bit_set.and(&other.bit_set);
            proof {
                assert(self.bit_set.storage@ =~= and_words(s0, other.bit_set.storage@));
            }
            true
        } else {
            false
        }
    }

    /// True iff the filter holds no backing words at all, which is distinct
    /// from every bit being zero.
    pub fn is_empty(&self) -> (r: bool)
        ensures
            r == (self.bit_set.storage@.len() == 0),
    {
        self.bit_set.is_empty()
    }

    /// Returns the backing storage as its little-endian byte image: the
    /// flat, portable export of the filter, `size / 8` bytes long.
    pub fn get_u8_array(&self) -> (r: Vec<u8>)
        requires
            self.wf(),
        ensures
            r@ == crate::codec::bytes_of_words(self.bit_set.storage@),
    {
        crate::codec::words_to_bytes(&self.bit_set.storage)
    }

    /// Returns the backing storage as little-endian 16-bit values.
    pub fn get_u16_array(&self) -> (r: Vec<u16>)
        requires
            self.wf(),
        ensures
            r@ == crate::codec::halves_of_words(self.bit_set.storage@),
    {
        crate::codec::words_to_halves(&self.bit_set.storage)
    }

    /// Returns the backing storage as little-endian 32-bit values.
    pub fn get_u32_array(&self) -> (r: Vec<u32>)
        requires
            self.wf(),
        ensures
            r@ == crate::codec::quads_of_words(self.bit_set.storage@),
    {
        crate::codec::words_to_quads(&self.bit_set.storage)
    }

    /// Returns the backing storage as its 64-bit words.
    pub fn get_u64_array(&self) -> (r: Vec<u64>)
        requires
            self.wf(),
        ensures
            r@ == self.bit_set.storage@,
    {
        crate::codec::copy_words(self.bit_set.storage.as_slice())
    }

    /// Reconstructs a filter from a byte image and a hash count. The bytes
    /// are copied; the image must be a whole positive number of 64-bit
    /// words, else the reconstruction fails with an incompatible size.
    pub fn from_u8_array(array: &[u8], hashes: u32) -> (r: Result<BloomFilter, FilterError>)
        ensures
            r is Ok <==> (1 <= array@.len() && array@.len() % 8 == 0 && array@.len() <= usize::MAX
                / 8 && hashes >= 1),
            r matches Ok(f) ==> {
                &&& f.wf()
                &&& f.config.size == array@.len() * 8
                &&& f.config.hashes == hashes
                &&& f.bit_set.storage@ == crate::codec::words_of_bytes(array@)
            },
            (array@.len() == 0 || array@.len() % 8 != 0 || array@.len() > usize::MAX / 8) ==> r
                == Err::<BloomFilter, FilterError>(FilterError::IncompatibleSize),
            (1 <= array@.len() && array@.len() % 8 == 0 && array@.len() <= usize::MAX / 8 && hashes
                == 0) ==> r == Err::<BloomFilter, FilterError>(FilterError::InvalidParameters),
    {
        let len: usize = array.len();
        if len == 0 || len % 8 != 0 || len > usize::MAX / 8 {
            return Err(FilterError::IncompatibleSize);
        }
        let size: u64 = (len as u64) * 8;
        proof {
            lemma_size_fits(len as int, 8);
            lemma_size_aligned(len as int, 8, 8);
        }
        let config = match FilterBuilder::from_size_and_hashes(size, hashes) {
            Ok(c) => c,
            Err(e) => {
                return Err(e);
            },
        };
        let words = crate::codec::bytes_to_words(array);
        proof {
            lemma_words_size(len as int, 8, 8, 64);
        }
        Ok(BloomFilter { config, bit_set: BloomBitVec { storage: words, nbits: size } })
    }

    /// Reconstructs a filter from a 16-bit image and a hash count.
    pub fn from_u16_array(array: &[u16], hashes: u32) -> (r: Result<BloomFilter, FilterError>)
        ensures
            r is Ok <==> (1 <= array@.len() && array@.len() % 4 == 0 && array@.len() <= usize::MAX
                / 16 && hashes >= 1),
            r matches Ok(f) ==> {
                &&& f.wf()
                &&& f.config.size == array@.len() * 16
                &&& f.config.hashes == hashes
                &&& f.bit_set.storage@ == crate::codec::words_of_halves(array@)
            },
            (array@.len() == 0 || array@.len() % 4 != 0 || array@.len() > usize::MAX / 16) ==> r
                == Err::<BloomFilter, FilterError>(FilterError::IncompatibleSize),
            (1 <= array@.len() && array@.len() % 4 == 0 && array@.len() <= usize::MAX / 16 && hashes
                == 0) ==> r == Err::<BloomFilter, FilterError>(FilterError::InvalidParameters),
    {
        let len: usize = array.len();
        if len == 0 || len % 4 != 0 || len > usize::MAX / 16 {
            return Err(FilterError::IncompatibleSize);
        }
        let size: u64 = (len as u64) * 16;
        proof {
            lemma_size_fits(len as int, 16);
            lemma_size_aligned(len as int, 16, 4);
        }
        let config = match FilterBuilder::from_size_and_hashes(size, hashes) {
            Ok(c) => c,
            Err(e) => {
                return Err(e);
            },
        };
        let words = crate::codec::halves_to_words(array);
        proof {
            lemma_words_size(len as int, 4, 16, 64);
        }
        Ok(BloomFilter { config, bit_set: BloomBitVec { storage: words, nbits: size } })
    }

    /// Reconstructs a filter from a 32-bit image and a hash count.
    pub fn from_u32_array(array: &[u32], hashes: u32) -> (r: Result<BloomFilter, FilterError>)
        ensures
            r is Ok <==> (1 <= array@.len() && array@.len() % 2 == 0 && array@.len() <= usize::MAX
                / 32 && hashes >= 1),
            r matches Ok(f) ==> {
                &&& f.wf()
                &&& f.config.size == array@.len() * 32
                &&& f.config.hashes == hashes
                &&& f.bit_set.storage@ == crate::codec::words_of_quads(array@)
            },
            (array@.len() == 0 || array@.len() % 2 != 0 || array@.len() > usize::MAX / 32) ==> r
                == Err::<BloomFilter, FilterError>(FilterError::IncompatibleSize),
            (1 <= array@.len() && array@.len() % 2 == 0 && array@.len() <= usize::MAX / 32 && hashes
                == 0) ==> r == Err::<BloomFilter, FilterError>(FilterError::InvalidParameters),
    {
        let len: usize = array.len();
        if len == 0 || len % 2 != 0 || len > usize::MAX / 32 {
            return Err(FilterError::IncompatibleSize);
        }
        let size: u64 = (len as u64) * 32;
        proof {
            lemma_size_fits(len as int, 32);
            lemma_size_aligned(len as int, 32, 2);
        }
        let config = match FilterBuilder::from_size_and_hashes(size, hashes) {
            Ok(c) => c,
            Err(e) => {
                return Err(e);
            },
        };
        let words = crate::codec::quads_to_words(array);
        proof {
            lemma_words_size(len as int, 2, 32, 64);
        }
        Ok(BloomFilter { config, bit_set: BloomBitVec { storage: words, nbits: size } })
    }

    /// Reconstructs a filter from its 64-bit words and a hash count.
    pub fn from_u64_array(array: &[u64], hashes: u32) -> (r: Result<BloomFilter, FilterError>)
        ensures
            r is Ok <==> (1 <= array@.len() && array@.len() <= usize::MAX / 64 && hashes >= 1),
            r matches Ok(f) ==> {
                &&& f.wf()
                &&& f.config.size == array@.len() * 64
                &&& f.config.hashes == hashes
                &&& f.bit_set.storage@ == array@
            },
            (array@.len() == 0 || array@.len() > usize::MAX / 64) ==> r == Err::<
                BloomFilter,
                FilterError,
            >(FilterError::IncompatibleSize),
            (1 <= array@.len() && array@.len() <= usize::MAX / 64 && hashes == 0) ==> r == Err::<
                BloomFilter,
                FilterError,
            >(FilterError::InvalidParameters),
    {
        let len: usize = array.len();
        if len == 0 || len > usize::MAX / 64 {
            return Err(FilterError::IncompatibleSize);
        }
        let size: u64 = (len as u64) * 64;
        proof {
            lemma_size_fits(len as int, 64);
            lemma_size_aligned(len as int, 64, 1);
        }
        let config = match FilterBuilder::from_size_and_hashes(size, hashes) {
            Ok(c) => c,
            Err(e) => {
                return Err(e);
            },
        };
        let words = crate::codec::copy_words(array);
        Ok(BloomFilter { config, bit_set: BloomBitVec { storage: words, nbits: size } })
    }

    /// Replaces the backing bit vector with one of matching capacity.
    pub fn set_bit_vec(&mut self, bit_vec: BloomBitVec)
        requires
            old(self).wf(),
            bit_vec.wf(),
            bit_vec.nbits == old(self).config.size,
        ensures
            final(self).wf(),
            final(self).config == old(self).config,
            final(self).bit_set == bit_vec,
    {
        self.bit_set = bit_vec;
    }

    /// Adds the element unless it is already (probably) present. Returns
    /// true iff the element was absent before the call; either way the
    /// element is present afterwards. The test and the add are not atomic:
    /// callers that share a filter across threads must lock around it.
    pub fn add_if_not_contains(&mut self, element: &[u8]) -> (r: bool)
        requires
            old(self).wf(),
        ensures
            final(self).wf(),
            final(self).config == old(self).config,
            r == !old(self).contains_spec(element@),
            r ==> final(self).bit_set.storage@ == with_indices(
                old(self).bit_set.storage@,
                element@,
                old(self).config.size,
                old(self).config.hashes as nat,
            ),
            !r ==> *final(self) == *old(self),
            final(self).contains_spec(element@),
    {
        if self.contains(element) {
            false
        } else {
            self.add(element);
            true
        }
    }
}

/// Law: no false negatives, one step. Adding an element sets all of its
/// probed bits, so the element is reported present immediately afterwards.
pub proof fn lemma_membership_after_add(s: Seq<u64>, e: Seq<u8>, m: u64, k: u32)
    requires
        m >= 1,
        s.len() * 64 == m,
    ensures
        all_bits_set(with_indices(s, e, m, k as nat), e, m, k),
{
    assert forall|i: int| 0 <= i < k implies seq_bit(
        with_indices(s, e, m, k as nat),
        hash_index(e, m, i),
    ) by {
        lemma_hash_index_range(e, m, i);
        lemma_with_indices_bits(s, e, m, k as nat, hash_index(e, m, i));
    }
}

/// Law: no false negatives, preservation. An add never clears a bit, so
/// every element reported present stays present across any later add.
pub proof fn lemma_add_preserves_membership(s: Seq<u64>, added: Seq<u8>, x: Seq<u8>, m: u64, k: u32)
    requires
        m >= 1,
        s.len() * 64 == m,
        all_bits_set(s, x, m, k),
    ensures
        all_bits_set(with_indices(s, added, m, k as nat), x, m, k),
{
    assert forall|i: int| 0 <= i < k implies seq_bit(
        with_indices(s, added, m, k as nat),
        hash_index(x, m, i),
    ) by {
        lemma_hash_index_range(x, m, i);
        lemma_with_indices_bits(s, added, m, k as nat, hash_index(x, m, i));
    }
}

/// A bit of an OR of words is set iff it is set in either operand.
proof fn lemma_or_word_bit(w1: u64, w2: u64, b: u64)
    by (bit_vector)
    requires
        b < 64,
    ensures
        word_bit(w1 | w2, b) == (word_bit(w1, b) || word_bit(w2, b)),
{
}

/// A bit of an AND of words is set iff it is set in both operands.
proof fn lemma_and_word_bit(w1: u64, w2: u64, b: u64)
    by (bit_vector)
    requires
        b < 64,
    ensures
        word_bit(w1 & w2, b) == (word_bit(w1, b) && word_bit(w2, b)),
{
}

/// Law: union never loses membership. An element present in either operand
/// is present in the word-wise OR of two compatible filters.
pub proof fn lemma_union_membership(s1: Seq<u64>, s2: Seq<u64>, e: Seq<u8>, m: u64, k: u32)
    requires
        m >= 1,
        s1.len() == s2.len(),
        s1.len() * 64 == m,
        all_bits_set(s1, e, m, k) || all_bits_set(s2, e, m, k),
    ensures
        all_bits_set(or_words(s1, s2), e, m, k),
{
    assert forall|i: int| 0 <= i < k implies seq_bit(or_words(s1, s2), hash_index(e, m, i)) by {
        lemma_hash_index_range(e, m, i);
        let b = hash_index(e, m, i);
        lemma_div_below(b, 64, s1.len() as int);
        lemma_mod_division_less_than_divisor(b, 64);
        lemma_or_word_bit(s1[b / 64], s2[b / 64], (b % 64) as u64);
    }
}

/// Law: intersection never invents membership. An element present in the
/// word-wise AND of two compatible filters is present in both operands.
pub proof fn lemma_intersect_membership(s1: Seq<u64>, s2: Seq<u64>, e: Seq<u8>, m: u64, k: u32)
    requires
        m >= 1,
        s1.len() == s2.len(),
        s1.len() * 64 == m,
        all_bits_set(and_words(s1, s2), e, m, k),
    ensures
        all_bits_set(s1, e, m, k),
        all_bits_set(s2, e, m, k),
{
    assert forall|i: int|
        0 <= i < k implies seq_bit(s1, hash_index(e, m, i)) && seq_bit(
        s2,
        hash_index(e, m, i),
    ) by {
        lemma_hash_index_range(e, m, i);
        let b = hash_index(e, m, i);
        lemma_div_below(b, 64, s1.len() as int);
        lemma_mod_division_less_than_divisor(b, 64);
        lemma_and_word_bit(s1[b / 64], s2[b / 64], (b % 64) as u64);
    }
}

/// The backing image after adding a sequence of elements in order.
pub open spec fn with_elements(s: Seq<u64>, elems: Seq<Seq<u8>>, m: u64, k: u32) -> Seq<u64>
    decreases elems.len(),
{
    if elems.len() == 0 {
        s
    } else {
        with_indices(with_elements(s, elems.drop_last(), m, k), elems.last(), m, k as nat)
    }
}

/// The image of a sequence of adds spans the same words as the start.
proof fn lemma_with_elements_len(s: Seq<u64>, elems: Seq<Seq<u8>>, m: u64, k: u32)
    requires
        m >= 1,
        s.len() * 64 == m,
    ensures
        with_elements(s, elems, m, k).len() == s.len(),
    decreases elems.len(),
{
    if elems.len() == 0 {
    } else {
        lemma_with_elements_len(s, elems.drop_last(), m, k);
        lemma_with_indices_bits(with_elements(s, elems.drop_last(), m, k), elems.last(), m, k as nat, 0);
    }
}

/// Law: no false negatives. After any sequence of adds, every element of
/// the sequence is reported present: each add sets all of the element's
/// probed bits and no add ever clears a bit.
pub proof fn lemma_no_false_negatives(s: Seq<u64>, elems: Seq<Seq<u8>>, e: Seq<u8>, m: u64, k: u32)
    requires
        m >= 1,
        s.len() * 64 == m,
        elems.contains(e),
    ensures
        all_bits_set(with_elements(s, elems, m, k), e, m, k),
    decreases elems.len(),
{
    let prefix = elems.drop_last();
    lemma_with_elements_len(s, prefix, m, k);
    if elems.last() == e {
        lemma_membership_after_add(with_elements(s, prefix, m, k), e, m, k);
    } else {
        let i = choose|i: int| 0 <= i < elems.len() && elems[i] == e;
        assert(prefix[i] == e);
        assert(prefix.contains(e));
        lemma_no_false_negatives(s, prefix, e, m, k);
        lemma_add_preserves_membership(with_elements(s, prefix, m, k), elems.last(), e, m, k);
    }
}

/// Law: determinism. The byte image after any sequence of adds is a pure
/// function of the starting image, the parameters and the bytes added: two
/// filters that start equal and receive the same elements stay equal, on
/// every machine and in every run, because the hash is a pure function of
/// its arguments.
pub proof fn lemma_image_deterministic(
    s1: Seq<u64>,
    s2: Seq<u64>,
    elems: Seq<Seq<u8>>,
    m: u64,
    k: u32,
)
    requires
        s1 == s2,
    ensures
        with_elements(s1, elems, m, k) == with_elements(s2, elems, m, k),
{
}

/// Law: reconstruction answers membership identically. Two filters that
/// agree on backing words, bit count and hash count answer every query the
/// same, so an export plus reconstruction preserves behaviour.
pub proof fn lemma_same_image_same_membership(f1: BloomFilter, f2: BloomFilter)
    requires
        f1.bit_set.storage@ == f2.bit_set.storage@,
        f1.config.size == f2.config.size,
        f1.config.hashes == f2.config.hashes,
    ensures
        forall|e: Seq<u8>| f1.contains_spec(e) == f2.contains_spec(e),
{
}

/// Setting a bit that is already set changes nothing at all.
proof fn lemma_or_bit_already_set(w: u64, b: u64)
    by (bit_vector)
    requires
        b < 64,
        word_bit(w, b),
    ensures
        w | (1u64 << b) == w,
{
}

/// Setting an already-set bit leaves the word sequence untouched.
proof fn lemma_with_bit_noop(s: Seq<u64>, idx: int)
    requires
        0 <= idx < s.len() * 64,
        seq_bit(s, idx),
    ensures
        with_bit(s, idx) == s,
{
    lemma_div_below(idx, 64, s.len() as int);
    lemma_mod_division_less_than_divisor(idx, 64);
    lemma_or_bit_already_set(s[idx / 64], (idx % 64) as u64);
    assert(with_bit(s, idx) =~= s);
}

/// Setting probed bits that are all already set leaves the words untouched.
proof fn lemma_with_indices_noop(s: Seq<u64>, e: Seq<u8>, m: u64, j: nat, k: u32)
    requires
        m >= 1,
        s.len() * 64 == m,
        j <= k,
        all_bits_set(s, e, m, k),
    ensures
        with_indices(s, e, m, j) == s,
    decreases j,
{
    if j == 0 {
    } else {
        lemma_with_indices_noop(s, e, m, (j - 1) as nat, k);
        lemma_hash_index_range(e, m, j - 1);
        lemma_with_bit_noop(s, hash_index(e, m, j - 1));
    }
}

/// Law: adding an element twice leaves the backing words exactly as one
/// add leaves them, byte for byte.
pub proof fn lemma_add_idempotent(s: Seq<u64>, e: Seq<u8>, m: u64, k: u32)
    requires
        m >= 1,
        s.len() * 64 == m,
    ensures
        with_indices(with_indices(s, e, m, k as nat), e, m, k as nat) == with_indices(
            s,
            e,
            m,
            k as nat,
        ),
{
    let once = with_indices(s, e, m, k as nat);
    lemma_with_indices_bits(s, e, m, k as nat, 0);
    lemma_membership_after_add(s, e, m, k);
    lemma_with_indices_noop(once, e, m, k as nat, k);
}

} // verus!
