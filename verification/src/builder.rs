//! The filter builder: holds the parameter record `(n, p, m, k)`, derives
//! the missing half from the given half, and decides compatibility between
//! filters. The false-positive probability is carried as an exact rational
//! `numerator / denominator` so that every derivation step stays in
//! integers.

use vstd::prelude::*;
use crate::math::MAX_ELEMENTS;
use crate::math::lemma_derived_k_bound;
use crate::math::lemma_derived_n_product_bound;
use crate::math::optimal_k;
use crate::math::optimal_m;
use crate::math::optimal_n;
use crate::math::optimal_p;
use crate::math::spec_optimal_k;
use crate::math::spec_optimal_m;
use crate::math::spec_optimal_n;
use crate::math::spec_optimal_p;

verus! {

/// The error surface at the library boundary.
#[derive(Debug, Clone, Copy, PartialEq, Eq, Structural)]
pub enum FilterError {
    /// A constructor was given a capacity of zero or above the supported
    /// maximum, a probability outside `(0, 1)`, or a bit count that is zero
    /// or not a multiple of the word width.
    InvalidParameters,
    /// A filter was reconstructed from a buffer whose bit length is not a
    /// positive multiple of the word width.
    IncompatibleSize,
}

/// The capacity argument the derivation accepts.
pub open spec fn valid_capacity(n: u64) -> bool {
    1 <= n <= MAX_ELEMENTS
}

/// A probability strictly between zero and one, as a rational.
pub open spec fn valid_probability(num: u64, den: u64) -> bool {
    1 <= num < den
}

/// The denominator under which a reconstructed builder stores its derived
/// false-positive probability.
pub const PROB_DENOMINATOR: u64 = 0x8000000000000000;

/// The derived probability, clamped into the open unit interval, as the
/// numerator over `PROB_DENOMINATOR`.
pub open spec fn stored_prob_num(p: int) -> int {
    let h = p / 2;
    if h < 1 {
        1
    } else if h >= PROB_DENOMINATOR {
        (PROB_DENOMINATOR - 1) as int
    } else {
        h
    }
}

/// The record as `complete` leaves it: `(m, k)` derived from `(n, p)`
/// unless they were already frozen.
pub open spec fn completed_config(c: FilterBuilder) -> FilterBuilder {
    if c.done {
        c
    } else {
        FilterBuilder {
            size: spec_optimal_m(
                c.expected_elements as int,
                c.false_positive_numerator as int,
                c.false_positive_denominator as int,
            ) as u64,
            hashes: spec_optimal_k(
                c.expected_elements as int,
                spec_optimal_m(
                    c.expected_elements as int,
                    c.false_positive_numerator as int,
                    c.false_positive_denominator as int,
                ),
            ) as u32,
            done: true,
            ..c
        }
    }
}

/// Builder for Bloom filters: a parameter record whose `(size, hashes)` pair
/// is frozen once `done` latches.
#[derive(Debug, Clone, Copy, PartialEq, Eq, Structural)]
pub struct FilterBuilder {
    /// The capacity `n` the filter is sized for.
    pub expected_elements: u64,
    /// Numerator of the tolerable false-positive probability `p`.
    pub false_positive_numerator: u64,
    /// Denominator of the tolerable false-positive probability `p`.
    pub false_positive_denominator: u64,
    /// The bit count `m`; zero until derived or given.
    pub size: u64,
    /// The hash count `k`; zero until derived or given.
    pub hashes: u32,
    /// Whether the counting filter increments counters for an element that
    /// is already present.
    pub enable_repeat_insert: bool,
    /// Latch: once true, `(size, hashes)` are frozen.
    pub done: bool,
}

impl FilterBuilder {
    /// Well-formedness: the probability is a rational in `(0, 1)`; before
    /// completion the capacity is in range and `(m, k)` are still unset;
    /// after completion `m` is a positive multiple of the word width and
    /// `k` is positive.
    pub open spec fn wf(&self) -> bool {
        &&& valid_probability(self.false_positive_numerator, self.false_positive_denominator)
        &&& if self.done {
            self.size >= 64 && self.size % 64 == 0 && self.hashes >= 1
        } else {
            self.size == 0 && self.hashes == 0 && valid_capacity(self.expected_elements)
        }
    }

    /// Constructs a builder from the expected element count and the
    /// tolerable false-positive probability `prob_num / prob_den`. The bit
    /// count and hash count are derived later, when the first filter is
    /// built; repeat inserts start enabled. Rejects a zero or oversized
    /// capacity and a probability outside the open unit interval.
    pub fn new(expected_elements: u64, prob_num: u64, prob_den: u64) -> (r: Result<
        FilterBuilder,
        FilterError,
    >)
        ensures
            r is Ok <==> valid_capacity(expected_elements) && valid_probability(
                prob_num,
                prob_den,
            ),
            r matches Ok(b) ==> b == (FilterBuilder {
                expected_elements,
                false_positive_numerator: prob_num,
                false_positive_denominator: prob_den,
                size: 0u64,
                hashes: 0u32,
                enable_repeat_insert: true,
                done: false,
            }) && b.wf(),
            r matches Err(e) ==> e == FilterError::InvalidParameters,
    {
        if expected_elements == 0 || expected_elements > MAX_ELEMENTS || prob_num == 0 || prob_num
            >= prob_den {
            Err(FilterError::InvalidParameters)
        } else {
            Ok(
                FilterBuilder {
                    expected_elements,
                    false_positive_numerator: prob_num,
                    false_positive_denominator: prob_den,
                    size: 0,
                    hashes: 0,
                    enable_repeat_insert: true,
                    done: false,
                },
            )
        }
    }

    /// Constructs a completed builder from a bit count and a hash count;
    /// the capacity and false-positive probability are inferred. Rejects a
    /// bit count of zero or one that is not a multiple of the word width,
    /// and a hash count of zero.
    pub fn from_size_and_hashes(size: u64, hashes: u32) -> (r: Result<FilterBuilder, FilterError>)
        ensures
            r is Ok <==> size >= 1 && size % 64 == 0 && hashes >= 1,
            r matches Ok(b) ==> {
                &&& b.wf()
                &&& b.done
                &&& b.size == size
                &&& b.hashes == hashes
                &&& b.expected_elements == spec_optimal_n(hashes as int, size as int)
                &&& b.false_positive_numerator == stored_prob_num(
                    spec_optimal_p(hashes as int, size as int, b.expected_elements as int),
                )
                &&& b.false_positive_denominator == PROB_DENOMINATOR
                &&& b.enable_repeat_insert
            },
            r matches Err(e) ==> e == FilterError::InvalidParameters,
    {
        if size == 0 || size % 64 != 0 || hashes == 0 {
            Err(FilterError::InvalidParameters)
        } else {
            let n: u64 = optimal_n(hashes, size);
            proof {
                lemma_derived_n_product_bound(hashes as int, size as int);
            }
            let p: u128 = optimal_p(hashes, size, n);
            let half: u128 = p / 2;
            let num: u64 = if half < 1 {
                1
            } else if half >= PROB_DENOMINATOR as u128 {
                PROB_DENOMINATOR - 1
            } else {
                half as u64
            };
            Ok(
                FilterBuilder {
                    expected_elements: n,
                    false_positive_numerator: num,
                    false_positive_denominator: PROB_DENOMINATOR,
                    size,
                    hashes,
                    enable_repeat_insert: true,
                    done: true,
                },
            )
        }
    }

    /// Sets the expected element count.
    pub fn expected_elements(&mut self, expected_elements: u64)
        requires
            old(self).wf(),
            valid_capacity(expected_elements),
        ensures
            final(self).wf(),
            *final(self) == (FilterBuilder { expected_elements, ..*old(self) }),
    {
        self.expected_elements = expected_elements;
    }

    /// Sets the tolerable false-positive probability `prob_num / prob_den`.
    pub fn false_positive_probability(&mut self, prob_num: u64, prob_den: u64)
        requires
            old(self).wf(),
            valid_probability(prob_num, prob_den),
        ensures
            final(self).wf(),
            *final(self) == (FilterBuilder {
                false_positive_numerator: prob_num,
                false_positive_denominator: prob_den,
                ..*old(self)
            }),
    {
        self.false_positive_numerator = prob_num;
        self.false_positive_denominator = prob_den;
    }

    /// Chooses whether the counting filter increments counters for an
    /// element that is already present.
    pub fn enable_repeat_insert(&mut self, enable: bool)
        requires
            old(self).wf(),
        ensures
            final(self).wf(),
            *final(self) == (FilterBuilder { enable_repeat_insert: enable, ..*old(self) }),
    {
        self.enable_repeat_insert = enable;
    }

    /// Derives `(m, k)` from `(n, p)` unless they are already frozen, and
    /// latches the record. Completing a completed builder changes nothing.
    pub fn complete(&mut self)
        requires
            old(self).wf(),
        ensures
            final(self).wf(),
            final(self).done,
            old(self).done ==> *final(self) == *old(self),
            !old(self).done ==> *final(self) == (FilterBuilder {
                size: spec_optimal_m(
                    old(self).expected_elements as int,
                    old(self).false_positive_numerator as int,
                    old(self).false_positive_denominator as int,
                ) as u64,
                hashes: spec_optimal_k(
                    old(self).expected_elements as int,
                    spec_optimal_m(
                        old(self).expected_elements as int,
                        old(self).false_positive_numerator as int,
                        old(self).false_positive_denominator as int,
                    ),
                ) as u32,
                done: true,
                ..*old(self)
            }),
    {
        if !self.done {
            if self.size == 0 {
                proof {
                    lemma_derived_k_bound(
                        self.expected_elements as int,
                        self.false_positive_numerator as int,
                        self.false_positive_denominator as int,
                    );
                }
                let m: u64 = optimal_m(
                    self.expected_elements,
                    self.false_positive_numerator,
                    self.false_positive_denominator,
                );
                let k: u32 = optimal_k(self.expected_elements, m);
                self.size = m;
                self.hashes = k;
            }
            self.done = true;
        }
    }

    /// Completes the record and builds a Bloom filter from it: the backing
    /// bits all start clear.
    pub fn build_bloom_filter(&mut self) -> (r: crate::bloom::BloomFilter)
        requires
            old(self).wf(),
            completed_config(*old(self)).size <= usize::MAX,
        ensures
            final(self).wf(),
            *final(self) == completed_config(*old(self)),
            r.wf(),
            r.config == *final(self),
            forall|w: int| 0 <= w < r.bit_set.storage@.len() ==> r.bit_set.storage@[w] == 0u64,
    {
        self.complete();
        crate::bloom::BloomFilter::new(self.clone())
    }

    /// Completes the record and builds a counting Bloom filter from it: all
    /// counters start at zero.
    pub fn build_counting_bloom_filter(&mut self) -> (r: crate::counting::CountingBloomFilter)
        requires
            old(self).wf(),
            completed_config(*old(self)).size <= usize::MAX,
        ensures
            final(self).wf(),
            *final(self) == completed_config(*old(self)),
            r.wf(),
            r.config == *final(self),
            forall|w: int|
                0 <= w < r.counting_vec.storage@.len() ==> r.counting_vec.storage@[w] == 0u64,
    {
        self.complete();
        crate::counting::CountingBloomFilter::new(self.clone())
    }

    /// Two configurations are compatible iff they agree on the bit count
    /// and the hash count; capacity and probability are informational.
    pub fn is_compatible_to(&self, other: &FilterBuilder) -> (r: bool)
        ensures
            r == (self.size == other.size && self.hashes == other.hashes),
    {
        self.size == other.size && self.hashes == other.hashes
    }
}

} // verus!
