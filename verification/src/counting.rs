//! The counting Bloom filter: every bit of the plain filter becomes a 4-bit
//! saturating counter, which makes removal possible. Adds increment the `k`
//! probed counters, removes decrement them when the element is present, and
//! a counter stuck at 15 keeps the no-false-negatives guarantee at the cost
//! of staying set.

use vstd::prelude::*;
use vstd::arithmetic::div_mod::lemma_fundamental_div_mod;
use vstd::arithmetic::div_mod::lemma_mod_division_less_than_divisor;
use crate::bloom::SEED_HIGH;
use crate::bloom::SEED_LOW;
use crate::bloom::element_hashes;
use crate::bloom::hash_index;
use crate::bloom::lemma_hash_index_range;
use crate::bloom::xxh3_of;
use crate::builder::FilterBuilder;
use crate::builder::FilterError;
use crate::vec::CountingVec;
use crate::vec::counter_in;
use crate::vec::lemma_counter_update;
use crate::vec::lemma_div_below;
use crate::vec::set_nibble;

verus! {

/// Presence at the specification level: all `k` probed counters are
/// positive.
pub open spec fn all_counters_set(s: Seq<u64>, e: Seq<u8>, m: u64, k: u32) -> bool {
    forall|i: int| 0 <= i < k ==> counter_in(s, hash_index(e, m, i)) > 0
}

/// The word sequence with counter `idx` incremented, saturating at 15.
pub open spec fn with_increment(s: Seq<u64>, idx: int) -> Seq<u64> {
    let c = counter_in(s, idx);
    if c < 15 {
        s.update(idx / 16, set_nibble(s[idx / 16], (idx % 16) as u64, (c + 1) as u64))
    } else {
        s
    }
}

/// The word sequence after incrementing the first `j` probed counters.
pub open spec fn with_increments(s: Seq<u64>, e: Seq<u8>, m: u64, j: nat) -> Seq<u64>
    decreases j,
{
    if j == 0 {
        s
    } else {
        with_increment(with_increments(s, e, m, (j - 1) as nat), hash_index(e, m, j - 1))
    }
}

/// The word sequence with counter `idx` decremented, stopping at 0.
pub open spec fn with_decrement(s: Seq<u64>, idx: int) -> Seq<u64> {
    let c = counter_in(s, idx);
    if c > 0 {
        s.update(idx / 16, set_nibble(s[idx / 16], (idx % 16) as u64, (c - 1) as u64))
    } else {
        s
    }
}

/// The word sequence after decrementing the first `j` probed counters.
pub open spec fn with_decrements(s: Seq<u64>, e: Seq<u8>, m: u64, j: nat) -> Seq<u64>
    decreases j,
{
    if j == 0 {
        s
    } else {
        with_decrement(with_decrements(s, e, m, (j - 1) as nat), hash_index(e, m, j - 1))
    }
}

/// The least of the first `j` probed counters; 15, the counter ceiling,
/// when no probe has been taken yet.
pub open spec fn min_counter(s: Seq<u64>, e: Seq<u8>, m: u64, j: nat) -> u64
    decreases j,
{
    if j == 0 {
        15u64
    } else {
        let c = counter_in(s, hash_index(e, m, j - 1));
        let rest = min_counter(s, e, m, (j - 1) as nat);
        if c < rest {
            c
        } else {
            rest
        }
    }
}

/// Incrementing one counter moves that counter up by one unless it sits at
/// the ceiling, and leaves every other counter alone.
proof fn lemma_with_increment_counters(s: Seq<u64>, idx: int, b: int)
    requires
        0 <= idx < s.len() * 16,
        0 <= b < s.len() * 16,
    ensures
        with_increment(s, idx).len() == s.len(),
        counter_in(with_increment(s, idx), idx) == if counter_in(s, idx) < 15 {
            counter_in(s, idx) + 1
        } else {
            15int
        },
        b != idx ==> counter_in(with_increment(s, idx), b) == counter_in(s, b),
{
    let c = counter_in(s, idx);
    crate::vec::lemma_nibble_range(s[idx / 16], (idx % 16) as u64);
    lemma_div_below(idx, 16, s.len() as int);
    lemma_mod_division_less_than_divisor(idx, 16);
    if c < 15 {
        lemma_counter_update(s, with_increment(s, idx), idx, (c + 1) as u64);
    }
}

/// Decrementing one counter moves that counter down by one unless it is
/// zero, and leaves every other counter alone.
proof fn lemma_with_decrement_counters(s: Seq<u64>, idx: int, b: int)
    requires
        0 <= idx < s.len() * 16,
        0 <= b < s.len() * 16,
    ensures
        with_decrement(s, idx).len() == s.len(),
        counter_in(with_decrement(s, idx), idx) == if counter_in(s, idx) > 0 {
            counter_in(s, idx) - 1
        } else {
            0int
        },
        b != idx ==> counter_in(with_decrement(s, idx), b) == counter_in(s, b),
{
    let c = counter_in(s, idx);
    crate::vec::lemma_nibble_range(s[idx / 16], (idx % 16) as u64);
    lemma_div_below(idx, 16, s.len() as int);
    lemma_mod_division_less_than_divisor(idx, 16);
    if c > 0 {
        lemma_counter_update(s, with_decrement(s, idx), idx, (c - 1) as u64);
    }
}

/// How many of the first `j` probed positions of element `e` land on
/// position `b`: the multiplicity of `b` among the element's probes.
pub open spec fn probe_count(e: Seq<u8>, m: u64, j: nat, b: int) -> int
    decreases j,
{
    if j == 0 {
        0
    } else {
        probe_count(e, m, (j - 1) as nat, b) + if hash_index(e, m, j - 1) == b {
            1int
        } else {
            0int
        }
    }
}

/// The probe multiplicity is between zero and the probe count, grows with
/// the prefix, and is at least one at a probed position.
proof fn lemma_probe_count_basics(e: Seq<u8>, m: u64, j: nat, b: int)
    ensures
        0 <= probe_count(e, m, j, b) <= j,
        forall|i: int| 0 <= i < j && hash_index(e, m, i) == b ==> probe_count(e, m, j, b) >= 1,
    decreases j,
{
    if j == 0 {
    } else {
        lemma_probe_count_basics(e, m, (j - 1) as nat, b);
    }
}

/// Incrementing the probed counters `j` times from `s` adds the probe
/// multiplicity to each counter, as long as the result stays at or under
/// the ceiling.
proof fn lemma_with_increments_counter(s: Seq<u64>, e: Seq<u8>, m: u64, j: nat, b: int)
    requires
        m >= 1,
        s.len() * 16 == m,
        0 <= b < m,
        counter_in(s, b) + probe_count(e, m, j, b) <= 15,
    ensures
        with_increments(s, e, m, j).len() == s.len(),
        counter_in(with_increments(s, e, m, j), b) == counter_in(s, b) + probe_count(e, m, j, b),
    decreases j,
{
    if j == 0 {
    } else {
        let idx = hash_index(e, m, j - 1);
        lemma_hash_index_range(e, m, j - 1);
        lemma_probe_count_basics(e, m, (j - 1) as nat, b);
        lemma_with_increments_counter(s, e, m, (j - 1) as nat, b);
        let prev = with_increments(s, e, m, (j - 1) as nat);
        if idx == b {
            lemma_with_increment_counters(prev, idx, b);
        } else {
            // the step may or may not saturate at idx, but b is untouched
            lemma_probe_count_basics(e, m, (j - 1) as nat, idx);
            crate::vec::lemma_nibble_range(prev[idx / 16], (idx % 16) as u64);
            lemma_with_increment_counters(prev, idx, b);
        }
    }
}

/// Decrementing the probed counters `j` times from `s` subtracts the probe
/// multiplicity from each counter, as long as no counter runs out.
proof fn lemma_with_decrements_counter(s: Seq<u64>, e: Seq<u8>, m: u64, j: nat, b: int)
    requires
        m >= 1,
        s.len() * 16 == m,
        0 <= b < m,
        counter_in(s, b) >= probe_count(e, m, j, b),
    ensures
        with_decrements(s, e, m, j).len() == s.len(),
        counter_in(with_decrements(s, e, m, j), b) == counter_in(s, b) - probe_count(e, m, j, b),
    decreases j,
{
    if j == 0 {
    } else {
        let idx = hash_index(e, m, j - 1);
        lemma_hash_index_range(e, m, j - 1);
        lemma_probe_count_basics(e, m, (j - 1) as nat, b);
        lemma_with_decrements_counter(s, e, m, (j - 1) as nat, b);
        let prev = with_decrements(s, e, m, (j - 1) as nat);
        lemma_with_decrement_counters(prev, idx, b);
    }
}

/// Two word sequences that agree on every counter are the same words.
proof fn lemma_counters_determine_words(s1: Seq<u64>, s2: Seq<u64>)
    requires
        s1.len() == s2.len(),
        forall|b: int| 0 <= b < s1.len() * 16 ==> counter_in(s1, b) == counter_in(s2, b),
    ensures
        s1 == s2,
{
    assert forall|w: int| 0 <= w < s1.len() implies s1[w] == s2[w] by {
        assert forall|p: u64| p < 16 implies crate::vec::nibble(s1[w], p) == crate::vec::nibble(
            s2[w],
            p,
        ) by {
            let b = w * 16 + p;
            assert(0 <= b < s1.len() * 16) by (nonlinear_arith)
                requires
                    0 <= w < s1.len() && p < 16 && b == w * 16 + p,
            ;
            vstd::arithmetic::div_mod::lemma_fundamental_div_mod_converse(b, 16, w, p as int);
            assert(counter_in(s1, b) == crate::vec::nibble(s1[w], p));
            assert(counter_in(s2, b) == crate::vec::nibble(s2[w], p));
        }
        crate::vec::lemma_word_from_nibbles(s1[w], s2[w]);
    }
    assert(s1 =~= s2);
}

/// The backing words after `r` whole adds of element `e`.
pub open spec fn add_rounds(s: Seq<u64>, e: Seq<u8>, m: u64, k: u32, r: nat) -> Seq<u64>
    decreases r,
{
    if r == 0 {
        s
    } else {
        with_increments(add_rounds(s, e, m, k, (r - 1) as nat), e, m, k as nat)
    }
}

/// The backing words after `r` whole removes of element `e`.
pub open spec fn remove_rounds(s: Seq<u64>, e: Seq<u8>, m: u64, k: u32, r: nat) -> Seq<u64>
    decreases r,
{
    if r == 0 {
        s
    } else {
        remove_rounds(with_decrements(s, e, m, k as nat), e, m, k, (r - 1) as nat)
    }
}

/// After `i` whole adds, each counter carries `i` times its probe
/// multiplicity on top of its starting value.
proof fn lemma_add_rounds_counter(s: Seq<u64>, e: Seq<u8>, m: u64, k: u32, i: nat, b: int)
    requires
        m >= 1,
        s.len() * 16 == m,
        0 <= b < m,
        counter_in(s, b) + i * probe_count(e, m, k as nat, b) <= 15,
    ensures
        add_rounds(s, e, m, k, i).len() == s.len(),
        counter_in(add_rounds(s, e, m, k, i), b) == counter_in(s, b) + i * probe_count(
            e,
            m,
            k as nat,
            b,
        ),
    decreases i,
{
    let pc = probe_count(e, m, k as nat, b);
    lemma_probe_count_basics(e, m, k as nat, b);
    if i == 0 {
        assert(i * pc == 0) by (nonlinear_arith)
            requires
                i == 0,
        ;
    } else {
        let i1 = (i - 1) as nat;
        assert(i1 * pc == i * pc - pc) by (nonlinear_arith)
            requires
                i >= 1 && i1 == i - 1,
        ;
        assert(i1 * pc <= i * pc) by (nonlinear_arith)
            requires
                i >= 1 && i1 == i - 1 && pc >= 0,
        ;
        lemma_add_rounds_counter(s, e, m, k, i1, b);
        let prev = add_rounds(s, e, m, k, i1);
        assert(add_rounds(s, e, m, k, i) == with_increments(prev, e, m, k as nat));
        assert(counter_in(prev, b) == counter_in(s, b) + i1 * pc);
        assert(counter_in(prev, b) + probe_count(e, m, k as nat, b) <= 15);
        lemma_with_increments_counter(prev, e, m, k as nat, b);
        assert(counter_in(with_increments(prev, e, m, k as nat), b) == counter_in(prev, b) + pc);
    }
}

/// Law: remove cancels add. In the counting filter, `r` whole adds of an
/// element followed by `j <= r` whole removes of it leave exactly the image
/// of `r - j` adds; with `j == r` the backing words return, bit for bit, to
/// the state before the first add. The proviso is headroom: no probed
/// counter may saturate during the adds, which holds whenever each starting
/// counter plus `r` times its probe multiplicity stays at or under 15 (on a
/// fresh filter: whenever `r * k <= 15`). A saturated counter forgets adds,
/// and such inputs are excluded.
pub proof fn lemma_remove_cancels_add(s: Seq<u64>, e: Seq<u8>, m: u64, k: u32, r: nat, j: nat)
    requires
        m >= 1,
        s.len() * 16 == m,
        j <= r,
        forall|b: int|
            0 <= b < m ==> counter_in(s, b) + r * probe_count(e, m, k as nat, b) <= 15,
    ensures
        remove_rounds(add_rounds(s, e, m, k, r), e, m, k, j) == add_rounds(s, e, m, k, (r - j) as nat),
    decreases j,
{
    if j == 0 {
    } else {
        let t = add_rounds(s, e, m, k, r);
        let r1 = (r - 1) as nat;
        let t1 = with_decrements(t, e, m, k as nat);
        let u = add_rounds(s, e, m, k, r1);
        assert forall|b: int| 0 <= b < m implies counter_in(t1, b) == counter_in(u, b) && t1.len()
            == s.len() && u.len() == s.len() by {
            let pc = probe_count(e, m, k as nat, b);
            lemma_probe_count_basics(e, m, k as nat, b);
            lemma_add_rounds_counter(s, e, m, k, r, b);
            assert(r1 * pc == r * pc - pc) by (nonlinear_arith)
                requires
                    r >= 1 && r1 == r - 1,
            ;
            assert(r * pc >= pc && r1 * pc <= r * pc) by (nonlinear_arith)
                requires
                    r >= 1 && r1 == r - 1 && pc >= 0,
            ;
            lemma_with_decrements_counter(t, e, m, k as nat, b);
            lemma_add_rounds_counter(s, e, m, k, r1, b);
        }
        assert(t1.len() == s.len() && u.len() == s.len()) by {
            let pc = probe_count(e, m, k as nat, 0);
            lemma_probe_count_basics(e, m, k as nat, 0);
            lemma_add_rounds_counter(s, e, m, k, r, 0);
            assert(r1 * pc == r * pc - pc && r * pc >= pc) by (nonlinear_arith)
                requires
                    r >= 1 && r1 == r - 1 && pc >= 0,
            ;
            lemma_with_decrements_counter(t, e, m, k as nat, 0);
            lemma_add_rounds_counter(s, e, m, k, r1, 0);
        }
        lemma_counters_determine_words(t1, u);
        assert forall|b: int| 0 <= b < m implies counter_in(s, b) + r1 * probe_count(
            e,
            m,
            k as nat,
            b,
        ) <= 15 by {
            let pc = probe_count(e, m, k as nat, b);
            lemma_probe_count_basics(e, m, k as nat, b);
            assert(r1 * pc <= r * pc) by (nonlinear_arith)
                requires
                    r >= 1 && r1 == r - 1 && pc >= 0,
            ;
        }
        lemma_remove_cancels_add(s, e, m, k, r1, (j - 1) as nat);
        assert(remove_rounds(t, e, m, k, j) == remove_rounds(t1, e, m, k, (j - 1) as nat));
        assert((r1 - (j - 1)) as nat == (r - j) as nat);
    }
}

/// Law: presence during the round trip. While at least one whole add is
/// outstanding, the element is reported present, so each remove of the
/// round trip really decrements.
pub proof fn lemma_rounds_present(s: Seq<u64>, e: Seq<u8>, m: u64, k: u32, i: nat)
    requires
        m >= 1,
        s.len() * 16 == m,
        i >= 1,
        forall|b: int|
            0 <= b < m ==> counter_in(s, b) + i * probe_count(e, m, k as nat, b) <= 15,
    ensures
        all_counters_set(add_rounds(s, e, m, k, i), e, m, k),
{
    assert forall|x: int| 0 <= x < k implies counter_in(
        add_rounds(s, e, m, k, i),
        hash_index(e, m, x),
    ) > 0 by {
        let b = hash_index(e, m, x);
        lemma_hash_index_range(e, m, x);
        lemma_probe_count_basics(e, m, k as nat, b);
        lemma_add_rounds_counter(s, e, m, k, i, b);
        assert(i * probe_count(e, m, k as nat, b) >= 1) by (nonlinear_arith)
            requires
                i >= 1 && probe_count(e, m, k as nat, b) >= 1,
        ;
    }
}

/// A counting Bloom filter: a Bloom filter whose slots are 4-bit saturating
/// counters, so that elements can also be removed.
#[derive(Debug, Clone)]
pub struct CountingBloomFilter {
    /// The frozen parameter record.
    pub config: FilterBuilder,
    /// The backing counters, one per bit position of the plain filter.
    pub counting_vec: CountingVec,
}

impl CountingBloomFilter {
    /// Well-formedness: the configuration is complete and there is exactly
    /// one counter per bit position.
    pub open spec fn wf(&self) -> bool {
        &&& self.config.wf()
        &&& self.config.done
        &&& self.config.size <= usize::MAX
        &&& self.counting_vec.wf()
        &&& self.counting_vec.counters == self.config.size
    }

    /// Presence of a byte string at the specification level.
    pub open spec fn contains_spec(&self, e: Seq<u8>) -> bool {
        all_counters_set(self.counting_vec.storage@, e, self.config.size, self.config.hashes)
    }

    /// Builds a counting Bloom filter from a builder, completing it first.
    /// All counters start at zero.
    pub fn new(config: FilterBuilder) -> (r: CountingBloomFilter)
        requires
            config.wf(),
            crate::builder::completed_config(config).size <= usize::MAX,
        ensures
            r.wf(),
            r.config == crate::builder::completed_config(config),
            r.counting_vec.storage@.len() * 16 == r.config.size,
            forall|w: int|
                0 <= w < r.counting_vec.storage@.len() ==> r.counting_vec.storage@[w] == 0u64,
    {
        let mut config = config;
        config.complete();
        let slots: usize = (config.size / 16) as usize;
        proof {
            lemma_fundamental_div_mod(config.size as int, 16);
            lemma_mod_division_less_than_divisor(config.size as int, 16);
            lemma_fundamental_div_mod(config.size as int, 64);
            assert(config.size as int % 16 == 0) by {
                vstd::arithmetic::div_mod::lemma_fundamental_div_mod_converse(
                    config.size as int,
                    16,
                    4 * (config.size as int / 64),
                    0,
                );
            }
        }
        let counting_vec = CountingVec::new(slots);
        CountingBloomFilter { config, counting_vec }
    }

    /// Returns the configuration of the filter.
    pub fn config(&self) -> (r: FilterBuilder)
        ensures
            r == self.config,
    {
        self.config.clone()
    }

    /// Returns the hash count of the filter.
    pub fn hashes(&self) -> (r: u32)
        ensures
            r == self.config.hashes,
    {
        self.config.hashes
    }

    /// Whether the two filters agree on bit count and hash count.
    fn compatible(&self, other: &CountingBloomFilter) -> (r: bool)
        ensures
            r == (self.config.size == other.config.size && self.config.hashes
                == other.config.hashes),
    {
        self.config.is_compatible_to(&other.config)
    }

    /// Tests whether the element is possibly present: true iff all `k`
    /// probed counters are positive. Never a false negative.
    pub fn contains(&self, element: &[u8]) -> (r: bool)
        requires
            self.wf(),
        ensures
            r == self.contains_spec(element@),
    {
        let ghost m = self.config.size;
        let ghost e = element@;
        let (h1, h2) = element_hashes(element, self.config.size);
        let k: u32 = self.config.hashes;
        let mut i: u32 = 0;
        while i < k
            invariant
                self.wf(),
                i <= k,
                k == self.config.hashes,
                m == self.config.size,
                e == element@,
                h1 == xxh3_of(e, SEED_LOW) % m,
                h2 == xxh3_of(e, SEED_HIGH) % m,
                h1 < m,
                h2 < m,
                forall|j: int|
                    0 <= j < i ==> counter_in(self.counting_vec.storage@, hash_index(e, m, j)) > 0,
            decreases k - i,
        {
            proof {
                lemma_hash_index_range(e, m, i as int);
                vstd::arithmetic::mul::lemma_mul_upper_bound(
                    i as int,
                    u32::MAX as int,
                    h2 as int,
                    u64::MAX as int,
                );
            }
            let idx: u64 = (((h1 as u128) + (i as u128) * (h2 as u128)) % (
            self.config.size as u128)) as u64;
            assert(idx == hash_index(e, m, i as int));
            if self.counting_vec.get(idx) == 0 {
                proof {
                    assert(counter_in(self.counting_vec.storage@, hash_index(e, m, i as int))
                        == 0);
                }
                return false;
            }
            i = i + 1;
        }
        true
    }

    /// Adds the element. With `enable_repeat_insert` the `k` probed
    /// counters are incremented unconditionally (saturating at 15); without
    /// it they are incremented only when the element is not already
    /// present, so a repeated add changes nothing.
    pub fn add(&mut self, element: &[u8])
        requires
            old(self).wf(),
        ensures
            final(self).wf(),
            final(self).config == old(self).config,
            (old(self).contains_spec(element@) && !old(self).config.enable_repeat_insert)
                ==> final(self).counting_vec.storage@ == old(self).counting_vec.storage@,
            !(old(self).contains_spec(element@) && !old(self).config.enable_repeat_insert)
                ==> final(self).counting_vec.storage@ == with_increments(
                old(self).counting_vec.storage@,
                element@,
                old(self).config.size,
                old(self).config.hashes as nat,
            ),
    {
        let ghost s0 = self.counting_vec.storage@;
        let ghost m = self.config.size;
        let ghost e = element@;
        let present: bool = self.contains(element);
        if present && !self.config.enable_repeat_insert {
            return ;
        }
        let (h1, h2) = element_hashes(element, self.config.size);
        let k: u32 = self.config.hashes;
        let mut i: u32 = 0;
        while i < k
            invariant
                self.wf(),
                self.config == old(self).config,
                s0 == old(self).counting_vec.storage@,
                i <= k,
                k == self.config.hashes,
                m == self.config.size,
                e == element@,
                h1 == xxh3_of(e, SEED_LOW) % m,
                h2 == xxh3_of(e, SEED_HIGH) % m,
                h1 < m,
                h2 < m,
                self.counting_vec.storage@ == with_increments(s0, e, m, i as nat),
            decreases k - i,
        {
            proof {
                lemma_hash_index_range(e, m, i as int);
                vstd::arithmetic::mul::lemma_mul_upper_bound(
                    i as int,
                    u32::MAX as int,
                    h2 as int,
                    u64::MAX as int,
                );
            }
            let idx: u64 = (((h1 as u128) + (i as u128) * (h2 as u128)) % (
            self.config.size as u128)) as u64;
            assert(idx == hash_index(e, m, i as int));
            let ghost before = self.counting_vec.storage@;
            proof {
                lemma_mod_division_less_than_divisor(idx as int, 16);
                crate::vec::lemma_nibble_range(
                    before[idx as int / 16],
                    (idx as int % 16) as u64,
                );
            }
            self.counting_vec.increment(idx);
            proof {
                assert(self.counting_vec.storage@ == with_increment(before, idx as int));
            }
            i = i + 1;
        }
    }

    /// Removes the element: if it is present (all probed counters are
    /// positive) the `k` probed counters are decremented, stopping at 0;
    /// otherwise nothing changes.
    pub fn remove(&mut self, element: &[u8])
        requires
            old(self).wf(),
        ensures
            final(self).wf(),
            final(self).config == old(self).config,
            old(self).contains_spec(element@) ==> final(self).counting_vec.storage@
                == with_decrements(
                old(self).counting_vec.storage@,
                element@,
                old(self).config.size,
                old(self).config.hashes as nat,
            ),
            !old(self).contains_spec(element@)
                ==> final(self).counting_vec.storage@ == old(self).counting_vec.storage@,
    {
        let ghost s0 = self.counting_vec.storage@;
        let ghost m = self.config.size;
        let ghost e = element@;
        let present: bool = self.contains(element);
        if !present {
            return ;
        }
        let (h1, h2) = element_hashes(element, self.config.size);
        let k: u32 = self.config.hashes;
        let mut i: u32 = 0;
        while i < k
            invariant
                self.wf(),
                self.config == old(self).config,
                s0 == old(self).counting_vec.storage@,
                i <= k,
                k == self.config.hashes,
                m == self.config.size,
                e == element@,
                h1 == xxh3_of(e, SEED_LOW) % m,
                h2 == xxh3_of(e, SEED_HIGH) % m,
                h1 < m,
                h2 < m,
                self.counting_vec.storage@ == with_decrements(s0, e, m, i as nat),
            decreases k - i,
        {
            proof {
                lemma_hash_index_range(e, m, i as int);
                vstd::arithmetic::mul::lemma_mul_upper_bound(
                    i as int,
                    u32::MAX as int,
                    h2 as int,
                    u64::MAX as int,
                );
            }
            let idx: u64 = (((h1 as u128) + (i as u128) * (h2 as u128)) % (
            self.config.size as u128)) as u64;
            assert(idx == hash_index(e, m, i as int));
            let ghost before = self.counting_vec.storage@;
            proof {
                lemma_mod_division_less_than_divisor(idx as int, 16);
                crate::vec::lemma_nibble_range(
                    before[idx as int / 16],
                    (idx as int % 16) as u64,
                );
            }
            self.counting_vec.decrement(idx);
            proof {
                assert(self.counting_vec.storage@ == with_decrement(before, idx as int));
            }
            i = i + 1;
        }
    }

    /// Adds the element unless it is already (probably) present. Returns
    /// true iff the element was absent before the call; either way the
    /// element is present afterwards in the sense of `add`. The test and
    /// the add are not atomic.
    pub fn add_if_not_contains(&mut self, element: &[u8]) -> (r: bool)
        requires
            old(self).wf(),
        ensures
            final(self).wf(),
            final(self).config == old(self).config,
            r == !old(self).contains_spec(element@),
            r ==> final(self).counting_vec.storage@ == with_increments(
                old(self).counting_vec.storage@,
                element@,
                old(self).config.size,
                old(self).config.hashes as nat,
            ),
            !r ==> *final(self) == *old(self),
    {
        if self.contains(element) {
            false
        } else {
            self.add(element);
            true
        }
    }

    /// The estimated insertion count of the element: the least of its `k`
    /// probed counters, and so 0 whenever any of them is 0. A lower bound
    /// on the true insertion count while repeat inserts are on and nothing
    /// has been removed.
    pub fn estimate_count(&self, element: &[u8]) -> (r: usize)
        requires
            self.wf(),
        ensures
            r == min_counter(
                self.counting_vec.storage@,
                element@,
                self.config.size,
                self.config.hashes as nat,
            ),
            r <= 15,
    {
        let ghost m = self.config.size;
        let ghost e = element@;
        let (h1, h2) = element_hashes(element, self.config.size);
        let k: u32 = self.config.hashes;
        let mut res: usize = 15;
        let mut i: u32 = 0;
        while i < k
            invariant
                self.wf(),
                i <= k,
                k == self.config.hashes,
                m == self.config.size,
                e == element@,
                h1 == xxh3_of(e, SEED_LOW) % m,
                h2 == xxh3_of(e, SEED_HIGH) % m,
                h1 < m,
                h2 < m,
                res == min_counter(self.counting_vec.storage@, e, m, i as nat),
                res <= 15,
            decreases k - i,
        {
            proof {
                lemma_hash_index_range(e, m, i as int);
                vstd::arithmetic::mul::lemma_mul_upper_bound(
                    i as int,
                    u32::MAX as int,
                    h2 as int,
                    u64::MAX as int,
                );
            }
            let idx: u64 = (((h1 as u128) + (i as u128) * (h2 as u128)) % (
            self.config.size as u128)) as u64;
            assert(idx == hash_index(e, m, i as int));
            let c: usize = self.counting_vec.get(idx);
            if c < res {
                res = c;
            }
            i = i + 1;
        }
        res
    }

    /// Returns the raw counter at a bit index.
    pub fn counter_at(&self, index: u64) -> (r: usize)
        requires
            self.wf(),
            index < self.config.size,
        ensures
            r == counter_in(self.counting_vec.storage@, index as int),
            r <= 15,
    {
        self.counting_vec.get(index)
    }

    /// Returns the `k` probed positions of the element, in probe order.
    pub fn get_hash_indices(&self, element: &[u8]) -> (r: Vec<u64>)
        requires
            self.wf(),
        ensures
            r@.len() == self.config.hashes,
            forall|i: int| 0 <= i < r@.len() ==> r@[i] == hash_index(element@, self.config.size, i),
            forall|i: int| 0 <= i < r@.len() ==> r@[i] < self.config.size,
    {
        let ghost m = self.config.size;
        let ghost e = element@;
        let (h1, h2) = element_hashes(element, self.config.size);
        let k: u32 = self.config.hashes;
        let mut res: Vec<u64> = Vec::new();
        let mut i: u32 = 0;
        while i < k
            invariant
                self.wf(),
                i <= k,
                k == self.config.hashes,
                m == self.config.size,
                e == element@,
                h1 == xxh3_of(e, SEED_LOW) % m,
                h2 == xxh3_of(e, SEED_HIGH) % m,
                h1 < m,
                h2 < m,
                res@.len() == i,
                forall|j: int| 0 <= j < i ==> res@[j] == hash_index(e, m, j),
                forall|j: int| 0 <= j < i ==> res@[j] < m,
            decreases k - i,
        {
            proof {
                lemma_hash_index_range(e, m, i as int);
                vstd::arithmetic::mul::lemma_mul_upper_bound(
                    i as int,
                    u32::MAX as int,
                    h2 as int,
                    u64::MAX as int,
                );
            }
            let idx: u64 = (((h1 as u128) + (i as u128) * (h2 as u128)) % (
            self.config.size as u128)) as u64;
            assert(idx == hash_index(e, m, i as int));
            res.push(idx);
            i = i + 1;
        }
        res
    }

    /// Tests whether every listed position holds a positive counter. The
    /// positions must lie inside the filter, as those from
    /// `get_hash_indices` do.
    pub fn contains_hash_indices(&self, indices: &Vec<u64>) -> (r: bool)
        requires
            self.wf(),
            forall|i: int| 0 <= i < indices@.len() ==> indices@[i] < self.config.size,
        ensures
            r == forall|i: int|
                0 <= i < indices@.len() ==> counter_in(
                    self.counting_vec.storage@,
                    indices@[i] as int,
                ) > 0,
    {
        let n: usize = indices.len();
        let mut i: usize = 0;
        while i < n
            invariant
                self.wf(),
                i <= n,
                n == indices@.len(),
                forall|j: int| 0 <= j < indices@.len() ==> indices@[j] < self.config.size,
                forall|j: int|
                    0 <= j < i ==> counter_in(self.counting_vec.storage@, indices@[j] as int) > 0,
            decreases n - i,
        {
            if self.counting_vec.get(indices[i]) == 0 {
                return false;
            }
            i = i + 1;
        }
        true
    }

    /// Resets every counter to zero.
    pub fn clear(&mut self)
        requires
            old(self).wf(),
        ensures
            final(self).wf(),
            final(self).config == old(self).config,
            final(self).counting_vec.storage@.len() == old(self).counting_vec.storage@.len(),
            forall|w: int|
                0 <= w < final(self).counting_vec.storage@.len()
                    ==> final(self).counting_vec.storage@[w] == 0u64,
    {
        self.counting_vec.clear();
    }

    /// True iff the filter holds no backing words at all.
    pub fn is_empty(&self) -> (r: bool)
        ensures
            r == (self.counting_vec.storage@.len() == 0),
    {
        self.counting_vec.storage.len() == 0
    }

    /// Union with a compatible counting filter: bitwise OR of the backing
    /// words, returning true. On incompatible filters: no mutation, false.
    /// The OR keeps every positive counter positive, but the resulting
    /// counts are not the sums of the operands'.
    pub fn union(&mut self, other: &CountingBloomFilter) -> (r: bool)
        requires
            old(self).wf(),
            other.wf(),
        ensures
            final(self).wf(),
            final(self).config == old(self).config,
            r == (old(self).config.size == other.config.size && old(self).config.hashes
                == other.config.hashes),
            r ==> final(self).counting_vec.storage@.len() == old(self).counting_vec.storage@.len()
                && forall|w: int|
                0 <= w < final(self).counting_vec.storage@.len()
                    ==> final(self).counting_vec.storage@[w] == (old(self).counting_vec.storage@[w]
                    | other.counting_vec.storage@[w]),
            !r ==> *final(self) == *old(self),
    {
        if self.compatible(other) {
            let n: usize = self.counting_vec.storage.len();
            let mut i: usize = 0;
            while i < n
                invariant
                    self.counting_vec.wf(),
                    self.config == old(self).config,
                    self.counting_vec.counters == old(self).counting_vec.counters,
                    n == self.counting_vec.storage@.len(),
                    n == old(self).counting_vec.storage@.len(),
                    n == other.counting_vec.storage@.len(),
                    i <= n,
                    forall|w: int|
                        0 <= w < i ==> self.counting_vec.storage@[w] == (old(
                            self,
                        ).counting_vec.storage@[w] | other.counting_vec.storage@[w]),
                    forall|w: int|
                        i <= w < n ==> self.counting_vec.storage@[w] == old(
                            self,
                        ).counting_vec.storage@[w],
                decreases n - i,
            {
                let v: u64 = self.counting_vec.storage[i] | other.counting_vec.storage[i];
                self.counting_vec.storage[i] = v;
                i = i + 1;
            }
            true
        } else {
            false
        }
    }

    /// Intersection with a compatible counting filter: bitwise AND of the
    /// backing words, returning true. On incompatible filters: no
    /// mutation, false.
    pub fn intersect(&mut self, other: &CountingBloomFilter) -> (r: bool)
        requires
            old(self).wf(),
            other.wf(),
        ensures
            final(self).wf(),
            final(self).config == old(self).config,
            r == (old(self).config.size == other.config.size && old(self).config.hashes
                == other.config.hashes),
            r ==> final(self).counting_vec.storage@.len() == old(self).counting_vec.storage@.len()
                && forall|w: int|
                0 <= w < final(self).counting_vec.storage@.len()
                    ==> final(self).counting_vec.storage@[w] == (old(self).counting_vec.storage@[w]
                    & other.counting_vec.storage@[w]),
            !r ==> *final(self) == *old(self),
    {
        if self.compatible(other) {
            let n: usize = self.counting_vec.storage.len();
            let mut i: usize = 0;
            while i < n
                invariant
                    self.counting_vec.wf(),
                    self.config == old(self).config,
                    self.counting_vec.counters == old(self).counting_vec.counters,
                    n == self.counting_vec.storage@.len(),
                    n == old(self).counting_vec.storage@.len(),
                    n == other.counting_vec.storage@.len(),
                    i <= n,
                    forall|w: int|
                        0 <= w < i ==> self.counting_vec.storage@[w] == (old(
                            self,
                        ).counting_vec.storage@[w] & other.counting_vec.storage@[w]),
                    forall|w: int|
                        i <= w < n ==> self.counting_vec.storage@[w] == old(
                            self,
                        ).counting_vec.storage@[w],
                decreases n - i,
            {
                let v: u64 = self.counting_vec.storage[i] & other.counting_vec.storage[i];
                self.counting_vec.storage[i] = v;
                i = i + 1;
            }
            true
        } else {
            false
        }
    }

    /// Returns the backing storage as its little-endian byte image: two
    /// counters per byte, `size / 2` bytes long.
    pub fn get_u8_array(&self) -> (r: Vec<u8>)
        requires
            self.wf(),
        ensures
            r@ == crate::codec::bytes_of_words(self.counting_vec.storage@),
    {
        crate::codec::words_to_bytes(&self.counting_vec.storage)
    }

    /// Returns the backing storage as little-endian 16-bit values.
    pub fn get_u16_array(&self) -> (r: Vec<u16>)
        requires
            self.wf(),
        ensures
            r@ == crate::codec::halves_of_words(self.counting_vec.storage@),
    {
        crate::codec::words_to_halves(&self.counting_vec.storage)
    }

    /// Returns the backing storage as little-endian 32-bit values.
    pub fn get_u32_array(&self) -> (r: Vec<u32>)
        requires
            self.wf(),
        ensures
            r@ == crate::codec::quads_of_words(self.counting_vec.storage@),
    {
        crate::codec::words_to_quads(&self.counting_vec.storage)
    }

    /// Returns the backing storage as its 64-bit words.
    pub fn get_u64_array(&self) -> (r: Vec<u64>)
        requires
            self.wf(),
        ensures
            r@ == self.counting_vec.storage@,
    {
        crate::codec::copy_words(self.counting_vec.storage.as_slice())
    }

    /// Reconstructs a counting filter from a byte image, a hash count and
    /// the repeat-insert choice. Each byte carries two counters; the image
    /// must hold a whole positive number of 64-bit words.
    pub fn from_u8_array(array: &[u8], hashes: u32, enable_repeat_insert: bool) -> (r: Result<
        CountingBloomFilter,
        FilterError,
    >)
        ensures
            r is Ok <==> (1 <= array@.len() && array@.len() % 32 == 0 && array@.len() <= usize::MAX
                / 2 && hashes >= 1),
            r matches Ok(f) ==> {
                &&& f.wf()
                &&& f.config.size == array@.len() * 2
                &&& f.config.hashes == hashes
                &&& f.config.enable_repeat_insert == enable_repeat_insert
                &&& f.counting_vec.storage@ == crate::codec::words_of_bytes(array@)
            },
            (array@.len() == 0 || array@.len() % 32 != 0 || array@.len() > usize::MAX / 2) ==> r
                == Err::<CountingBloomFilter, FilterError>(FilterError::IncompatibleSize),
            (1 <= array@.len() && array@.len() % 32 == 0 && array@.len() <= usize::MAX / 2
                && hashes == 0) ==> r == Err::<CountingBloomFilter, FilterError>(
                FilterError::InvalidParameters,
            ),
    {
        let len: usize = array.len();
        if len == 0 || len % 32 != 0 || len > usize::MAX / 2 {
            return Err(FilterError::IncompatibleSize);
        }
        let size: u64 = (len as u64) * 2;
        proof {
            crate::bloom::lemma_size_fits(len as int, 2);
            crate::bloom::lemma_size_aligned(len as int, 2, 32);
            crate::bloom::lemma_mod_divides(len as int, 32, 8, 4);
        }
        let mut config = match FilterBuilder::from_size_and_hashes(size, hashes) {
            Ok(c) => c,
            Err(e) => {
                return Err(e);
            },
        };
        config.enable_repeat_insert(enable_repeat_insert);
        let words = crate::codec::bytes_to_words(array);
        proof {
            crate::bloom::lemma_words_size(len as int, 8, 2, 16);
        }
        Ok(
            CountingBloomFilter {
                config,
                counting_vec: CountingVec { storage: words, counters: size, counter_per_slot: 16 },
            },
        )
    }

    /// Reconstructs a counting filter from a 16-bit image: four counters
    /// per value.
    pub fn from_u16_array(array: &[u16], hashes: u32, enable_repeat_insert: bool) -> (r: Result<
        CountingBloomFilter,
        FilterError,
    >)
        ensures
            r is Ok <==> (1 <= array@.len() && array@.len() % 16 == 0 && array@.len() <= usize::MAX
                / 4 && hashes >= 1),
            r matches Ok(f) ==> {
                &&& f.wf()
                &&& f.config.size == array@.len() * 4
                &&& f.config.hashes == hashes
                &&& f.config.enable_repeat_insert == enable_repeat_insert
                &&& f.counting_vec.storage@ == crate::codec::words_of_halves(array@)
            },
            (array@.len() == 0 || array@.len() % 16 != 0 || array@.len() > usize::MAX / 4) ==> r
                == Err::<CountingBloomFilter, FilterError>(FilterError::IncompatibleSize),
            (1 <= array@.len() && array@.len() % 16 == 0 && array@.len() <= usize::MAX / 4
                && hashes == 0) ==> r == Err::<CountingBloomFilter, FilterError>(
                FilterError::InvalidParameters,
            ),
    {
        let len: usize = array.len();
        if len == 0 || len % 16 != 0 || len > usize::MAX / 4 {
            return Err(FilterError::IncompatibleSize);
        }
        let size: u64 = (len as u64) * 4;
        proof {
            crate::bloom::lemma_size_fits(len as int, 4);
            crate::bloom::lemma_size_aligned(len as int, 4, 16);
            crate::bloom::lemma_mod_divides(len as int, 16, 4, 4);
        }
        let mut config = match FilterBuilder::from_size_and_hashes(size, hashes) {
            Ok(c) => c,
            Err(e) => {
                return Err(e);
            },
        };
        config.enable_repeat_insert(enable_repeat_insert);
        let words = crate::codec::halves_to_words(array);
        proof {
            crate::bloom::lemma_words_size(len as int, 4, 4, 16);
        }
        Ok(
            CountingBloomFilter {
                config,
                counting_vec: CountingVec { storage: words, counters: size, counter_per_slot: 16 },
            },
        )
    }

    /// Reconstructs a counting filter from a 32-bit image: eight counters
    /// per value.
    pub fn from_u32_array(array: &[u32], hashes: u32, enable_repeat_insert: bool) -> (r: Result<
        CountingBloomFilter,
        FilterError,
    >)
        ensures
            r is Ok <==> (1 <= array@.len() && array@.len() % 8 == 0 && array@.len() <= usize::MAX
                / 8 && hashes >= 1),
            r matches Ok(f) ==> {
                &&& f.wf()
                &&& f.config.size == array@.len() * 8
                &&& f.config.hashes == hashes
                &&& f.config.enable_repeat_insert == enable_repeat_insert
                &&& f.counting_vec.storage@ == crate::codec::words_of_quads(array@)
            },
            (array@.len() == 0 || array@.len() % 8 != 0 || array@.len() > usize::MAX / 8) ==> r
                == Err::<CountingBloomFilter, FilterError>(FilterError::IncompatibleSize),
            (1 <= array@.len() && array@.len() % 8 == 0 && array@.len() <= usize::MAX / 8 && hashes
                == 0) ==> r == Err::<CountingBloomFilter, FilterError>(
                FilterError::InvalidParameters,
            ),
    {
        let len: usize = array.len();
        if len == 0 || len % 8 != 0 || len > usize::MAX / 8 {
            return Err(FilterError::IncompatibleSize);
        }
        let size: u64 = (len as u64) * 8;
        proof {
            crate::bloom::lemma_size_fits(len as int, 8);
            crate::bloom::lemma_size_aligned(len as int, 8, 8);
            crate::bloom::lemma_mod_divides(len as int, 8, 2, 4);
        }
        let mut config = match FilterBuilder::from_size_and_hashes(size, hashes) {
            Ok(c) => c,
            Err(e) => {
                return Err(e);
            },
        };
        config.enable_repeat_insert(enable_repeat_insert);
        let words = crate::codec::quads_to_words(array);
        proof {
            crate::bloom::lemma_words_size(len as int, 2, 8, 16);
        }
        Ok(
            CountingBloomFilter {
                config,
                counting_vec: CountingVec { storage: words, counters: size, counter_per_slot: 16 },
            },
        )
    }

    /// Reconstructs a counting filter from its 64-bit words: sixteen
    /// counters per word.
    pub fn from_u64_array(array: &[u64], hashes: u32, enable_repeat_insert: bool) -> (r: Result<
        CountingBloomFilter,
        FilterError,
    >)
        ensures
            r is Ok <==> (1 <= array@.len() && array@.len() % 4 == 0 && array@.len() <= usize::MAX
                / 16 && hashes >= 1),
            r matches Ok(f) ==> {
                &&& f.wf()
                &&& f.config.size == array@.len() * 16
                &&& f.config.hashes == hashes
                &&& f.config.enable_repeat_insert == enable_repeat_insert
                &&& f.counting_vec.storage@ == array@
            },
            (array@.len() == 0 || array@.len() % 4 != 0 || array@.len() > usize::MAX / 16) ==> r
                == Err::<CountingBloomFilter, FilterError>(FilterError::IncompatibleSize),
            (1 <= array@.len() && array@.len() % 4 == 0 && array@.len() <= usize::MAX / 16
                && hashes == 0) ==> r == Err::<CountingBloomFilter, FilterError>(
                FilterError::InvalidParameters,
            ),
    {
        let len: usize = array.len();
        if len == 0 || len % 4 != 0 || len > usize::MAX / 16 {
            return Err(FilterError::IncompatibleSize);
        }
        let size: u64 = (len as u64) * 16;
        proof {
            crate::bloom::lemma_size_fits(len as int, 16);
            crate::bloom::lemma_size_aligned(len as int, 16, 4);
        }
        let mut config = match FilterBuilder::from_size_and_hashes(size, hashes) {
            Ok(c) => c,
            Err(e) => {
                return Err(e);
            },
        };
        config.enable_repeat_insert(enable_repeat_insert);
        let words = crate::codec::copy_words(array);
        Ok(
            CountingBloomFilter {
                config,
                counting_vec: CountingVec { storage: words, counters: size, counter_per_slot: 16 },
            },
        )
    }

    /// Replaces the backing counters with a vector of matching capacity.
    pub fn set_counting_vec(&mut self, counting_vec: CountingVec)
        requires
            old(self).wf(),
            counting_vec.wf(),
            counting_vec.counters == old(self).config.size,
        ensures
            final(self).wf(),
            final(self).config == old(self).config,
            final(self).counting_vec == counting_vec,
    {
        self.counting_vec = counting_vec;
    }
}

} // verus!
