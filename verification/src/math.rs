//! Integer fixed-point arithmetic behind the parameter derivation: a base-2
//! logarithm with 64 fractional bits, ceiling division, and the formulas
//! that turn a capacity and a false-positive rate into a bit count and a
//! hash count. Working over integers keeps every step exact enough that the
//! derived sizes agree with the closed-form real-number formulas after the
//! final rounding to a word boundary.

use vstd::prelude::*;
use vstd::arithmetic::div_mod::lemma_div_by_multiple;
use vstd::arithmetic::div_mod::lemma_div_denominator;
use vstd::arithmetic::div_mod::lemma_div_is_ordered;
use vstd::arithmetic::div_mod::lemma_div_is_ordered_by_denominator;
use vstd::arithmetic::div_mod::lemma_div_pos_is_pos;
use vstd::arithmetic::div_mod::lemma_fundamental_div_mod;
use vstd::arithmetic::div_mod::lemma_mod_division_less_than_divisor;
use vstd::arithmetic::mul::lemma_mul_inequality;
use vstd::arithmetic::mul::lemma_mul_upper_bound;
use vstd::arithmetic::power2::pow2;
use vstd::arithmetic::power2::lemma_pow2_adds;
use vstd::arithmetic::power2::lemma_pow2_pos;
use vstd::arithmetic::power2::lemma2_to64;
use vstd::arithmetic::power2::lemma2_to64_rest;
use vstd::arithmetic::power2::lemma_pow2_strictly_increases;

verus! {

/// One, as a fixed-point number with 64 fractional bits.
pub const FP_ONE: u128 = 0x10000000000000000;

/// One half in the same fixed-point format.
pub const FP_HALF: u128 = 0x8000000000000000;

/// The natural logarithm of 2 with 64 fractional bits, rounded down.
pub const LN2_FP: u128 = 12786308645202655659;

/// Largest capacity the derivation accepts; a filter for more elements would
/// not fit in addressable memory anyway.
pub const MAX_ELEMENTS: u64 = 0x4000000000000;

/// Every derived bit count stays below this bound.
pub const MAX_SIZE: u64 = 0x400000000000000;

/// `ceil(a / b)` for non-negative `a` and positive `b`.
pub open spec fn ceil_div_spec(a: int, b: int) -> int {
    (a + b - 1) / b
}

/// How many halvings bring `q` into the normalized mantissa range
/// `[2^64, 2^65)`: the integer part of the base-2 logarithm of `q / 2^64`.
pub open spec fn norm_exp(q: int) -> nat
    decreases q,
{
    if q < 2 * (FP_ONE as int) {
        0
    } else {
        1 + norm_exp(q / 2)
    }
}

/// The normalized mantissa of `q`, in `[2^63, 2^64)` whenever `q >= 2^64`:
/// the value `q / 2^64`, scaled to a 1.63 fixed-point number.
pub open spec fn mant_of(q: int) -> int
    decreases q,
{
    if q < 2 * (FP_ONE as int) {
        q / 2
    } else {
        mant_of(q / 2)
    }
}

/// The first `n` fractional bits of the base-2 logarithm of a 1.63
/// fixed-point mantissa `x`, produced by repeated squaring: squaring the
/// mantissa doubles the logarithm, and a carry past 2.0 is the next bit.
pub open spec fn frac_bits(x: int, n: nat) -> int
    decreases n,
{
    if n == 0 {
        0
    } else {
        let y = (x * x) / (FP_HALF as int);
        if y >= FP_ONE as int {
            pow2((n - 1) as nat) as int + frac_bits(y / 2, (n - 1) as nat)
        } else {
            frac_bits(y, (n - 1) as nat)
        }
    }
}

/// The base-2 logarithm of `q / 2^64`, with 64 fractional bits, rounded down
/// bit by bit.
pub open spec fn log2_fp(q: int) -> int {
    norm_exp(q) * (FP_ONE as int) + frac_bits(mant_of(q), 64)
}

/// The quotient `den / num` as a fixed-point number with 64 fractional bits,
/// rounded down: the reciprocal of the probability `num / den`.
pub open spec fn ratio_fp(num: int, den: int) -> int {
    (den * FP_ONE) / num
}

/// `m` rounded up to the next multiple of the 64-bit word width.
pub open spec fn round_to_word(m: int) -> int {
    if m % 64 == 0 {
        m
    } else {
        64 * (m / 64) + 64
    }
}

/// The derived bit count for capacity `n` and false-positive probability
/// `num / den`: the ceiling of `n * ln(den/num) / (ln 2)^2`, computed as
/// `n * log2(den/num) / ln 2`, rounded up to a word boundary.
pub open spec fn spec_optimal_m(n: int, num: int, den: int) -> int {
    let raw = ceil_div_spec(n * log2_fp(ratio_fp(num, den)), LN2_FP as int);
    round_to_word(
        if raw == 0 {
            1
        } else {
            raw
        },
    )
}

/// The derived hash count for capacity `n` and bit count `m`:
/// the ceiling of `m * ln 2 / n`.
pub open spec fn spec_optimal_k(n: int, m: int) -> int {
    ceil_div_spec(m * (LN2_FP as int), n * (FP_ONE as int))
}

/// The capacity for which a filter of `m` bits and `k` hashes is optimal:
/// the ceiling of `m * ln 2 / k`.
pub open spec fn spec_optimal_n(k: int, m: int) -> int {
    ceil_div_spec(m * (LN2_FP as int), k * (FP_ONE as int))
}

/// Ceiling division on machine words.
pub fn ceil_div_u128(a: u128, b: u128) -> (r: u128)
    requires
        b >= 1,
        a + b - 1 <= u128::MAX,
    ensures
        r == ceil_div_spec(a as int, b as int),
{
    (a + (b - 1)) / b
}

/// A positive numerator gives a ceiling quotient of at least one.
proof fn lemma_ceil_div_pos(a: int, b: int)
    requires
        a >= 1,
        b >= 1,
    ensures
        ceil_div_spec(a, b) >= 1,
{
    lemma_div_is_ordered(b, a + b - 1, b);
    lemma_div_by_multiple(1, b);
}

/// Ceiling division is monotone in the numerator.
proof fn lemma_ceil_div_mono(a1: int, a2: int, b: int)
    requires
        0 <= a1 <= a2,
        b >= 1,
    ensures
        ceil_div_spec(a1, b) <= ceil_div_spec(a2, b),
{
    lemma_div_is_ordered(a1 + b - 1, a2 + b - 1, b);
}

/// A numerator below `b * k` keeps the ceiling quotient at or below `k`.
proof fn lemma_ceil_div_upper(a: int, b: int, k: int)
    requires
        0 <= a <= b * k,
        b >= 1,
        k >= 0,
    ensures
        ceil_div_spec(a, b) <= k,
{
    assert(a + b - 1 <= b * k + b - 1);
    assert(b * k + b == b * (k + 1)) by (nonlinear_arith);
    lemma_div_is_ordered(a + b - 1, b * (k + 1) - 1, b);
    lemma_fundamental_div_mod(b * (k + 1) - 1, b);
    if (b * (k + 1) - 1) / b > k {
        lemma_mul_inequality(k + 1, (b * (k + 1) - 1) / b, b);
        assert((k + 1) * b == b * (k + 1)) by (nonlinear_arith);
        assert(b * ((b * (k + 1) - 1) / b) == ((b * (k + 1) - 1) / b) * b) by (nonlinear_arith);
        lemma_mod_division_less_than_divisor(b * (k + 1) - 1, b);
        assert(false);
    }
}

/// The normalization count is bounded: `q < 2^65 * 2^b` gives at most `b`
/// halvings.
proof fn lemma_norm_exp_bound(q: int, b: nat)
    requires
        q < 2 * (FP_ONE as int) * pow2(b),
    ensures
        norm_exp(q) <= b,
    decreases b,
{
    lemma_pow2_pos(b);
    lemma2_to64();
    if q < 2 * (FP_ONE as int) {
    } else {
        if b == 0 {
            assert(2 * (FP_ONE as int) * pow2(0) == 2 * (FP_ONE as int)) by (nonlinear_arith)
                requires
                    pow2(0) == 1,
            ;
            assert(false);
        } else {
            lemma_pow2_adds(1, (b - 1) as nat);
            lemma2_to64();
            assert(q / 2 < 2 * (FP_ONE as int) * pow2((b - 1) as nat)) by {
                assert(2 * (FP_ONE as int) * pow2(b) == 2 * (2 * (FP_ONE as int) * pow2(
                    (b - 1) as nat,
                ))) by (nonlinear_arith)
                    requires
                        pow2(b) == 2 * pow2((b - 1) as nat),
                ;
            }
            lemma_norm_exp_bound(q / 2, (b - 1) as nat);
        }
    }
}

/// The normalized mantissa lies in `[2^63, 2^64)` for any `q >= 2^64`.
proof fn lemma_mant_range(q: int)
    requires
        q >= FP_ONE,
    ensures
        FP_HALF <= mant_of(q) < FP_ONE,
    decreases q,
{
    if q < 2 * (FP_ONE as int) {
    } else {
        lemma_mant_range(q / 2);
    }
}

/// The fractional bits are non-negative and fit below `2^n`.
proof fn lemma_frac_bits_bound(x: int, n: nat)
    requires
        0 <= x,
    ensures
        0 <= frac_bits(x, n) < pow2(n),
    decreases n,
{
    lemma_pow2_pos(n);
    if n == 0 {
    } else {
        let y = (x * x) / (FP_HALF as int);
        assert(x * x >= 0) by (nonlinear_arith);
        lemma_div_pos_is_pos(x * x, FP_HALF as int);
        lemma_pow2_adds(1, (n - 1) as nat);
        lemma2_to64();
        if y >= FP_ONE as int {
            lemma_div_pos_is_pos(y, 2);
            lemma_frac_bits_bound(y / 2, (n - 1) as nat);
        } else {
            lemma_frac_bits_bound(y, (n - 1) as nat);
        }
    }
}

/// The fixed-point base-2 logarithm, by normalize-then-square: returns
/// `log2(q / 2^64)` with 64 fractional bits.
pub fn log2_fixed(q: u128) -> (r: u128)
    requires
        q >= FP_ONE,
    ensures
        r == log2_fp(q as int),
        r < 64 * FP_ONE,
{
    let mut e: u32 = 0;
    let mut t: u128 = q;
    proof {
        lemma2_to64();
        assert(pow2(63) == 0x8000000000000000) by {
            lemma2_to64_rest();
        }
        lemma_norm_exp_bound(q as int, 63);
    }
    while t >= 2 * FP_ONE
        invariant
            t >= FP_ONE,
            norm_exp(q as int) == e + norm_exp(t as int),
            mant_of(q as int) == mant_of(t as int),
            e <= norm_exp(q as int),
            norm_exp(q as int) <= 63,
        decreases t,
    {
        t = t / 2;
        e = e + 1;
    }
    let mut x: u128 = t / 2;
    let ghost x0 = x as int;
    proof {
        lemma_mant_range(q as int);
        assert(mant_of(t as int) == (t as int) / 2);
    }
    let mut frac: u128 = 0;
    let mut i: u32 = 0;
    while i < 64
        invariant
            i <= 64,
            FP_HALF <= x < FP_ONE,
            x0 == mant_of(q as int),
            frac * pow2((64 - i) as nat) + frac_bits(x as int, (64 - i) as nat) == frac_bits(
                x0,
                64,
            ),
            frac < pow2(i as nat),
        decreases 64 - i,
    {
        proof {
            assert((x as int) * (x as int) < (FP_ONE as int) * (FP_ONE as int))
                by (nonlinear_arith)
                requires
                    0 <= x < FP_ONE,
            ;
            assert((x as int) * (x as int) >= (FP_HALF as int) * (FP_HALF as int))
                by (nonlinear_arith)
                requires
                    x >= FP_HALF,
            ;
            assert(((FP_HALF as int) * (FP_HALF as int)) / (FP_HALF as int) == FP_HALF as int) by {
                lemma_div_by_multiple(FP_HALF as int, FP_HALF as int);
            }
            lemma_div_is_ordered(
                (FP_HALF as int) * (FP_HALF as int),
                (x as int) * (x as int),
                FP_HALF as int,
            );
            assert((FP_ONE as int) * (FP_ONE as int) == (FP_HALF as int) * (2 * FP_ONE as int));
            vstd::arithmetic::div_mod::lemma_multiply_divide_lt(
                (x as int) * (x as int),
                FP_HALF as int,
                2 * FP_ONE as int,
            );
        }
        let y: u128 = (x * x) / FP_HALF;
        let ghost n_rem = (64 - i) as nat;
        let ghost frac0 = frac as int;
        let ghost x_old = x as int;
        proof {
            lemma_pow2_adds((n_rem - 1) as nat, 1);
            lemma2_to64();
            lemma_pow2_pos((n_rem - 1) as nat);
            lemma_frac_bits_bound(x as int, n_rem);
            lemma_pow2_strictly_increases(i as nat, 64);
        }
        if y >= FP_ONE {
            frac = frac * 2 + 1;
            x = y / 2;
        } else {
            frac = frac * 2;
            x = y;
        }
        i = i + 1;
        proof {
            let n_new = (n_rem - 1) as nat;
            // one unfolding of frac_bits(x_old, n_rem)
            assert(frac_bits(x_old, n_rem) == if y as int >= FP_ONE as int {
                pow2(n_new) as int + frac_bits(y as int / 2, n_new)
            } else {
                frac_bits(y as int, n_new)
            });
            assert(pow2(n_rem) == pow2(n_new) * 2);
            assert(frac0 * pow2(n_rem) == (2 * frac0) * pow2(n_new)) by (nonlinear_arith)
                requires
                    pow2(n_rem) == pow2(n_new) * 2,
            ;
            if y >= FP_ONE {
                assert((2 * frac0 + 1) * pow2(n_new) == (2 * frac0) * pow2(n_new) + pow2(n_new))
                    by (nonlinear_arith);
            }
            lemma_pow2_adds((i - 1) as nat, 1);
        }
    }
    proof {
        lemma2_to64();
        assert((64 - i) as nat == 0);
        assert(frac_bits(x as int, 0) == 0);
        assert(frac as int * pow2(0) == frac as int) by (nonlinear_arith)
            requires
                pow2(0) == 1,
        ;
        assert(frac == frac_bits(x0, 64));
        assert(e == norm_exp(q as int));
    }
    (e as u128) * FP_ONE + frac
}

/// The natural exponential of -1 with 64 fractional bits, rounded down.
pub const EXP_NEG1_FP: u128 = 6786177901268885274;

/// The tail of the Taylor series of the exponential from term `i` on, in
/// fixed point: each step multiplies the previous term by `x` and divides by
/// `i`, and the recursion stops when the term underflows to zero.
pub open spec fn exp_sum(x: int, term: int, i: int) -> int
    decreases term,
    via exp_sum_dec
{
    if term <= 0 || x < 0 || x >= FP_ONE as int || i < 2 {
        0
    } else {
        let t2 = ((term * x) / (FP_ONE as int)) / i;
        t2 + exp_sum(x, t2, i + 1)
    }
}

#[via_fn]
proof fn exp_sum_dec(x: int, term: int, i: int) {
    if !(term <= 0 || x < 0 || x >= FP_ONE as int || i < 2) {
        lemma_exp_term_shrinks(x, term, i);
    }
}

/// One series step at least halves the term.
proof fn lemma_exp_term_shrinks(x: int, term: int, i: int)
    requires
        term >= 1,
        0 <= x < FP_ONE as int,
        i >= 2,
    ensures
        0 <= ((term * x) / (FP_ONE as int)) / i <= term / 2,
        ((term * x) / (FP_ONE as int)) / i < term,
{
    assert(term * x >= 0) by (nonlinear_arith)
        requires
            term >= 1 && x >= 0,
    ;
    assert(term * x < term * (FP_ONE as int)) by (nonlinear_arith)
        requires
            term >= 1 && 0 <= x < FP_ONE as int,
    ;
    vstd::arithmetic::div_mod::lemma_multiply_divide_lt(term * x, FP_ONE as int, term);
    lemma_div_pos_is_pos(term * x, FP_ONE as int);
    let d1 = (term * x) / (FP_ONE as int);
    lemma_div_is_ordered_by_denominator(d1, 2, i);
    lemma_div_is_ordered(d1, term - 1, 2);
    lemma_div_pos_is_pos(d1, i);
}

/// The Taylor series of `e^x` on `[0, 1)`, in fixed point with 64
/// fractional bits: `1 + x` plus the tail from the quadratic term on.
pub open spec fn exp_series_fp(x: int) -> int {
    FP_ONE + x + exp_sum(x, x, 2)
}

/// The fixed-point reciprocal of a value at least one.
pub open spec fn recip_fp_spec(y: int) -> int {
    if y <= FP_ONE as int {
        FP_ONE as int
    } else {
        (u128::MAX as int) / y
    }
}

/// `r` multiplied `a` times by the fixed-point constant `1/e`.
pub open spec fn scale_by_exp_neg1(r: int, a: nat) -> int
    decreases a,
{
    if a == 0 {
        r
    } else {
        scale_by_exp_neg1((r * (EXP_NEG1_FP as int)) / (FP_ONE as int), (a - 1) as nat)
    }
}

/// `e^(-x)` for a non-negative fixed-point `x`: the reciprocal of the series
/// on the fractional part, then one factor of `1/e` per whole unit. Zero
/// once the whole part reaches 64, where the true value is below one ulp.
pub open spec fn exp_neg_fp(x: int) -> int {
    let a = x / (FP_ONE as int);
    if a >= 64 {
        0
    } else {
        scale_by_exp_neg1(recip_fp_spec(exp_series_fp(x % (FP_ONE as int))), a as nat)
    }
}

/// Fixed-point binary exponentiation: `acc * b^e` where all values carry 64
/// fractional bits.
pub open spec fn pow_fp(b: int, e: nat, acc: int) -> int
    decreases e,
{
    if e == 0 {
        acc
    } else {
        let acc2 = if e % 2 == 1 {
            (acc * b) / (FP_ONE as int)
        } else {
            acc
        };
        pow_fp((b * b) / (FP_ONE as int), e / 2, acc2)
    }
}

/// The best-case false-positive probability of a filter of `m` bits and `k`
/// hashes holding `n` elements: `(1 - e^(-k*n/m))^k`, in fixed point.
pub open spec fn spec_optimal_p(k: int, m: int, n: int) -> int {
    let x = ceil_div_spec(k * n * (FP_ONE as int), m);
    let en = exp_neg_fp(x);
    if en == 0 {
        FP_ONE as int
    } else {
        pow_fp((FP_ONE as int) - en, if k >= 0 {
            k as nat
        } else {
            0
        }, FP_ONE as int)
    }
}

/// The series sum never exceeds its first term.
proof fn lemma_exp_sum_bound(x: int, term: int, i: int)
    ensures
        0 <= exp_sum(x, term, i),
        term >= 0 ==> exp_sum(x, term, i) <= term,
    decreases term,
{
    if term <= 0 || x < 0 || x >= FP_ONE as int || i < 2 {
    } else {
        let t2 = ((term * x) / (FP_ONE as int)) / i;
        lemma_exp_term_shrinks(x, term, i);
        lemma_exp_sum_bound(x, t2, i + 1);
    }
}

/// The Taylor series of `e^x` on `[0, 1)`, evaluated by the loop that the
/// specification mirrors term by term.
pub fn exp_series(x: u128) -> (r: u128)
    requires
        x < FP_ONE,
    ensures
        r == exp_series_fp(x as int),
        FP_ONE <= r <= 3 * FP_ONE,
{
    let mut acc: u128 = FP_ONE + x;
    let mut term: u128 = x;
    let mut i: u64 = 2;
    proof {
        lemma_exp_sum_bound(x as int, x as int, 2);
        lemma2_to64();
        assert(pow2(0) * (x as int) == x as int) by (nonlinear_arith)
            requires
                pow2(0) == 1,
        ;
    }
    while term > 0
        invariant
            x < FP_ONE,
            2 <= i <= 66,
            term <= x,
            acc + exp_sum(x as int, term as int, i as int) == exp_series_fp(x as int),
            acc + term <= 3 * FP_ONE,
            FP_ONE <= acc,
            0 <= exp_sum(x as int, term as int, i as int) <= term,
            pow2((i - 2) as nat) * term <= x,
        decreases term,
    {
        proof {
            lemma2_to64();
            lemma_pow2_pos((i - 2) as nat);
            assert(pow2((i - 2) as nat) <= pow2((i - 2) as nat) * (term as int))
                by (nonlinear_arith)
                requires
                    term >= 1 && pow2((i - 2) as nat) >= 1,
            ;
            if i - 2 >= 64 {
                if i - 2 > 64 {
                    lemma_pow2_strictly_increases(64, (i - 2) as nat);
                }
                assert(false);
            }
            assert((term as int) * (x as int) < (FP_ONE as int) * (FP_ONE as int))
                by (nonlinear_arith)
                requires
                    0 <= term < FP_ONE && 0 <= x < FP_ONE,
            ;
            lemma_exp_term_shrinks(x as int, term as int, i as int);
        }
        let p: u128 = term * x;
        let d1: u128 = p / FP_ONE;
        let t2: u128 = d1 / (i as u128);
        proof {
            // the tail from i unfolds to the new term plus the tail from i + 1
            assert(exp_sum(x as int, term as int, i as int) == t2 + exp_sum(
                x as int,
                t2 as int,
                i as int + 1,
            ));
            lemma_exp_sum_bound(x as int, t2 as int, i as int + 1);
            // the next weight doubles while the term at least halves
            lemma_pow2_adds((i - 2) as nat, 1);
            lemma2_to64();
            assert(pow2((i - 1) as nat) * (t2 as int) <= pow2((i - 2) as nat) * (term as int))
                by (nonlinear_arith)
                requires
                    pow2((i - 1) as nat) == pow2((i - 2) as nat) * 2 && 2 * (t2 as int)
                        <= term as int && pow2((i - 2) as nat) >= 0,
            ;
        }
        acc = acc + t2;
        term = t2;
        i = i + 1;
    }
    acc
}

/// The fixed-point reciprocal of a value at least one; at most one.
pub fn recip_fp(y: u128) -> (r: u128)
    requires
        y >= FP_ONE,
    ensures
        r == recip_fp_spec(y as int),
        r <= FP_ONE,
{
    if y <= FP_ONE {
        FP_ONE
    } else {
        proof {
            lemma_div_is_ordered_by_denominator(u128::MAX as int, FP_ONE as int + 1, y as int);
        }
        u128::MAX / y
    }
}

/// `e^(-x)` in fixed point, by series, reciprocal, and per-unit scaling.
pub fn exp_neg(x: u128) -> (r: u128)
    ensures
        r == exp_neg_fp(x as int),
        r <= FP_ONE,
{
    let a: u128 = x / FP_ONE;
    if a >= 64 {
        return 0;
    }
    let f: u128 = x % FP_ONE;
    let y: u128 = exp_series(f);
    let mut r: u128 = recip_fp(y);
    let ghost r0 = r as int;
    let mut j: u128 = 0;
    while j < a
        invariant
            j <= a < 64,
            r <= FP_ONE,
            scale_by_exp_neg1(r as int, (a - j) as nat) == scale_by_exp_neg1(r0, a as nat),
        decreases a - j,
    {
        proof {
            assert((r as int) * (EXP_NEG1_FP as int) <= (FP_ONE as int) * (EXP_NEG1_FP as int))
                by (nonlinear_arith)
                requires
                    0 <= r <= FP_ONE,
            ;
            vstd::arithmetic::div_mod::lemma_multiply_divide_le(
                (r as int) * (EXP_NEG1_FP as int),
                FP_ONE as int,
                EXP_NEG1_FP as int,
            );
        }
        r = (r * EXP_NEG1_FP) / FP_ONE;
        j = j + 1;
    }
    r
}

/// Fixed-point binary exponentiation of a base at most one.
pub fn fixed_pow(base: u128, e: u32) -> (r: u128)
    requires
        base < FP_ONE,
    ensures
        r == pow_fp(base as int, e as nat, FP_ONE as int),
        r <= FP_ONE,
{
    let mut b: u128 = base;
    let mut acc: u128 = FP_ONE;
    let mut k: u32 = e;
    while k > 0
        invariant
            b < FP_ONE,
            acc <= FP_ONE,
            pow_fp(b as int, k as nat, acc as int) == pow_fp(base as int, e as nat, FP_ONE as int),
        decreases k,
    {
        proof {
            assert((acc as int) * (b as int) < (FP_ONE as int) * (FP_ONE as int))
                by (nonlinear_arith)
                requires
                    0 <= acc <= FP_ONE && 0 <= b < FP_ONE,
            ;
            vstd::arithmetic::div_mod::lemma_multiply_divide_lt(
                (acc as int) * (b as int),
                FP_ONE as int,
                FP_ONE as int,
            );
            assert((b as int) * (b as int) < (FP_ONE as int) * (FP_ONE as int))
                by (nonlinear_arith)
                requires
                    0 <= b < FP_ONE,
            ;
            vstd::arithmetic::div_mod::lemma_multiply_divide_lt(
                (b as int) * (b as int),
                FP_ONE as int,
                FP_ONE as int,
            );
        }
        if k % 2 == 1 {
            acc = (acc * b) / FP_ONE;
        }
        b = (b * b) / FP_ONE;
        k = k / 2;
    }
    acc
}

/// The best-case false-positive probability for `m` bits, `k` hashes and
/// `n` elements, as a fixed-point value at most one.
pub fn optimal_p(hashes: u32, size: u64, expected_elements: u64) -> (r: u128)
    requires
        1 <= hashes,
        1 <= size,
        (hashes as int) * (expected_elements as int) <= u64::MAX,
    ensures
        r == spec_optimal_p(hashes as int, size as int, expected_elements as int),
        r <= FP_ONE,
{
    let kn: u64 = (hashes as u64) * expected_elements;
    let x: u128 = ceil_div_u128((kn as u128) * FP_ONE, size as u128);
    let en: u128 = exp_neg(x);
    if en == 0 {
        FP_ONE
    } else {
        proof {
            assert((hashes as int) * (expected_elements as int) * (FP_ONE as int) == (kn as int)
                * (FP_ONE as int)) by (nonlinear_arith)
                requires
                    kn == (hashes as int) * (expected_elements as int),
            ;
        }
        fixed_pow(FP_ONE - en, hashes)
    }
}

/// A probability strictly below one has a reciprocal of at least one.
proof fn lemma_ratio_at_least_one(num: int, den: int)
    requires
        1 <= num < den,
    ensures
        ratio_fp(num, den) >= FP_ONE,
{
    lemma_mul_inequality(num, den, FP_ONE as int);
    lemma_div_by_multiple(FP_ONE as int, num);
    lemma_div_is_ordered(FP_ONE as int * num, den * (FP_ONE as int), num);
}

/// The bit count derived from a capacity and a false-positive probability:
/// `ceil(n * ln(den/num) / (ln 2)^2)`, rounded up to a multiple of 64 so
/// that bit addressing never needs a partial word.
pub fn optimal_m(expected_elements: u64, prob_num: u64, prob_den: u64) -> (r: u64)
    requires
        1 <= expected_elements <= MAX_ELEMENTS,
        1 <= prob_num < prob_den,
    ensures
        r == spec_optimal_m(expected_elements as int, prob_num as int, prob_den as int),
        r % 64 == 0,
        64 <= r <= MAX_SIZE,
{
    proof {
        lemma_ratio_at_least_one(prob_num as int, prob_den as int);
    }
    let q: u128 = ((prob_den as u128) * FP_ONE) / (prob_num as u128);
    let el: u128 = log2_fixed(q);
    proof {
        lemma_mul_upper_bound(
            expected_elements as int,
            MAX_ELEMENTS as int,
            el as int,
            64 * (FP_ONE as int) - 1,
        );
    }
    let a: u128 = (expected_elements as u128) * el;
    let raw: u128 = ceil_div_u128(a, LN2_FP);
    proof {
        lemma_ceil_div_upper(a as int, LN2_FP as int, 0x200000000000000);
    }
    let mut m: u64 = raw as u64;
    if m == 0 {
        m = 1;
    }
    if m % 64 != 0 {
        m = (m / 64) * 64 + 64;
        proof {
            vstd::arithmetic::div_mod::lemma_mod_multiples_basic((m as int) / 64, 64);
        }
    }
    proof {
        lemma_fundamental_div_mod(m as int, 64);
        lemma_mod_division_less_than_divisor(m as int, 64);
    }
    m
}

/// The hash count derived from a capacity and a bit count:
/// `ceil(m * ln 2 / n)`.
pub fn optimal_k(expected_elements: u64, size: u64) -> (r: u32)
    requires
        1 <= expected_elements <= MAX_ELEMENTS,
        1 <= size,
        spec_optimal_k(expected_elements as int, size as int) <= u32::MAX,
    ensures
        r == spec_optimal_k(expected_elements as int, size as int),
        1 <= r,
{
    let a: u128 = (size as u128) * LN2_FP;
    let b: u128 = (expected_elements as u128) * FP_ONE;
    let k: u128 = ceil_div_u128(a, b);
    proof {
        lemma_ceil_div_pos(a as int, b as int);
    }
    k as u32
}

/// Squaring, halving and truncating all preserve order, so a larger
/// mantissa never produces smaller fractional logarithm bits.
proof fn lemma_frac_bits_mono(x1: int, x2: int, n: nat)
    requires
        FP_HALF <= x2 <= x1 < FP_ONE,
    ensures
        frac_bits(x1, n) >= frac_bits(x2, n),
    decreases n,
{
    if n == 0 {
    } else {
        let y1 = (x1 * x1) / (FP_HALF as int);
        let y2 = (x2 * x2) / (FP_HALF as int);
        assert(x2 * x2 <= x1 * x1) by (nonlinear_arith)
            requires
                0 <= x2 <= x1,
        ;
        lemma_div_is_ordered(x2 * x2, x1 * x1, FP_HALF as int);
        assert(x1 * x1 < (FP_HALF as int) * (2 * FP_ONE as int)) by (nonlinear_arith)
            requires
                0 <= x1 < FP_ONE,
        ;
        assert(x2 * x2 >= (FP_HALF as int) * (FP_HALF as int)) by (nonlinear_arith)
            requires
                x2 >= FP_HALF,
        ;
        vstd::arithmetic::div_mod::lemma_multiply_divide_lt(
            x1 * x1,
            FP_HALF as int,
            2 * FP_ONE as int,
        );
        lemma_div_by_multiple(FP_HALF as int, FP_HALF as int);
        lemma_div_is_ordered((FP_HALF as int) * (FP_HALF as int), x2 * x2, FP_HALF as int);
        let m = (n - 1) as nat;
        if y1 >= FP_ONE as int && y2 >= FP_ONE as int {
            lemma_div_is_ordered(y2, y1, 2);
            lemma_frac_bits_mono(y1 / 2, y2 / 2, m);
        } else if y1 >= FP_ONE as int {
            lemma_div_pos_is_pos(y1, 2);
            lemma_frac_bits_bound(y1 / 2, m);
            lemma_frac_bits_bound(y2, m);
        } else {
            lemma_frac_bits_mono(y1, y2, m);
        }
    }
}

/// More halvings are never needed for a smaller value.
proof fn lemma_norm_exp_mono(q1: int, q2: int)
    requires
        0 <= q2 <= q1,
    ensures
        norm_exp(q1) >= norm_exp(q2),
    decreases q1,
{
    if q2 < 2 * (FP_ONE as int) {
    } else {
        lemma_div_is_ordered(q2, q1, 2);
        lemma_norm_exp_mono(q1 / 2, q2 / 2);
    }
}

/// With equal normalization counts, the larger value keeps the larger
/// mantissa.
proof fn lemma_mant_mono(q1: int, q2: int)
    requires
        FP_ONE <= q2 <= q1,
        norm_exp(q1) == norm_exp(q2),
    ensures
        mant_of(q1) >= mant_of(q2),
    decreases q1,
{
    if q1 < 2 * (FP_ONE as int) {
        lemma_div_is_ordered(q2, q1, 2);
    } else if q2 < 2 * (FP_ONE as int) {
        assert(false);
    } else {
        lemma_div_is_ordered(q2, q1, 2);
        lemma_mant_mono(q1 / 2, q2 / 2);
    }
}

/// The fixed-point logarithm is monotone.
proof fn lemma_log2_fp_mono(q1: int, q2: int)
    requires
        FP_ONE <= q2 <= q1,
    ensures
        log2_fp(q1) >= log2_fp(q2),
{
    lemma_norm_exp_mono(q1, q2);
    lemma_mant_range(q1);
    lemma_mant_range(q2);
    lemma2_to64();
    if norm_exp(q1) == norm_exp(q2) {
        lemma_mant_mono(q1, q2);
        lemma_frac_bits_mono(mant_of(q1), mant_of(q2), 64);
    } else {
        lemma_frac_bits_bound(mant_of(q2), 64);
        lemma_frac_bits_bound(mant_of(q1), 64);
        lemma_mul_inequality(norm_exp(q2) as int + 1, norm_exp(q1) as int, FP_ONE as int);
    }
}

/// A smaller probability has a larger fixed-point reciprocal.
proof fn lemma_ratio_mono(num1: int, den1: int, num2: int, den2: int)
    requires
        1 <= num1 < den1,
        1 <= num2 < den2,
        num1 * den2 <= num2 * den1,
    ensures
        ratio_fp(num1, den1) >= ratio_fp(num2, den2),
{
    let t = ratio_fp(num2, den2);
    lemma_fundamental_div_mod(den2 * (FP_ONE as int), num2);
    lemma_mod_division_less_than_divisor(den2 * (FP_ONE as int), num2);
    lemma_div_pos_is_pos(den2 * (FP_ONE as int), num2);
    assert(t * num2 <= den2 * (FP_ONE as int)) by (nonlinear_arith)
        requires
            den2 * (FP_ONE as int) == num2 * t + (den2 * (FP_ONE as int)) % num2 && (den2 * (
            FP_ONE as int)) % num2 >= 0,
    ;
    assert((t * num1) * num2 <= (den1 * (FP_ONE as int)) * num2) by (nonlinear_arith)
        requires
            t * num2 <= den2 * (FP_ONE as int) && num1 * den2 <= num2 * den1 && num1 >= 1 && num2
                >= 1 && t >= 0,
    ;
    vstd::arithmetic::mul::lemma_mul_inequality_converse(
        t * num1,
        den1 * (FP_ONE as int),
        num2,
    );
    lemma_div_is_ordered(t * num1, den1 * (FP_ONE as int), num1);
    lemma_div_by_multiple(t, num1);
    assert((t * num1) / num1 == t) by {
        lemma_div_by_multiple(t, num1);
    }
}

/// Rounding up to a word boundary is a scaled ceiling division.
proof fn lemma_round_is_ceil(v: int)
    requires
        v >= 0,
    ensures
        round_to_word(v) == 64 * ceil_div_spec(v, 64),
        v <= round_to_word(v) <= v + 63,
{
    lemma_fundamental_div_mod(v, 64);
    lemma_mod_division_less_than_divisor(v, 64);
    lemma_fundamental_div_mod(v + 63, 64);
    lemma_mod_division_less_than_divisor(v + 63, 64);
    lemma_div_pos_is_pos(v, 64);
    lemma_div_pos_is_pos(v + 63, 64);
    if v % 64 == 0 {
        assert((v + 63) / 64 == v / 64) by {
            vstd::arithmetic::div_mod::lemma_hoist_over_denominator(63, v / 64, 64nat);
        }
    } else {
        assert((v + 63) / 64 == v / 64 + 1) by {
            vstd::arithmetic::div_mod::lemma_hoist_over_denominator(
                v % 64 + 63,
                v / 64,
                64nat,
            );
            vstd::arithmetic::div_mod::lemma_basic_div(v % 64 + 63 - 64, 64);
        }
    }
}

/// Law: for a fixed capacity, a smaller false-positive probability never
/// shrinks the derived bit count, nor the hash count derived from it. The
/// probabilities are the rationals `num1 / den1 <= num2 / den2`.
pub proof fn lemma_derivation_monotone(n: int, num1: int, den1: int, num2: int, den2: int)
    requires
        1 <= n,
        1 <= num1 < den1,
        1 <= num2 < den2,
        num1 * den2 <= num2 * den1,
    ensures
        spec_optimal_m(n, num1, den1) >= spec_optimal_m(n, num2, den2),
        spec_optimal_k(n, spec_optimal_m(n, num1, den1)) >= spec_optimal_k(
            n,
            spec_optimal_m(n, num2, den2),
        ),
{
    let q1 = ratio_fp(num1, den1);
    let q2 = ratio_fp(num2, den2);
    lemma_ratio_at_least_one(num1, den1);
    lemma_ratio_at_least_one(num2, den2);
    lemma_ratio_mono(num1, den1, num2, den2);
    lemma_log2_fp_mono(q1, q2);
    let el1 = log2_fp(q1);
    let el2 = log2_fp(q2);
    lemma_mant_range(q2);
    lemma_frac_bits_bound(mant_of(q2), 64);
    assert(el2 >= 0);
    vstd::arithmetic::mul::lemma_mul_left_inequality(n, el2, el1);
    let raw1 = ceil_div_spec(n * el1, LN2_FP as int);
    let raw2 = ceil_div_spec(n * el2, LN2_FP as int);
    assert(n * el2 >= 0) by (nonlinear_arith)
        requires
            n >= 1 && el2 >= 0,
    ;
    lemma_ceil_div_mono(n * el2, n * el1, LN2_FP as int);
    lemma_div_pos_is_pos(n * el2 + (LN2_FP as int) - 1, LN2_FP as int);
    let v1 = if raw1 == 0 { 1int } else { raw1 };
    let v2 = if raw2 == 0 { 1int } else { raw2 };
    assert(v2 <= v1 && 1 <= v2);
    lemma_round_is_ceil(v1);
    lemma_round_is_ceil(v2);
    lemma_ceil_div_mono(v2, v1, 64);
    let m1 = spec_optimal_m(n, num1, den1);
    let m2 = spec_optimal_m(n, num2, den2);
    assert(m2 <= m1 && m2 >= 0);
    lemma_ceil_div_mono(m2 * (LN2_FP as int), m1 * (LN2_FP as int), n * (FP_ONE as int));
}

/// The hash count derived for any accepted capacity and probability is
/// small: the reciprocal probability fits in 64 bits, so its logarithm is
/// below 64 and the hash count lands well under a few hundred.
pub proof fn lemma_derived_k_bound(n: int, num: int, den: int)
    requires
        1 <= n,
        1 <= num < den,
        den <= u64::MAX,
    ensures
        1 <= spec_optimal_k(n, spec_optimal_m(n, num, den)) <= 200,
{
    let q = ratio_fp(num, den);
    lemma_ratio_at_least_one(num, den);
    let el = log2_fp(q);
    lemma_mant_range(q);
    lemma_frac_bits_bound(mant_of(q), 64);
    lemma2_to64();
    assert(q < 2 * (FP_ONE as int) * pow2(63)) by {
        lemma2_to64_rest();
        lemma_div_is_ordered_by_denominator(den * (FP_ONE as int), 1, num);
        lemma_fundamental_div_mod(den * (FP_ONE as int), 1);
        lemma_mod_division_less_than_divisor(den * (FP_ONE as int), 1);
        assert(den * (FP_ONE as int) <= (u64::MAX as int) * (FP_ONE as int));
    }
    lemma_norm_exp_bound(q, 63);
    assert(el <= 64 * (FP_ONE as int) - 1) by {
        lemma_mul_inequality(norm_exp(q) as int, 63, FP_ONE as int);
    }
    let raw = ceil_div_spec(n * el, LN2_FP as int);
    assert(0 <= n * el <= n * (64 * (FP_ONE as int) - 1)) by (nonlinear_arith)
        requires
            n >= 1 && 0 <= el <= 64 * (FP_ONE as int) - 1,
    ;
    lemma_fundamental_div_mod(n * el + (LN2_FP as int) - 1, LN2_FP as int);
    lemma_mod_division_less_than_divisor(n * el + (LN2_FP as int) - 1, LN2_FP as int);
    lemma_div_pos_is_pos(n * el + (LN2_FP as int) - 1, LN2_FP as int);
    assert((LN2_FP as int) * raw <= n * el + (LN2_FP as int) - 1);
    let v = if raw == 0 { 1int } else { raw };
    assert((LN2_FP as int) * v <= n * el + 2 * (LN2_FP as int));
    let m = round_to_word(v);
    lemma_round_is_ceil(v);
    assert(m <= v + 63);
    assert((LN2_FP as int) * m <= n * el + 2 * (LN2_FP as int) + 63 * (LN2_FP as int));
    let k = spec_optimal_k(n, m);
    assert(m * (LN2_FP as int) <= n * (64 * (FP_ONE as int) - 1) + 65 * (LN2_FP as int));
    assert(n * (64 * (FP_ONE as int) - 1) + 65 * (LN2_FP as int) <= (n * (FP_ONE as int)) * 200)
        by (nonlinear_arith)
        requires
            n >= 1,
    ;
    assert(m >= 1);
    assert(m * (LN2_FP as int) >= LN2_FP as int) by (nonlinear_arith)
        requires
            m >= 1,
    ;
    assert(n * (FP_ONE as int) >= 1) by (nonlinear_arith)
        requires
            n >= 1,
    ;
    lemma_ceil_div_pos(m * (LN2_FP as int), n * (FP_ONE as int));
    lemma_ceil_div_upper(m * (LN2_FP as int), n * (FP_ONE as int), 200);
}

/// The product of a hash count and the capacity derived from it never
/// overflows a 64-bit word.
pub proof fn lemma_derived_n_product_bound(k: int, m: int)
    requires
        1 <= k <= u32::MAX,
        1 <= m <= u64::MAX,
    ensures
        1 <= spec_optimal_n(k, m),
        k * spec_optimal_n(k, m) <= u64::MAX,
{
    let c = LN2_FP as int;
    let f = FP_ONE as int;
    let a = m * c;
    let b = k * f;
    assert(k * f >= f) by (nonlinear_arith)
        requires
            1 <= k && f == FP_ONE as int,
    ;
    assert(m * c >= c) by (nonlinear_arith)
        requires
            m >= 1 && c == LN2_FP as int,
    ;
    lemma_ceil_div_pos(a, b);
    let n = spec_optimal_n(k, m);
    // n <= a / b + 1
    lemma_div_is_ordered(a + b - 1, a + b, b);
    vstd::arithmetic::div_mod::lemma_div_plus_one(a, b);
    assert(n <= a / b + 1);
    // a / b == (a / f) / k
    lemma_div_denominator(a, f, k);
    assert(f * k == k * f) by (nonlinear_arith);
    assert(a / b == (a / f) / k);
    // k * ((a / f) / k) <= a / f
    lemma_fundamental_div_mod(a / f, k);
    lemma_mod_division_less_than_divisor(a / f, k);
    assert(k * ((a / f) / k) <= a / f);
    // a / f < c since m < 2^64
    assert(a <= (u64::MAX as int) * c);
    lemma_div_is_ordered(a, (u64::MAX as int) * c, f);
    assert(k * n <= k * (a / b + 1)) by (nonlinear_arith)
        requires
            1 <= k && n <= a / b + 1,
    ;
    assert(k * (a / b + 1) == k * (a / b) + k) by (nonlinear_arith);
    assert(k * n <= a / f + k);
}

/// The capacity for which `m` bits and `k` hashes are the optimal choice:
/// `ceil(m * ln 2 / k)`.
pub fn optimal_n(hashes: u32, size: u64) -> (r: u64)
    requires
        1 <= hashes,
        1 <= size,
    ensures
        r == spec_optimal_n(hashes as int, size as int),
        1 <= r,
{
    let a: u128 = (size as u128) * LN2_FP;
    let b: u128 = (hashes as u128) * FP_ONE;
    let n: u128 = ceil_div_u128(a, b);
    proof {
        lemma_ceil_div_pos(a as int, b as int);
        lemma_mul_inequality(FP_ONE as int, b as int, u64::MAX as int);
        lemma_ceil_div_upper(a as int, b as int, u64::MAX as int);
    }
    n as u64
}

} // verus!
