//! Fixed-point weight arithmetic of the decay smoother.
//!
//! A weight is a fraction of one carried in units of `1 / 2^20`; every
//! weight the aggregation produces stays inside `[0, WEIGHT_ONE]`.  The
//! decay factor approximates `2^(-x / s)`: the whole halvings are exact
//! powers of two and the fractional part interpolates linearly between
//! one and one half, which keeps the factor at one for `x == 0`, strictly
//! below one afterwards, and monotonically falling toward zero.
use vstd::prelude::*;
use vstd::arithmetic::div_mod::lemma_div_is_ordered;
use vstd::arithmetic::div_mod::lemma_div_is_ordered_by_denominator;
use vstd::arithmetic::div_mod::lemma_div_multiples_vanish;
use vstd::arithmetic::div_mod::lemma_div_pos_is_pos;
use vstd::arithmetic::div_mod::lemma_multiply_divide_lt;
use vstd::arithmetic::mul::lemma_mul_inequality;
use vstd::arithmetic::mul::lemma_mul_nonnegative;
use vstd::arithmetic::power2::lemma2_to64;
use vstd::arithmetic::power2::lemma_pow2_pos;
use vstd::arithmetic::power2::pow2;
use vstd::bits::lemma_u32_shr_is_div;

verus! {

/// Fixed-point one: `2^20`.
pub const WEIGHT_ONE: u32 = 1048576;

/// Shifting a weight right by this many bits always yields zero, so the
/// decay factor is exactly zero once that many halvings have elapsed.
pub const DECAY_ZERO_AFTER: u64 = 21;

/// The decay factor for an elapsed time of `x` seconds under a smoothing
/// divisor of `s` seconds: a fixed-point approximation of `2^(-x / s)`.
///
/// With `q = x / s` whole halvings and a remainder `r`, the factor is
/// `(1 - r / (2 s)) / 2^q` in fixed point; after `DECAY_ZERO_AFTER`
/// halvings it is zero outright.
pub open spec fn spec_decay(x: int, s: int) -> int {
    let q = x / s;
    let r = x % s;
    if q >= DECAY_ZERO_AFTER {
        0
    } else {
        (WEIGHT_ONE - (r * WEIGHT_ONE) / (2 * s)) / pow2(q as nat) as int
    }
}

/// The decay factor is a weight: it stays in `[0, WEIGHT_ONE]`, is one
/// exactly at a zero elapsed time, and for positive `s` never grows.
pub proof fn lemma_decay_bounds(x: int, s: int)
    requires
        s >= 1,
        x >= 0,
    ensures
        0 <= spec_decay(x, s) <= WEIGHT_ONE,
        x == 0 ==> spec_decay(x, s) == WEIGHT_ONE,
{
    let q = x / s;
    let r = x % s;
    lemma_div_pos_is_pos(x, s);
    if q < DECAY_ZERO_AFTER {
        let num = r * WEIGHT_ONE;
        let den = 2 * s;
        lemma_mul_nonnegative(r, WEIGHT_ONE as int);
        lemma_div_pos_is_pos(num, den);
        assert(num < den * WEIGHT_ONE) by {
            lemma_mul_inequality(r, 2 * s - 1, WEIGHT_ONE as int);
        }
        lemma_multiply_divide_lt(num, den, WEIGHT_ONE as int);
        let frac = WEIGHT_ONE - num / den;
        assert(0 < frac <= WEIGHT_ONE);
        lemma_pow2_pos(q as nat);
        lemma_div_pos_is_pos(frac, pow2(q as nat) as int);
        assert(frac / pow2(q as nat) as int <= frac / 1) by {
            lemma_div_is_ordered_by_denominator(frac, 1, pow2(q as nat) as int);
        }
        if x == 0 {
            assert(q == 0 && r == 0) by {
                vstd::arithmetic::div_mod::lemma_basic_div(0, s);
                vstd::arithmetic::div_mod::lemma_small_mod(0, s as nat);
            }
            assert(pow2(0) == 1) by {
                lemma2_to64();
            }
        }
    }
}

/// Executable decay factor.
pub fn decay(x: u64, s: u64) -> (r: u32)
    requires
        s >= 1,
    ensures
        r == spec_decay(x as int, s as int),
        r <= WEIGHT_ONE,
{
    proof {
        lemma_decay_bounds(x as int, s as int);
    }
    let q = x / s;
    if q >= DECAY_ZERO_AFTER {
        0
    } else {
        let rem = x % s;
        let num: u128 = (rem as u128) * (WEIGHT_ONE as u128);
        let den: u128 = 2 * (s as u128);
        proof {
            lemma_mul_nonnegative(rem as int, WEIGHT_ONE as int);
            assert(num < den * WEIGHT_ONE) by {
                lemma_mul_inequality(rem as int, 2 * (s as int) - 1, WEIGHT_ONE as int);
            }
            lemma_multiply_divide_lt(num as int, den as int, WEIGHT_ONE as int);
            lemma_div_pos_is_pos(num as int, den as int);
        }
        let frac: u32 = WEIGHT_ONE - ((num / den) as u32);
        let shifted = frac >> (q as u32);
        proof {
            lemma_u32_shr_is_div(frac, q as u32);
        }
        shifted
    }
}

/// The exponential-moving-average step: the new weight interpolates
/// between the instantaneous indicator (`latest`) and the previous
/// weight (`prev`), by the decay factor `w` given to the old value.
pub open spec fn spec_ema(latest: int, prev: int, w: int) -> int {
    (latest * (WEIGHT_ONE - w) + prev * w) / (WEIGHT_ONE as int)
}

/// The average of two weights is a weight.
pub proof fn lemma_ema_bounds(latest: int, prev: int, w: int)
    requires
        0 <= latest <= WEIGHT_ONE,
        0 <= prev <= WEIGHT_ONE,
        0 <= w <= WEIGHT_ONE,
    ensures
        0 <= spec_ema(latest, prev, w) <= WEIGHT_ONE,
        latest * (WEIGHT_ONE - w) + prev * w <= WEIGHT_ONE * WEIGHT_ONE,
{
    let num = latest * (WEIGHT_ONE - w) + prev * w;
    lemma_mul_nonnegative(latest, WEIGHT_ONE - w);
    lemma_mul_nonnegative(prev, w);
    lemma_mul_inequality(latest, WEIGHT_ONE as int, WEIGHT_ONE - w);
    lemma_mul_inequality(prev, WEIGHT_ONE as int, w);
    assert(num <= WEIGHT_ONE * (WEIGHT_ONE - w) + WEIGHT_ONE * w);
    lemma_div_pos_is_pos(num, WEIGHT_ONE as int);
    lemma_div_is_ordered(num, WEIGHT_ONE * WEIGHT_ONE, WEIGHT_ONE as int);
    lemma_div_multiples_vanish(WEIGHT_ONE as int, WEIGHT_ONE as int);
}

/// Executable exponential-moving-average step.
pub fn ema(latest: u32, prev: u32, w: u32) -> (r: u32)
    requires
        latest <= WEIGHT_ONE,
        prev <= WEIGHT_ONE,
        w <= WEIGHT_ONE,
    ensures
        r == spec_ema(latest as int, prev as int, w as int),
        r <= WEIGHT_ONE,
{
    proof {
        lemma_ema_bounds(latest as int, prev as int, w as int);
    }
    let num: u64 = (latest as u64) * ((WEIGHT_ONE - w) as u64) + (prev as u64) * (w as u64);
    (num / (WEIGHT_ONE as u64)) as u32
}

/// One synthetic gap step: the previous weight multiplied by the decay
/// factor `m`.
pub open spec fn spec_decay_value(v: int, m: int) -> int {
    (v * m) / (WEIGHT_ONE as int)
}

/// Decaying a weight never raises it: the synthetic points written
/// across a data gap fall monotonically.
pub proof fn lemma_decay_value_bounds(v: int, m: int)
    requires
        0 <= v <= WEIGHT_ONE,
        0 <= m <= WEIGHT_ONE,
    ensures
        0 <= spec_decay_value(v, m) <= v,
{
    let num = v * m;
    lemma_mul_nonnegative(v, m);
    lemma_mul_inequality(m, WEIGHT_ONE as int, v);
    assert(v * m == m * v) by {
        vstd::arithmetic::mul::lemma_mul_is_commutative(v, m);
    }
    lemma_div_pos_is_pos(num, WEIGHT_ONE as int);
    lemma_div_is_ordered(num, WEIGHT_ONE * v, WEIGHT_ONE as int);
    assert((WEIGHT_ONE * v) / (WEIGHT_ONE as int) == v) by {
        lemma_div_multiples_vanish(v, WEIGHT_ONE as int);
    }
}

/// Executable gap step.
pub fn decay_value(v: u32, m: u32) -> (r: u32)
    requires
        v <= WEIGHT_ONE,
        m <= WEIGHT_ONE,
    ensures
        r == spec_decay_value(v as int, m as int),
        r <= v,
{
    proof {
        lemma_decay_value_bounds(v as int, m as int);
        lemma_mul_inequality(v as int, WEIGHT_ONE as int, m as int);
    }
    let num: u64 = (v as u64) * (m as u64);
    (num / (WEIGHT_ONE as u64)) as u32
}

} // verus!
