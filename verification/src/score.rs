//! Fitness scoring: combine a candidate's reported reliability and its
//! measured probe latency into one ranking metric.
//!
//! The fitness of a candidate is the average of two equal exponential decay
//! curves, one over latency and one over reliability:
//! `0.5 * exp(-(latency^2)/100) + 0.5 * exp(-(reliability^2)/100)`,
//! rendered in exact fixed point as
//! `0.5 * g(latency) + 0.5 * g(reliability)` with
//! `g(v) = 1 / (1 + u + u*u/2 + u*u*u/6)` for `u = v*v/100` — the
//! exponential's denominator cut after the third-order term, deep enough to
//! reproduce the exponential's acceptance decisions around the 0.5 threshold
//! (a candidate of reliability 50 probed at half a second falls just below
//! the threshold under both curves).  Inputs are thousandths of a unit
//! (thousandths of a second for latency — the unit convention is part of the
//! contract, since rescaling an input without rescaling the curve's constant
//! would silently rescale the ranking); fitness values are fractions of
//! `FITNESS_ONE`.  All arithmetic is exact integer arithmetic, so the scorer
//! is a pure deterministic function: strictly decreasing in each input,
//! symmetric between the two, and bounded in `(0, FITNESS_ONE]` with
//! `FITNESS_ONE` reached exactly at reliability 0 and latency 0.

use vstd::prelude::*;
use vstd::arithmetic::div_mod::lemma_div_is_ordered;
use vstd::arithmetic::div_mod::lemma_div_is_ordered_by_denominator;
use vstd::arithmetic::div_mod::lemma_div_multiples_vanish;
use vstd::arithmetic::div_mod::lemma_div_non_zero;
use vstd::arithmetic::div_mod::lemma_fundamental_div_mod;
use crate::catalog::FITNESS_ONE;
use crate::catalog::MAX_INPUT_MILLI;

verus! {

/// Decay value of a zero input: 1.0 in the fixed-point decay scale.
pub const DECAY_ONE: u128 = 50_000_000_000_000;

/// Common numerator of the decay fraction: `DECAY_ONE * decay_den(0)`.
pub const DECAY_NUM: u128 = 300_000_000_000_000_000_000_000_000_000_000_000_000;

/// Denominator of the decay fraction at input `x` (in thousandths):
/// `decay_den(0)` times `1 + u + u*u/2 + u*u*u/6` for `u = (x/1000)^2 / 100`.
pub open spec fn decay_den(x: int) -> int {
    6_000_000_000_000_000_000_000_000 + 60_000_000_000_000_000 * (x * x) + 300_000_000 * ((x * x)
        * (x * x)) + (x * x) * ((x * x) * (x * x))
}

/// The decay curve: a fraction of `DECAY_ONE`, exact except for the final
/// floor of the division.
pub open spec fn decay_spec(x: int) -> int {
    DECAY_NUM as int / decay_den(x)
}

/// Fitness of a candidate with reliability `r` and latency `t`, both in
/// thousandths: the sum of the two decay values, a fraction of `FITNESS_ONE`.
pub open spec fn score_spec(r: int, t: int) -> int {
    decay_spec(r) + decay_spec(t)
}

/// Absolute bounds of the decay denominator over the accepted input range.
proof fn lemma_den_bounds(x: int)
    requires
        0 <= x <= MAX_INPUT_MILLI as int,
    ensures
        6_000_000_000_000_000_000_000_000 <= decay_den(x)
            <= 1_030_606_000_000_000_000_000_000_000_000,
        decay_den(x) <= DECAY_NUM as int,
{
    assert(x * x <= 10_000_000_000 && 0 <= x * x) by (nonlinear_arith)
        requires
            0 <= x <= 100_000,
    ;
    assert((x * x) * (x * x) <= 100_000_000_000_000_000_000 && 0 <= (x * x) * (x * x))
        by (nonlinear_arith)
        requires
            0 <= x * x <= 10_000_000_000,
    ;
    assert((x * x) * ((x * x) * (x * x)) <= 1_000_000_000_000_000_000_000_000_000_000 && 0 <= (x
        * x) * ((x * x) * (x * x))) by (nonlinear_arith)
        requires
            0 <= x * x <= 10_000_000_000,
            0 <= (x * x) * (x * x) <= 100_000_000_000_000_000_000,
    ;
}

/// Core gap fact behind strict monotonicity: between two denominators the
/// numerator gains at least one whole quotient step.
proof fn lemma_den_gap(x: int, y: int)
    requires
        0 <= x < y <= MAX_INPUT_MILLI as int,
    ensures
        decay_den(x) < decay_den(y),
        DECAY_NUM as int * (decay_den(y) - decay_den(x)) >= decay_den(x) * decay_den(y),
{
    let a = decay_den(x);
    let b = decay_den(y);
    lemma_den_bounds(x);
    lemma_den_bounds(y);
    // the square gap is at least y itself, and every power grows with it
    assert(y * y - x * x >= y && y * y >= 0 && x * x >= 0 && (x * x) * (x * x) <= (y * y) * (y
        * y)) by (nonlinear_arith)
        requires
            0 <= x < y,
    ;
    assert((x * x) * ((x * x) * (x * x)) <= (y * y) * ((y * y) * (y * y))) by (nonlinear_arith)
        requires
            0 <= x * x <= y * y,
    ;
    assert(b - a >= 60_000_000_000_000_000 * y);
    // the denominator itself is linearly bounded by y
    assert(y * y <= 100_000 * y) by (nonlinear_arith)
        requires
            0 <= y <= 100_000,
    ;
    assert((y * y) * (y * y) <= 1_000_000_000_000_000 * y) by (nonlinear_arith)
        requires
            0 <= y <= 100_000,
    ;
    assert((y * y) * ((y * y) * (y * y)) <= 10_000_000_000_000_000_000_000_000 * y)
        by (nonlinear_arith)
        requires
            0 <= y <= 100_000,
    ;
    assert(b <= 6_000_000_000_000_000_000_000_000 + 60_000_000_000_000_000 * (100_000 * y)
        + 300_000_000 * (1_000_000_000_000_000 * y) + 10_000_000_000_000_000_000_000_000 * y);
    assert(b <= 16_306_000_000_000_000_000_000_000 * y) by (nonlinear_arith)
        requires
            1 <= y,
            b <= 6_000_000_000_000_000_000_000_000 + 60_000_000_000_000_000 * (100_000 * y)
                + 300_000_000 * (1_000_000_000_000_000 * y) + 10_000_000_000_000_000_000_000_000
                * y,
    ;
    // hence a * b is below the numerator times the gap:
    // 1_030_606e24 * 16_306_000e18 < 3e38 * 6e16
    assert(a * b <= DECAY_NUM as int * (60_000_000_000_000_000 * y)) by (nonlinear_arith)
        requires
            0 <= a <= b,
            b <= 16_306_000_000_000_000_000_000_000 * y,
            b <= 1_030_606_000_000_000_000_000_000_000_000,
            0 <= y,
    ;
    assert(DECAY_NUM as int * (b - a) >= DECAY_NUM as int * (60_000_000_000_000_000 * y))
        by (nonlinear_arith)
        requires
            b - a >= 60_000_000_000_000_000 * y,
            0 <= y,
    ;
}

/// The decay curve falls strictly: a larger input always yields a strictly
/// smaller decay value.
pub proof fn lemma_decay_strict(x: int, y: int)
    requires
        0 <= x < y <= MAX_INPUT_MILLI as int,
    ensures
        decay_spec(y) < decay_spec(x),
{
    let n = DECAY_NUM as int;
    let a = decay_den(x);
    let b = decay_den(y);
    lemma_den_bounds(x);
    lemma_den_bounds(y);
    lemma_den_gap(x, y);
    let q = n / b;
    lemma_fundamental_div_mod(n, b);
    assert(b * q <= n);
    assert(q >= 0) by {
        lemma_div_non_zero(n, b);
    }
    // a * (q + 1) * b == a * b * q + a * b <= a * n + n * (b - a) == n * b
    assert(a * (q + 1) <= n) by (nonlinear_arith)
        requires
            0 < a < b,
            b * q <= n,
            0 <= q,
            n * (b - a) >= a * b,
    ;
    lemma_div_multiples_vanish(q + 1, a);
    lemma_div_is_ordered(a * (q + 1), n, a);
    assert(n / a >= q + 1);
}

/// Bounds of the decay curve: always in `(0, DECAY_ONE]`, with `DECAY_ONE`
/// reached exactly at input zero.
pub proof fn lemma_decay_bounds(x: int)
    requires
        0 <= x <= MAX_INPUT_MILLI as int,
    ensures
        1 <= decay_spec(x) <= DECAY_ONE as int,
        decay_spec(0) == DECAY_ONE as int,
        x > 0 ==> decay_spec(x) < DECAY_ONE as int,
{
    let n = DECAY_NUM as int;
    lemma_den_bounds(x);
    lemma_div_non_zero(n, decay_den(x));
    assert(decay_den(0) == 6_000_000_000_000_000_000_000_000);
    assert(n == 6_000_000_000_000_000_000_000_000 * (DECAY_ONE as int));
    lemma_div_multiples_vanish(DECAY_ONE as int, 6_000_000_000_000_000_000_000_000);
    assert(decay_spec(0) == DECAY_ONE as int);
    lemma_div_is_ordered_by_denominator(n, 6_000_000_000_000_000_000_000_000, decay_den(x));
    if x > 0 {
        lemma_decay_strict(0, x);
    }
}

/// Exact exec rendering of the decay curve.
pub fn decay(x: u64) -> (r: u128)
    requires
        x <= MAX_INPUT_MILLI,
    ensures
        r as int == decay_spec(x as int),
        1 <= r <= DECAY_ONE,
{
    let x1: u128 = x as u128;
    assert(x1 * x1 <= 10_000_000_000) by (nonlinear_arith)
        requires
            x1 <= 100_000,
    ;
    let x2: u128 = x1 * x1;
    assert(x2 * x2 <= 100_000_000_000_000_000_000) by (nonlinear_arith)
        requires
            x2 <= 10_000_000_000,
    ;
    let x4: u128 = x2 * x2;
    assert(x2 * x4 <= 1_000_000_000_000_000_000_000_000_000_000) by (nonlinear_arith)
        requires
            x2 <= 10_000_000_000,
            x4 <= 100_000_000_000_000_000_000,
    ;
    let x6: u128 = x2 * x4;
    let den: u128 = 6_000_000_000_000_000_000_000_000 + 60_000_000_000_000_000 * x2 + 300_000_000
        * x4 + x6;
    proof {
        assert(x4 as int == ((x as int) * (x as int)) * ((x as int) * (x as int))
            && x6 as int == ((x as int) * (x as int)) * (((x as int) * (x as int)) * ((x as int)
            * (x as int)))) by (nonlinear_arith)
            requires
                x2 as int == (x as int) * (x as int),
                x4 as int == (x2 as int) * (x2 as int),
                x6 as int == (x2 as int) * (x4 as int),
        ;
        assert(den as int == decay_den(x as int));
        lemma_decay_bounds(x as int);
    }
    DECAY_NUM / den
}

/// Fitness of one candidate: reliability `r_milli` and latency `t_milli`,
/// both in thousandths of their unit.
pub fn weighted_score(r_milli: u64, t_milli: u64) -> (fitness: u128)
    requires
        r_milli <= MAX_INPUT_MILLI,
        t_milli <= MAX_INPUT_MILLI,
    ensures
        fitness as int == score_spec(r_milli as int, t_milli as int),
        0 < fitness <= FITNESS_ONE,
{
    let dr = decay(r_milli);
    let dt = decay(t_milli);
    dr + dt
}

/// Lower latency (or lower reliability) strictly raises fitness, the other
/// input held fixed.
pub proof fn lemma_score_monotone(r: int, t1: int, t2: int)
    requires
        0 <= r <= MAX_INPUT_MILLI as int,
        0 <= t1 < t2 <= MAX_INPUT_MILLI as int,
    ensures
        score_spec(r, t1) > score_spec(r, t2),
        score_spec(t1, r) > score_spec(t2, r),
{
    lemma_decay_strict(t1, t2);
}

/// The two inputs are weighted alike: fitness is symmetric in them.
pub proof fn lemma_score_symmetric(a: int, b: int)
    ensures
        score_spec(a, b) == score_spec(b, a),
{
}

/// Fitness is bounded in `(0, FITNESS_ONE]` and reaches `FITNESS_ONE` exactly
/// when both inputs are zero.
pub proof fn lemma_score_bounded(r: int, t: int)
    requires
        0 <= r <= MAX_INPUT_MILLI as int,
        0 <= t <= MAX_INPUT_MILLI as int,
    ensures
        0 < score_spec(r, t) <= FITNESS_ONE as int,
        score_spec(r, t) == FITNESS_ONE as int <==> r == 0 && t == 0,
{
    lemma_decay_bounds(r);
    lemma_decay_bounds(t);
}

} // verus!
