//! Fixed-point sine and cosine.
//!
//! The camera angles are fixed-point radians in `[0, TWO_PI_FP)`.  Sine on
//! the half turn is computed with Bhaskara's rational approximation
//! `16 x (pi - x) / (5 pi^2 - 4 x (pi - x))`, entirely in integers; the
//! second half turn is its negation and cosine is a quarter-turn shift.
//! Both functions are pure: the result is pinned to a spec-level formula of
//! the argument alone, and bounded by one fixed-point unit in magnitude.

use crate::fixed::{HALF_PI_FP, PI_FP, SCALE, TWO_PI_FP};
use vstd::prelude::*;

verus! {

/// Sine on `[0, PI_FP]`, in fixed-point units; nonnegative there.
pub open spec fn spec_sin_half(x: int) -> int {
    let a = x * (PI_FP - x);
    (16 * a * SCALE) / (5 * PI_FP * PI_FP - 4 * a)
}

/// Sine on `[0, TWO_PI_FP)`, in fixed-point units.
pub open spec fn spec_sin(x: int) -> int {
    if x <= PI_FP {
        spec_sin_half(x)
    } else {
        -spec_sin_half(x - PI_FP)
    }
}

/// Cosine on `[0, TWO_PI_FP)`, in fixed-point units: sine shifted a quarter
/// turn.
pub open spec fn spec_cos(x: int) -> int {
    if x + HALF_PI_FP < TWO_PI_FP {
        spec_sin(x + HALF_PI_FP)
    } else {
        spec_sin(x + HALF_PI_FP - TWO_PI_FP)
    }
}

/// The quadratic `x (pi - x)` stays within `[0, pi^2 / 4]` on `[0, pi]`.
proof fn lemma_quad_bounds(x: int)
    requires
        0 <= x <= PI_FP,
    ensures
        0 <= x * (PI_FP - x),
        4 * (x * (PI_FP - x)) <= PI_FP * PI_FP,
{
    assert(0 <= x * (PI_FP - x)) by (nonlinear_arith)
        requires
            0 <= x <= PI_FP,
    ;
    assert(4 * (x * (PI_FP - x)) <= PI_FP * PI_FP) by (nonlinear_arith)
        requires
            0 <= x <= PI_FP,
    ;
}

/// Sine on the first half turn: equals its spec formula and lies in
/// `[0, SCALE]`.
fn sin_half(x: i64) -> (r: i64)
    requires
        0 <= x <= PI_FP,
    ensures
        r == spec_sin_half(x as int),
        0 <= r <= SCALE,
{
    proof {
        lemma_quad_bounds(x as int);
    }
    let a: i64 = x * (PI_FP - x);
    let num: i64 = 16 * a * SCALE;
    let den: i64 = 5 * PI_FP * PI_FP - 4 * a;
    let r: i64 = ((num as u64) / (den as u64)) as i64;
    proof {
        assert(num as int / den as int <= SCALE) by (nonlinear_arith)
            requires
                num == 16 * (a as int) * SCALE,
                den == 5 * PI_FP * PI_FP - 4 * a,
                0 <= a,
                4 * (a as int) <= PI_FP * PI_FP,
        ;
    }
    r
}

/// Sine of a fixed-point angle in `[0, TWO_PI_FP)`.
pub fn sin_fp(x: i64) -> (r: i64)
    requires
        0 <= x < TWO_PI_FP,
    ensures
        r == spec_sin(x as int),
        -SCALE <= r <= SCALE,
{
    if x <= PI_FP {
        sin_half(x)
    } else {
        -sin_half(x - PI_FP)
    }
}

/// Cosine of a fixed-point angle in `[0, TWO_PI_FP)`.
pub fn cos_fp(x: i64) -> (r: i64)
    requires
        0 <= x < TWO_PI_FP,
    ensures
        r == spec_cos(x as int),
        -SCALE <= r <= SCALE,
{
    let y: i64 = if x + HALF_PI_FP < TWO_PI_FP {
        x + HALF_PI_FP
    } else {
        x + HALF_PI_FP - TWO_PI_FP
    };
    sin_fp(y)
}

/// On `[0, HALF_PI_FP]` the cosine is nonnegative: the shifted argument
/// stays in the first half turn.
pub proof fn lemma_cos_nonneg(x: int)
    requires
        0 <= x <= HALF_PI_FP,
    ensures
        0 <= spec_cos(x),
{
    assert(x + HALF_PI_FP <= PI_FP);
    lemma_sin_half_bounds(x + HALF_PI_FP);
}

/// On the first half turn the sine lies in `[0, SCALE]`.
pub proof fn lemma_sin_half_bounds(x: int)
    requires
        0 <= x <= PI_FP,
    ensures
        0 <= spec_sin_half(x) <= SCALE,
{
    lemma_quad_bounds(x);
    let a = x * (PI_FP - x);
    let num = 16 * a * SCALE;
    let den = 5 * PI_FP * PI_FP - 4 * a;
    assert(num / den <= SCALE) by (nonlinear_arith)
        requires
            num == 16 * a * SCALE,
            den == 5 * PI_FP * PI_FP - 4 * a,
            0 <= a,
            4 * a <= PI_FP * PI_FP,
    ;
    assert(num / den >= 0) by (nonlinear_arith)
        requires
            num == 16 * a * SCALE,
            den == 5 * PI_FP * PI_FP - 4 * a,
            0 <= a,
            4 * a <= PI_FP * PI_FP,
    ;
}

} // verus!
