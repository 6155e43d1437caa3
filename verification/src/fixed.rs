//! Fixed-point scalar arithmetic.
//!
//! A scalar value is stored as an `i64` (or, in wide intermediates, an
//! `i128`) count of units of `1 / SCALE`.  The helpers here give the two
//! division flavors the renderer needs — truncation toward zero (the behavior
//! of a float-to-integer cast) and rounding to the nearest integer, half away
//! from zero — together with the rounding-error bound that the clipper's
//! slope-preservation argument rests on.

use vstd::prelude::*;

verus! {

/// Number of fixed-point units in 1.0.
pub const SCALE: i64 = 10_000;

/// `pi * SCALE`, rounded to the nearest unit.
pub const PI_FP: i64 = 31_416;

/// `2 * pi * SCALE`, rounded to the nearest unit.
pub const TWO_PI_FP: i64 = 62_832;

/// `pi / 2 * SCALE`, rounded to the nearest unit.
pub const HALF_PI_FP: i64 = 15_708;

/// Quotient `a / b` rounded toward zero, for a positive divisor.
pub open spec fn spec_div_trunc(a: int, b: int) -> int {
    if a >= 0 {
        a / b
    } else {
        -((-a) / b)
    }
}

/// Quotient `a / b` rounded to the nearest integer, halves away from zero,
/// for a positive divisor.
pub open spec fn spec_round_div(a: int, b: int) -> int {
    if a >= 0 {
        (a + b / 2) / b
    } else {
        -((-a + b / 2) / b)
    }
}

/// `v` clamped into `[lo, hi]`.
pub open spec fn spec_clamp(v: int, lo: int, hi: int) -> int {
    if v < lo {
        lo
    } else if v > hi {
        hi
    } else {
        v
    }
}

/// `v` saturated into the `i32` range, as a float-to-`i32` cast would do.
pub open spec fn spec_sat_i32(v: int) -> int {
    spec_clamp(v, i32::MIN as int, i32::MAX as int)
}

/// Quotient rounded toward zero; the divisor must be positive.
pub fn div_trunc(a: i128, b: i128) -> (r: i128)
    requires
        0 < b,
        i128::MIN < a,
    ensures
        r == spec_div_trunc(a as int, b as int),
{
    if a >= 0 {
        let q: u128 = (a as u128) / (b as u128);
        q as i128
    } else {
        let q: u128 = ((-a) as u128) / (b as u128);
        -(q as i128)
    }
}

/// Quotient rounded to the nearest integer, halves away from zero; the
/// divisor must be positive.
pub fn round_div(a: i128, b: i128) -> (r: i128)
    requires
        0 < b < 0x4000_0000_0000_0000_0000_0000_0000_0000,
        -0x4000_0000_0000_0000_0000_0000_0000_0000 < a
            < 0x4000_0000_0000_0000_0000_0000_0000_0000,
    ensures
        r == spec_round_div(a as int, b as int),
{
    let h: u128 = (b as u128) / 2;
    if a >= 0 {
        let q: u128 = ((a as u128) + h) / (b as u128);
        q as i128
    } else {
        let q: u128 = (((-a) as u128) + h) / (b as u128);
        -(q as i128)
    }
}

/// The rounded quotient is within half a divisor of the exact ratio:
/// `|a - round_div(a, b) * b|` never exceeds `b / 2` (scaled by 2 to stay in
/// integers).
pub proof fn lemma_round_div_error(a: int, b: int)
    requires
        b > 0,
    ensures
        2 * abs(a - spec_round_div(a, b) * b) <= b,
{
    let h = b / 2;
    vstd::arithmetic::div_mod::lemma_fundamental_div_mod(b, 2);
    assert(2 * h <= b && b <= 2 * h + 1);
    if a >= 0 {
        let q = (a + h) / b;
        let r = (a + h) % b;
        vstd::arithmetic::div_mod::lemma_fundamental_div_mod(a + h, b);
        assert(a + h == b * q + r);
        assert(0 <= r < b);
        assert(a - q * b == r - h);
        assert(2 * (r - h) <= 2 * (b - 1 - h));
        assert(2 * (b - 1 - h) <= b);
        assert(2 * (r - h) >= -(2 * h));
    } else {
        let a2 = -a;
        let q = (a2 + h) / b;
        let r = (a2 + h) % b;
        vstd::arithmetic::div_mod::lemma_fundamental_div_mod(a2 + h, b);
        assert(a2 + h == b * q + r);
        assert(0 <= r < b);
        assert(a2 - q * b == r - h);
        assert(spec_round_div(a, b) == -q);
        assert(a - spec_round_div(a, b) * b == -(a2 - q * b)) by {
            assert((-q) * b == -(q * b)) by (nonlinear_arith);
        }
        assert(2 * (r - h) <= 2 * (b - 1 - h));
        assert(2 * (b - 1 - h) <= b);
        assert(2 * (r - h) >= -(2 * h));
    }
}

/// Rounding a ratio with a divisor of at least one never grows the
/// magnitude.
pub proof fn lemma_round_div_mag(a: int, b: int)
    requires
        b >= 1,
    ensures
        spec_round_div(a, b) <= if a >= 0 {
            a
        } else {
            -a
        },
        spec_round_div(a, b) >= if a >= 0 {
            -a
        } else {
            a
        },
{
    let h = b / 2;
    assert(0 <= h < b);
    if a >= 0 {
        assert((a + h) / b <= a) by (nonlinear_arith)
            requires
                0 <= a,
                0 <= h < b,
        ;
        assert((a + h) / b >= 0) by (nonlinear_arith)
            requires
                0 <= a,
                0 <= h,
                1 <= b,
        ;
    } else {
        assert((-a + h) / b <= -a) by (nonlinear_arith)
            requires
                a < 0,
                0 <= h < b,
        ;
        assert((-a + h) / b >= 0) by (nonlinear_arith)
            requires
                a < 0,
                0 <= h,
                1 <= b,
        ;
    }
}

/// An upper bound on a truncated quotient from one on the dividend.
pub proof fn lemma_div_trunc_le(a: int, b: int, c: int)
    requires
        b >= 1,
        c >= 0,
        a <= c * b,
    ensures
        spec_div_trunc(a, b) <= c,
{
    if a >= 0 {
        assert(a / b <= c) by (nonlinear_arith)
            requires
                0 <= a <= c * b,
                b >= 1,
                c >= 0,
        ;
    } else {
        assert((-a) / b >= 0) by (nonlinear_arith)
            requires
                a < 0,
                b >= 1,
        ;
    }
}

/// A lower bound on a truncated quotient from one on the dividend.
pub proof fn lemma_div_trunc_ge(a: int, b: int, c: int)
    requires
        b >= 1,
        c >= 0,
        a >= -(c * b),
    ensures
        spec_div_trunc(a, b) >= -c,
{
    if a >= 0 {
        assert(a / b >= 0) by (nonlinear_arith)
            requires
                0 <= a,
                b >= 1,
        ;
    } else {
        assert((-a) / b <= c) by (nonlinear_arith)
            requires
                0 < -a <= c * b,
                b >= 1,
                c >= 0,
        ;
    }
}

/// Truncated division never grows the magnitude.
pub proof fn lemma_div_trunc_abs(a: int, b: int, m: int)
    requires
        b >= 1,
        0 <= m,
        -m <= a <= m,
    ensures
        -m <= spec_div_trunc(a, b) <= m,
{
    if a >= 0 {
        assert(a / b <= a) by (nonlinear_arith)
            requires
                0 <= a,
                b >= 1,
        ;
        assert(a / b >= 0) by (nonlinear_arith)
            requires
                0 <= a,
                b >= 1,
        ;
    } else {
        assert((-a) / b <= -a) by (nonlinear_arith)
            requires
                a < 0,
                b >= 1,
        ;
        assert((-a) / b >= 0) by (nonlinear_arith)
            requires
                a < 0,
                b >= 1,
        ;
    }
}

/// Bounds on both factors bound the product's magnitude.
pub proof fn lemma_mul_mag(a: int, b: int, ma: int, mb: int)
    requires
        0 <= ma,
        0 <= mb,
        -ma <= a <= ma,
        -mb <= b <= mb,
    ensures
        -(ma * mb) <= a * b <= ma * mb,
{
    assert(-(ma * mb) <= a * b <= ma * mb) by (nonlinear_arith)
        requires
            0 <= ma,
            0 <= mb,
            -ma <= a <= ma,
            -mb <= b <= mb,
    ;
}

/// Absolute value of an integer.
pub open spec fn abs(x: int) -> int {
    if x >= 0 {
        x
    } else {
        -x
    }
}

/// `v` clamped into `[lo, hi]`.
pub fn clamp_i64(v: i64, lo: i64, hi: i64) -> (r: i64)
    requires
        lo <= hi,
    ensures
        r == spec_clamp(v as int, lo as int, hi as int),
{
    if v < lo {
        lo
    } else if v > hi {
        hi
    } else {
        v
    }
}

/// `v` saturated into the `i32` range.
pub fn sat_i32(v: i128) -> (r: i32)
    ensures
        r == spec_sat_i32(v as int),
{
    if v < i32::MIN as i128 {
        i32::MIN
    } else if v > i32::MAX as i128 {
        i32::MAX
    } else {
        v as i32
    }
}

} // verus!
