//! Saturating fixed-point arithmetic on `i64` scalars.
//!
//! A scalar holds `value * SCALE` as an `i64`. Every operation computes the
//! exact mathematical result, truncates division toward zero, and saturates
//! at the `i64` bounds. Each executable operation is pinned exactly to its
//! spec-level counterpart.

use vstd::prelude::*;

verus! {

/// Raw units per 1.0: a scalar `x` represents the real number `x / SCALE`.
pub const SCALE: i64 = 1_000_000;

/// Saturation to the `i64` range.
pub open spec fn fx_clip(x: int) -> int {
    if x > i64::MAX as int {
        i64::MAX as int
    } else if x < i64::MIN as int {
        i64::MIN as int
    } else {
        x
    }
}

/// Absolute value.
pub open spec fn abs_val(x: int) -> int {
    if x < 0 {
        -x
    } else {
        x
    }
}

/// Division truncating toward zero (as machine division does).
pub open spec fn trunc_div(x: int, y: int) -> int
    recommends
        y != 0,
{
    if (x < 0) == (y < 0) {
        abs_val(x) / abs_val(y)
    } else {
        -(abs_val(x) / abs_val(y))
    }
}

pub open spec fn fx_add_spec(a: int, b: int) -> int {
    fx_clip(a + b)
}

pub open spec fn fx_sub_spec(a: int, b: int) -> int {
    fx_clip(a - b)
}

pub open spec fn fx_mul_spec(a: int, b: int) -> int {
    fx_clip(trunc_div(a * b, SCALE as int))
}

pub open spec fn fx_div_spec(a: int, b: int) -> int
    recommends
        b != 0,
{
    fx_clip(trunc_div(a * (SCALE as int), b))
}

/// Division of a scalar by an unscaled count (used for averaging).
pub open spec fn fx_divn_spec(a: int, n: int) -> int
    recommends
        n > 0,
{
    fx_clip(trunc_div(a, n))
}

fn clip_i128(x: i128) -> (r: i64)
    ensures
        r as int == fx_clip(x as int),
{
    if x > i64::MAX as i128 {
        i64::MAX
    } else if x < i64::MIN as i128 {
        i64::MIN
    } else {
        x as i64
    }
}

fn abs_mag(a: i64) -> (r: u128)
    ensures
        r as int == abs_val(a as int),
{
    if a >= 0 {
        a as u128
    } else {
        let w: i128 = -(a as i128);
        w as u128
    }
}

fn from_mag(neg: bool, q: u128) -> (r: i64)
    ensures
        r as int == fx_clip(if neg { -(q as int) } else { q as int }),
{
    if neg {
        if q >= (i64::MAX as u128) + 1 {
            i64::MIN
        } else {
            -(q as i64)
        }
    } else {
        if q > i64::MAX as u128 {
            i64::MAX
        } else {
            q as i64
        }
    }
}

/// Saturating addition of two scalars.
pub fn fx_add(a: i64, b: i64) -> (r: i64)
    ensures
        r as int == fx_add_spec(a as int, b as int),
{
    clip_i128(a as i128 + b as i128)
}

/// Saturating subtraction of two scalars.
pub fn fx_sub(a: i64, b: i64) -> (r: i64)
    ensures
        r as int == fx_sub_spec(a as int, b as int),
{
    clip_i128(a as i128 - b as i128)
}

proof fn lemma_abs_mul(a: int, b: int)
    ensures
        abs_val(a * b) == abs_val(a) * abs_val(b),
        (a < 0) == (b < 0) ==> a * b >= 0,
        a != 0 && b != 0 && ((a < 0) != (b < 0)) ==> a * b < 0,
{
    assert(abs_val(a * b) == abs_val(a) * abs_val(b)
        && ((a < 0) == (b < 0) ==> a * b >= 0)
        && (a != 0 && b != 0 && ((a < 0) != (b < 0)) ==> a * b < 0)) by (nonlinear_arith);
}

/// Saturating fixed-point multiplication: `(a * b) / SCALE`, truncated.
pub fn fx_mul(a: i64, b: i64) -> (r: i64)
    ensures
        r as int == fx_mul_spec(a as int, b as int),
{
    let neg: bool = (a < 0) != (b < 0);
    let ma: u128 = abs_mag(a);
    let mb: u128 = abs_mag(b);
    proof {
        assert((ma as int) * (mb as int) <= 0x8000_0000_0000_0000 * 0x8000_0000_0000_0000)
            by (nonlinear_arith)
            requires
                0 <= ma as int <= 0x8000_0000_0000_0000,
                0 <= mb as int <= 0x8000_0000_0000_0000,
        ;
    }
    let p: u128 = ma * mb;
    let q: u128 = p / (SCALE as u128);
    proof {
        lemma_abs_mul(a as int, b as int);
        if a as int * b as int == 0 {
            assert(q == 0);
        }
    }
    from_mag(neg, q)
}

/// Saturating fixed-point division: `(a * SCALE) / b`, truncated.
pub fn fx_div(a: i64, b: i64) -> (r: i64)
    requires
        b != 0,
    ensures
        r as int == fx_div_spec(a as int, b as int),
{
    let neg: bool = (a < 0) != (b < 0);
    let ma: u128 = abs_mag(a);
    let mb: u128 = abs_mag(b);
    proof {
        assert((ma as int) * (SCALE as int) <= 0x8000_0000_0000_0000 * 0x1000_0000)
            by (nonlinear_arith)
            requires
                0 <= ma as int <= 0x8000_0000_0000_0000,
                0 < SCALE as int <= 0x1000_0000,
        ;
    }
    let p: u128 = ma * (SCALE as u128);
    let q: u128 = p / mb;
    proof {
        lemma_abs_mul(a as int, SCALE as int);
        if a as int * SCALE as int == 0 {
            assert(q == 0);
        }
    }
    from_mag(neg, q)
}

/// Division of a scalar by a positive count, truncated toward zero.
pub fn fx_divn(a: i64, n: usize) -> (r: i64)
    requires
        n > 0,
    ensures
        r as int == fx_divn_spec(a as int, n as int),
{
    let neg: bool = a < 0;
    let ma: u128 = abs_mag(a);
    let q: u128 = ma / (n as u128);
    from_mag(neg, q)
}

} // verus!
