//! Sine, cosine, tangent and their inverses.
//!
//! The arguments are reduced to a short interval and a polynomial or a
//! rational function is evaluated there. The error is smallest near the
//! middle of each interval and grows toward its ends.

use vstd::prelude::*;
use crate::arith::{
    divide,
    less,
    less_than,
    minus,
    negate,
    negated,
    plus,
    rounded_difference,
    rounded_product,
    rounded_quotient,
    rounded_sum,
    times,
};
use crate::bits::{abs, sign, sign_bit, spec_abs, spec_sign, spec_sign_bit};
use crate::encoding::ONE;
use crate::rounding::{modulo, round, spec_modulo, spec_round};
use crate::roots::{spec_sqrt, sqrt};
use crate::select::{max, min, spec_max, spec_min};

verus! {

/// The half turn.
pub const PI: u32 = 0x4049_0fdb;

/// The quarter turn.
pub const HALF_PI: u32 = 0x3fc9_0fdb;

/// The eighth of a turn.
pub const QUARTER_PI: u32 = 0x3f49_0fdb;

/// The full turn.
pub const TAU: u32 = 0x40c9_0fdb;

/// The reciprocal of the half turn.
pub const INV_PI: u32 = 0x3ea2_f983;

pub const TWO: u32 = 0x4000_0000;

/// The coefficients of the two cubic corrections in the cosine.
pub const COS_A: u32 = 0xbc96_e670;

pub const COS_B: u32 = 0xbe17_b083;

/// The coefficients of the rational function for the tangent.
pub const TAN_A: u32 = 0xbc99_4764;

pub const TAN_B: u32 = 0x3ea1_b529;

pub const TAN_C: u32 = 0x3fa3_0738;

/// The coefficients of the polynomial for the arctangent of a ratio.
pub const ATAN_A: u32 = 0xbd3e_7316;

pub const ATAN_B: u32 = 0x3e23_2344;

pub const ATAN_C: u32 = 0x3ea7_be2c;

/// The constants of the arcsine: the centre and weight of its quadratic
/// correction, the weight of the squared term and the offset.
pub const ASIN_CENTRE: u32 = 0x3eb3_3333;

pub const ASIN_SQUARE: u32 = 0x3df5_c28f;

pub const ASIN_OFFSET: u32 = 0x3d07_ae14;

pub const ASIN_WEIGHT: u32 = 0x3e98_a3d7;

/// One cubic correction: `x + (k * x) * (x * x)`.
pub open spec fn cubic_correction(k: u32, x: u32) -> u32 {
    rounded_sum(x, rounded_product(rounded_product(k, x), rounded_product(x, x)))
}

/// The argument of the cosine, brought into the quarter turn around zero.
pub open spec fn cos_reduced(x: u32) -> u32 {
    rounded_difference(spec_abs(rounded_difference(spec_modulo(x, TAU), PI)), HALF_PI)
}

/// The cosine.
pub open spec fn spec_cos(x: u32) -> u32 {
    cubic_correction(COS_B, cubic_correction(COS_A, cos_reduced(x)))
}

/// The sine: the cosine a quarter turn back.
pub open spec fn spec_sin(x: u32) -> u32 {
    spec_cos(rounded_difference(x, HALF_PI))
}

/// The argument of the tangent in half turns, wrapped to the nearest whole
/// and doubled.
pub open spec fn tan_reduced(x: u32) -> u32 {
    let t = rounded_product(x, INV_PI);
    rounded_product(TWO, rounded_difference(t, spec_round(t)))
}

/// The tangent.
pub open spec fn spec_tan(x: u32) -> u32 {
    let t = tan_reduced(x);
    let y = rounded_difference(ONE, rounded_product(t, t));
    rounded_product(
        t,
        rounded_sum(rounded_sum(rounded_product(TAN_A, y), TAN_B), rounded_quotient(TAN_C, y)),
    )
}

/// The arcsine.
pub open spec fn spec_asin(x: u32) -> u32 {
    let s = spec_sign(x);
    let m = spec_abs(x);
    let z = rounded_difference(ONE, spec_sqrt(rounded_difference(ONE, rounded_product(m, m))));
    let a = rounded_difference(m, ASIN_CENTRE);
    let main = rounded_product(
        QUARTER_PI,
        rounded_sum(rounded_sum(m, z), rounded_product(rounded_product(ASIN_SQUARE, z), z)),
    );
    let correction = rounded_product(rounded_product(ASIN_WEIGHT, a), a);
    rounded_product(s, rounded_difference(rounded_sum(main, ASIN_OFFSET), correction))
}

/// The arccosine.
pub open spec fn spec_acos(x: u32) -> u32 {
    rounded_sum(spec_asin(negated(x)), HALF_PI)
}

/// The arctangent of a ratio `t` between zero and one.
pub open spec fn atan_of_ratio(t: u32) -> u32 {
    let r = rounded_product(t, t);
    let p = rounded_difference(
        rounded_product(rounded_sum(rounded_product(ATAN_A, r), ATAN_B), r),
        ATAN_C,
    );
    rounded_sum(rounded_product(rounded_product(p, r), t), t)
}

/// The angle of the point `(x, y)`.
pub open spec fn spec_atan2(y: u32, x: u32) -> u32 {
    let nx = spec_sign_bit(x);
    let ny = y & 0x8000_0000;
    let ax = spec_abs(x);
    let ay = spec_abs(y);
    let p: u32 = if less_than(ax, ay) {
        1
    } else {
        0
    };
    let t = rounded_quotient(spec_min(ax, ay), spec_max(ax, ay));
    let r = rounded_difference(atan_of_ratio(t), (p * HALF_PI) as u32);
    let u = r ^ ((p ^ nx) << 31);
    let v = rounded_sum(u, (nx * PI) as u32);
    (v & 0x7fff_ffff) | ny
}

#[verifier::when_used_as_spec(cubic_correction)]
fn correct_cubic(k: u32, x: u32) -> (r: u32)
    ensures
        r == cubic_correction(k, x),
{
    plus(x, times(times(k, x), times(x, x)))
}

/// An approximate cosine. The argument is folded into one turn and then into
/// the quarter turn around zero, where two cubic corrections are applied.
#[verifier::when_used_as_spec(spec_cos)]
pub fn cos(x: u32) -> (r: u32)
    ensures
        r == spec_cos(x),
{
    let x: u32 = minus(abs(minus(modulo(x, TAU), PI)), HALF_PI);
    let x: u32 = correct_cubic(COS_A, x);
    correct_cubic(COS_B, x)
}

/// An approximate sine: `cos(x - pi / 2)`.
#[verifier::when_used_as_spec(spec_sin)]
pub fn sin(x: u32) -> (r: u32)
    ensures
        r == spec_sin(x),
        r == spec_cos(rounded_difference(x, HALF_PI)),
{
    cos(minus(x, HALF_PI))
}

/// An approximate tangent: the argument in half turns is wrapped to the
/// nearest whole, and `t * (a * y + b + c / y)` is taken with `y = 1 - t * t`.
#[verifier::when_used_as_spec(spec_tan)]
pub fn tan(x: u32) -> (r: u32)
    ensures
        r == spec_tan(x),
{
    let x: u32 = times(x, INV_PI);
    let x: u32 = times(TWO, minus(x, round(x)));
    let y: u32 = minus(ONE, times(x, x));
    times(x, plus(plus(times(TAN_A, y), TAN_B), divide(TAN_C, y)))
}

/// An approximate arcsine, meant for arguments from minus one to one. Other
/// arguments give a number of no meaning.
#[verifier::when_used_as_spec(spec_asin)]
pub fn asin(x: u32) -> (r: u32)
    ensures
        r == spec_asin(x),
{
    let s: u32 = sign(x);
    let x: u32 = abs(x);
    let z: u32 = minus(ONE, sqrt(minus(ONE, times(x, x))));
    let a: u32 = minus(x, ASIN_CENTRE);
    let main: u32 = times(QUARTER_PI, plus(plus(x, z), times(times(ASIN_SQUARE, z), z)));
    let correction: u32 = times(times(ASIN_WEIGHT, a), a);
    times(s, minus(plus(main, ASIN_OFFSET), correction))
}

/// An approximate arccosine: `asin(-x) + pi / 2`.
#[verifier::when_used_as_spec(spec_acos)]
pub fn acos(x: u32) -> (r: u32)
    ensures
        r == spec_acos(x),
{
    plus(asin(negate(x)), HALF_PI)
}

/// An approximate two-argument arctangent over all four quadrants. A
/// polynomial gives the angle of the smaller magnitude over the larger; the
/// octant and the quadrant are then put right by flipping and setting sign
/// bits.
#[verifier::when_used_as_spec(spec_atan2)]
pub fn atan2(y: u32, x: u32) -> (r: u32)
    ensures
        r == spec_atan2(y, x),
{
    let nx: u32 = sign_bit(x);
    let ny: u32 = y & 0x8000_0000;
    let x: u32 = abs(x);
    let y: u32 = abs(y);
    let p: u32 = if less(x, y) {
        1
    } else {
        0
    };
    let t: u32 = divide(min(x, y), max(x, y));
    let r: u32 = times(t, t);
    let q: u32 = minus(times(plus(times(ATAN_A, r), ATAN_B), r), ATAN_C);
    let r: u32 = plus(times(times(q, r), t), t);
    let r: u32 = minus(r, p * HALF_PI);
    let u: u32 = r ^ ((p ^ nx) << 31);
    let v: u32 = plus(u, nx * PI);
    (v & 0x7fff_ffff) | ny
}

} // verus!
