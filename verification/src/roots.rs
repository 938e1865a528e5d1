//! Square root, reciprocal square root and cube root.
//!
//! Each starts from a guess made by integer arithmetic on the bit pattern and
//! refines it with Newton steps. The square roots are meant for arguments
//! that are not negative; other arguments give a number of no meaning.

use vstd::prelude::*;
use crate::arith::{
    divide,
    minus,
    plus,
    rounded_difference,
    rounded_product,
    rounded_quotient,
    rounded_sum,
    times,
};
use crate::bits::{abs, sign, spec_abs, spec_sign};

verus! {

/// One half.
pub const HALF: u32 = 0x3f00_0000;

/// One and a half.
pub const THREE_HALVES: u32 = 0x3fc0_0000;

/// What is added to a pattern before it is halved into a first guess at the
/// square root.
pub const SQRT_SEED: u32 = 0x3f76_9e5c;

/// What half a pattern is taken from to give a first guess at the reciprocal
/// square root.
pub const RSQRT_SEED: u32 = 0x5f37_59df;

/// What a third of a pattern is taken from to give a first guess at the
/// reciprocal cube root.
pub const CBRT_SEED: u32 = 0x548c_2b4b;

/// The coefficients of the correction applied to the first guess at the
/// reciprocal cube root.
pub const CBRT_A: u32 = 0x3fe0_4c03;

pub const CBRT_B: u32 = 0x3f02_66d9;

pub const CBRT_C: u32 = 0xbfa0_1f36;

/// One third, rounded up.
pub const THIRD: u32 = 0x3eaa_aaab;

/// The first guess at the square root: the pattern, offset and halved.
pub open spec fn sqrt_guess(x: u32) -> u32 {
    x.wrapping_add(SQRT_SEED) >> 1
}

/// One Newton step toward the square root of `x` from the guess `s`.
pub open spec fn sqrt_step(x: u32, s: u32) -> u32 {
    rounded_product(HALF, rounded_sum(s, rounded_quotient(x, s)))
}

/// The square root after one Newton step.
pub open spec fn spec_sqrt(x: u32) -> u32 {
    sqrt_step(x, sqrt_guess(x))
}

/// The square root after two Newton steps.
pub open spec fn spec_sqrt_refined(x: u32) -> u32 {
    sqrt_step(x, spec_sqrt(x))
}

/// The first guess at the reciprocal square root.
pub open spec fn rsqrt_guess(x: u32) -> u32 {
    RSQRT_SEED.wrapping_sub(x >> 1)
}

/// One Newton step toward the reciprocal square root from the guess `g`,
/// where `h` is half the argument.
pub open spec fn rsqrt_step(h: u32, g: u32) -> u32 {
    rounded_product(
        g,
        rounded_difference(THREE_HALVES, rounded_product(rounded_product(h, g), g)),
    )
}

/// The reciprocal square root after one Newton step.
pub open spec fn spec_rsqrt(x: u32) -> u32 {
    rsqrt_step(rounded_product(x, HALF), rsqrt_guess(x))
}

/// The reciprocal square root after two Newton steps.
pub open spec fn spec_rsqrt_refined(x: u32) -> u32 {
    rsqrt_step(rounded_product(x, HALF), spec_rsqrt(x))
}

/// The cube root of a magnitude `x`, by way of its reciprocal cube root.
pub open spec fn cbrt_magnitude(x: u32) -> u32 {
    let y0 = (CBRT_SEED - x / 3) as u32;
    let c0 = rounded_product(rounded_product(rounded_product(x, y0), y0), y0);
    let y = rounded_product(
        y0,
        rounded_sum(CBRT_A, rounded_product(c0, rounded_sum(rounded_product(CBRT_B, c0), CBRT_C))),
    );
    let d = rounded_product(rounded_product(x, y), y);
    let c = rounded_difference(d, rounded_product(rounded_product(d, d), y));
    rounded_sum(rounded_product(c, THIRD), d)
}

/// The cube root: that of the magnitude, with the sign put back.
pub open spec fn spec_cbrt(x: u32) -> u32 {
    rounded_product(spec_sign(x), cbrt_magnitude(spec_abs(x)))
}

#[verifier::when_used_as_spec(sqrt_step)]
fn sqrt_newton(x: u32, s: u32) -> (r: u32)
    ensures
        r == sqrt_step(x, s),
{
    times(HALF, plus(s, divide(x, s)))
}

#[verifier::when_used_as_spec(rsqrt_step)]
fn rsqrt_newton(h: u32, g: u32) -> (r: u32)
    ensures
        r == rsqrt_step(h, g),
{
    times(g, minus(THREE_HALVES, times(times(h, g), g)))
}

/// An approximate square root: a first guess from the bit pattern and one
/// Newton step `0.5 * (s + x / s)`.
#[verifier::when_used_as_spec(spec_sqrt)]
pub fn sqrt(x: u32) -> (r: u32)
    ensures
        r == spec_sqrt(x),
{
    let s: u32 = x.wrapping_add(SQRT_SEED) >> 1;
    sqrt_newton(x, s)
}

/// The square root with a second Newton step, for more accuracy.
#[verifier::when_used_as_spec(spec_sqrt_refined)]
pub fn sqrt_refined(x: u32) -> (r: u32)
    ensures
        r == spec_sqrt_refined(x),
{
    let s: u32 = sqrt(x);
    sqrt_newton(x, s)
}

/// An approximate reciprocal square root: a first guess from the bit pattern
/// and one Newton step `g * (1.5 - 0.5 * x * g * g)`.
#[verifier::when_used_as_spec(spec_rsqrt)]
pub fn rsqrt(x: u32) -> (r: u32)
    ensures
        r == spec_rsqrt(x),
{
    let h: u32 = times(x, HALF);
    let g: u32 = RSQRT_SEED.wrapping_sub(x >> 1);
    rsqrt_newton(h, g)
}

/// The reciprocal square root with a second Newton step, for more accuracy.
#[verifier::when_used_as_spec(spec_rsqrt_refined)]
pub fn rsqrt_refined(x: u32) -> (r: u32)
    ensures
        r == spec_rsqrt_refined(x),
{
    let h: u32 = times(x, HALF);
    let g: u32 = rsqrt(x);
    rsqrt_newton(h, g)
}

/// An approximate cube root, defined for negative arguments too: the sign is
/// set aside, the magnitude's root is found by way of its reciprocal cube
/// root, and the sign is multiplied back on.
#[verifier::when_used_as_spec(spec_cbrt)]
pub fn cbrt(x: u32) -> (r: u32)
    ensures
        r == spec_cbrt(x),
{
    let s: u32 = sign(x);
    let x: u32 = abs(x);
    let y: u32 = CBRT_SEED - x / 3;
    let c: u32 = times(times(times(x, y), y), y);
    let y: u32 = times(y, plus(CBRT_A, times(c, plus(times(CBRT_B, c), CBRT_C))));
    let d: u32 = times(times(x, y), y);
    let c: u32 = minus(d, times(times(d, d), y));
    let c: u32 = plus(times(c, THIRD), d);
    times(s, c)
}

} // verus!
