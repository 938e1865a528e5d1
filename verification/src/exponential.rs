//! Exponentials, the base-two logarithm and the hyperbolic functions.
//!
//! The exponent field of a pattern is a base-two logarithm in integer form,
//! so a scaled number read as a pattern is nearly its own power of two, and a
//! pattern read as an integer is nearly its own logarithm. The refined
//! variants add a quadratic in the fraction.

use vstd::prelude::*;
use crate::arith::{
    as_unsigned,
    divide,
    from_signed,
    from_unsigned,
    less,
    less_than,
    minus,
    of_signed,
    of_unsigned,
    plus,
    rounded_difference,
    rounded_product,
    rounded_quotient,
    rounded_sum,
    times,
    to_unsigned,
};
use crate::bits::{abs, sign, spec_abs, spec_sign};
use crate::encoding::ONE;

verus! {

/// Two to the twenty-third: the scale between a number and the exponent
/// field of a pattern.
pub const FIELD_SCALE: u32 = 0x4b00_0000;

/// Two to the minus twenty-third.
pub const INV_FIELD_SCALE: u32 = 0x3400_0000;

/// The exponent bias, lowered a little to spread the error.
pub const BIAS: u32 = 0x42fd_e2a9;

/// The base-two logarithm of Euler's number, and its negation.
pub const LOG2_E: u32 = 0x3fb8_aa3b;

pub const NEG_LOG2_E: u32 = 0xbfb8_aa3b;

/// The coefficients of the quadratic in the refined power of two.
pub const EXP2_A: u32 = 0x27ac_a418;

pub const EXP2_B: u32 = 0x33a8_5ada;

pub const EXP2_C: u32 = 0x3f80_3884;

/// The coefficients of the quadratic in the refined logarithm.
pub const LOG2_A: u32 = 0xbf21_3248;

pub const LOG2_B: u32 = 0x3fbb_c593;

/// The constants of the hyperbolic tangent: below one a polynomial, from
/// one on a rational correction.
pub const TANH_SQUARE: u32 = 0x3d8f_5c29;

pub const TANH_INNER: u32 = 0xc08d_b6db;

pub const TANH_A: u32 = 0x3f86_6666;

pub const TANH_B: u32 = 0x3dcc_cccd;

pub const TANH_C: u32 = 0x3f8b_851f;

/// Two to the `x`: the biased and scaled argument read as a pattern.
#[verifier::opaque]
pub open spec fn spec_exp2(x: u32) -> u32 {
    as_unsigned(rounded_product(rounded_sum(x, BIAS), FIELD_SCALE))
}

/// Two to the `x`, refined: the whole part of the scaled argument goes into
/// the exponent field and a quadratic in the rest gives the fraction.
pub open spec fn spec_exp2_refined(x: u32) -> u32 {
    let n = as_unsigned(rounded_product(x, FIELD_SCALE));
    let l = n & 0xff80_0000;
    let f = of_unsigned((n - l) as u32);
    let q = rounded_sum(
        rounded_product(rounded_sum(rounded_product(EXP2_A, f), EXP2_B), f),
        EXP2_C,
    );
    l.wrapping_add(q)
}

/// Euler's number to the `x`.
pub open spec fn spec_exp(x: u32) -> u32 {
    spec_exp2(rounded_product(x, LOG2_E))
}

/// The base-two logarithm: the pattern read as an integer, scaled back and
/// freed of the bias.
#[verifier::opaque]
pub open spec fn spec_log2(x: u32) -> u32 {
    rounded_difference(rounded_product(of_unsigned(x), INV_FIELD_SCALE), BIAS)
}

/// The base-two logarithm, refined: the exponent field, rounded by the top
/// fraction bit, and a quadratic in what the fraction leaves.
pub open spec fn spec_log2_refined(x: u32) -> u32 {
    let c = (x >> 23) & 0xff;
    let d = x & 0x007f_ffff;
    let a = (x >> 22) & 1;
    let m = rounded_difference(d | ((a ^ 0x7f) << 23), ONE);
    let f = of_signed((a + c - 127) as i32);
    rounded_sum(f, rounded_product(m, rounded_sum(rounded_product(m, LOG2_A), LOG2_B)))
}

/// The exponent of the growing half of a hyperbolic function.
pub open spec fn rising(x: u32) -> u32 {
    rounded_difference(rounded_product(LOG2_E, x), ONE)
}

/// The exponent of the decaying half of a hyperbolic function.
pub open spec fn falling(x: u32) -> u32 {
    rounded_difference(rounded_product(NEG_LOG2_E, x), ONE)
}

/// The hyperbolic sine.
pub open spec fn spec_sinh(x: u32) -> u32 {
    rounded_difference(spec_exp2(rising(x)), spec_exp2(falling(x)))
}

/// The hyperbolic cosine.
pub open spec fn spec_cosh(x: u32) -> u32 {
    rounded_sum(spec_exp2(rising(x)), spec_exp2(falling(x)))
}

/// The hyperbolic tangent of a magnitude below one, with the sign `s`.
pub open spec fn tanh_small(s: u32, m: u32) -> u32 {
    let z = rounded_product(rounded_product(TANH_SQUARE, m), m);
    rounded_product(
        s,
        rounded_sum(m, rounded_product(rounded_sum(rounded_product(z, m), TANH_INNER), z)),
    )
}

/// The hyperbolic tangent of a magnitude of one or more, with the sign `s`.
pub open spec fn tanh_large(s: u32, m: u32) -> u32 {
    let w = rounded_sum(
        rounded_product(rounded_difference(rounded_product(TANH_A, m), TANH_B), m),
        TANH_C,
    );
    rounded_difference(s, rounded_quotient(s, rounded_product(w, w)))
}

/// The hyperbolic tangent.
pub open spec fn spec_tanh(x: u32) -> u32 {
    let s = spec_sign(x);
    let m = spec_abs(x);
    if less_than(m, ONE) {
        tanh_small(s, m)
    } else {
        tanh_large(s, m)
    }
}

/// What the masks of the refined variants leave.
proof fn lemma_field_masks(n: u32)
    by (bit_vector)
    ensures
        n & 0xff80_0000 <= n,
        (n >> 23) & 0xff <= 255,
        (n >> 22) & 1 <= 1,
{
}

/// An approximate power of two, in one step: `(x + bias) * 2^23`, converted
/// to an integer, is the pattern of the result.
#[verifier::when_used_as_spec(spec_exp2)]
pub fn exp2(x: u32) -> (r: u32)
    ensures
        r == spec_exp2(x),
{
    proof {
        reveal(spec_exp2);
    }
    to_unsigned(times(plus(x, BIAS), FIELD_SCALE))
}

/// The power of two with a quadratic for the fraction, for more accuracy.
#[verifier::when_used_as_spec(spec_exp2_refined)]
pub fn exp2_refined(x: u32) -> (r: u32)
    ensures
        r == spec_exp2_refined(x),
{
    let n: u32 = to_unsigned(times(x, FIELD_SCALE));
    let l: u32 = n & 0xff80_0000;
    proof {
        lemma_field_masks(n);
    }
    let f: u32 = from_unsigned(n - l);
    let q: u32 = plus(times(plus(times(EXP2_A, f), EXP2_B), f), EXP2_C);
    l.wrapping_add(q)
}

/// An approximate exponential: `exp2(x * log2(e))`.
#[verifier::when_used_as_spec(spec_exp)]
pub fn exp(x: u32) -> (r: u32)
    ensures
        r == spec_exp(x),
        r == spec_exp2(rounded_product(x, LOG2_E)),
{
    exp2(times(x, LOG2_E))
}

/// An approximate base-two logarithm, in one step: the pattern as an
/// integer, times 2^-23, less the bias. It is meant for positive arguments.
#[verifier::when_used_as_spec(spec_log2)]
pub fn log2(x: u32) -> (r: u32)
    ensures
        r == spec_log2(x),
{
    proof {
        reveal(spec_log2);
    }
    minus(times(from_unsigned(x), INV_FIELD_SCALE), BIAS)
}

/// The base-two logarithm with a quadratic in the fraction, for more
/// accuracy. It is meant for positive arguments.
#[verifier::when_used_as_spec(spec_log2_refined)]
pub fn log2_refined(x: u32) -> (r: u32)
    ensures
        r == spec_log2_refined(x),
{
    proof {
        lemma_field_masks(x);
    }
    let c: u32 = (x >> 23) & 0xff;
    let d: u32 = x & 0x007f_ffff;
    let a: u32 = (x >> 22) & 1;
    let m: u32 = minus(d | ((a ^ 0x7f) << 23), ONE);
    let f: u32 = from_signed((a as i32) + (c as i32) - 127);
    plus(f, times(m, plus(times(m, LOG2_A), LOG2_B)))
}

#[verifier::when_used_as_spec(rising)]
fn rising_exponent(x: u32) -> (r: u32)
    ensures
        r == rising(x),
{
    minus(times(LOG2_E, x), ONE)
}

#[verifier::when_used_as_spec(falling)]
fn falling_exponent(x: u32) -> (r: u32)
    ensures
        r == falling(x),
{
    minus(times(NEG_LOG2_E, x), ONE)
}

/// An approximate hyperbolic sine: `exp2(a) - exp2(b)` with
/// `a = x * log2(e) - 1` and `b = -x * log2(e) - 1`.
#[verifier::when_used_as_spec(spec_sinh)]
pub fn sinh(x: u32) -> (r: u32)
    ensures
        r == spec_sinh(x),
{
    minus(exp2(rising_exponent(x)), exp2(falling_exponent(x)))
}

/// An approximate hyperbolic cosine: `exp2(a) + exp2(b)` with
/// `a = x * log2(e) - 1` and `b = -x * log2(e) - 1`.
#[verifier::when_used_as_spec(spec_cosh)]
pub fn cosh(x: u32) -> (r: u32)
    ensures
        r == spec_cosh(x),
{
    plus(exp2(rising_exponent(x)), exp2(falling_exponent(x)))
}

/// An approximate hyperbolic tangent. Magnitudes below one go through a
/// polynomial, the others through a rational correction; the two branches
/// have different errors.
#[verifier::when_used_as_spec(spec_tanh)]
pub fn tanh(x: u32) -> (r: u32)
    ensures
        r == spec_tanh(x),
{
    let s: u32 = sign(x);
    let x: u32 = abs(x);
    if less(x, ONE) {
        let z: u32 = times(times(TANH_SQUARE, x), x);
        times(s, plus(x, times(plus(times(z, x), TANH_INNER), z)))
    } else {
        let w: u32 = plus(times(minus(times(TANH_A, x), TANH_B), x), TANH_C);
        minus(s, divide(s, times(w, w)))
    }
}

} // verus!
