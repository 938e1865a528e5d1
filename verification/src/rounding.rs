//! Rounding to whole numbers, and the remainders built on it.
//!
//! `trunc` goes through a signed 32-bit integer, so it is exact for numbers
//! within that range and holds everything else to the ends of the range.
//! `floor`, `ceil` and `round` bias their argument and truncate; they are
//! meant for arguments of moderate size.

use vstd::prelude::*;
use crate::arith::{
    as_signed,
    divide,
    from_signed,
    from_unsigned,
    minus,
    of_signed,
    of_unsigned,
    plus,
    rounded_difference,
    rounded_product,
    rounded_quotient,
    rounded_sum,
    times,
    to_signed,
};
use crate::arith::{at_most, less_than, negated, whole_part};
use crate::bits::{sign_bit, spec_sign_bit};
use crate::encoding::{is_nan, is_negative, magnitude, signed_units, units, with_sign, ONE};
use crate::fraction::{floor_is_right, floor_units};
use crate::laws::{
    law_ceil_is_the_ceiling,
    law_ceil_mirrors_floor,
    law_floor_is_the_floor,
    law_fract_within_unit_interval,
    law_round_is_nearest_whole,
    law_trunc_drops_the_fraction,
    round_is_right,
    round_units,
};
use crate::mirror::negated_to_positive_zero;
use vstd::arithmetic::power2::pow2;

verus! {

/// Just under one half: the bias that `round` adds.
pub const ROUND_BIAS: u32 = 0x3eff_ffff;

/// The number truncated toward zero.
#[verifier::opaque]
pub open spec fn spec_trunc(x: u32) -> u32 {
    of_signed(as_signed(x))
}

/// The number rounded toward negative infinity.
#[verifier::opaque]
pub open spec fn spec_floor(x: u32) -> u32 {
    let r = spec_sign_bit(x);
    let y = rounded_difference(x, of_unsigned(r));
    spec_trunc(y.wrapping_sub(r))
}

/// The number rounded toward positive infinity.
#[verifier::opaque]
pub open spec fn spec_ceil(x: u32) -> u32 {
    let r = (1 - spec_sign_bit(x)) as u32;
    let y = rounded_sum(x, of_unsigned(r));
    spec_trunc(y.wrapping_sub(r))
}

/// The number rounded to the nearest whole number, halves away from zero.
#[verifier::opaque]
pub open spec fn spec_round(x: u32) -> u32 {
    let y = rounded_sum(x, ROUND_BIAS);
    let u = spec_sign_bit(y);
    spec_trunc(rounded_difference(y, of_unsigned(u)))
}

/// The remainder of `x` by `e` that takes the sign of `e`.
pub open spec fn spec_modulo(x: u32, e: u32) -> u32 {
    rounded_difference(x, rounded_product(e, spec_floor(rounded_quotient(x, e))))
}

/// The part of the number above its floor.
#[verifier::opaque]
pub open spec fn spec_fract(x: u32) -> u32 {
    rounded_difference(x, spec_floor(x))
}

/// Truncates toward zero, by way of a signed 32-bit integer. A number of
/// magnitude up to two to the thirty-first gives its whole part exactly;
/// anything larger gives two to the thirty-first with the sign of the
/// argument, and a NaN gives zero.
#[verifier::when_used_as_spec(spec_trunc)]
pub fn trunc(x: u32) -> (r: u32)
    ensures
        r == spec_trunc(x),
        is_nan(x) ==> r == 0,
        !is_nan(x) && units(magnitude(x)) <= 0x8000_0000 * pow2(149) ==> !is_nan(r)
            && signed_units(r) == whole_part(x) * pow2(149),
        !is_nan(x) && units(magnitude(x)) > 0x8000_0000 * pow2(149) ==> r == with_sign(
            is_negative(x),
            0x4f00_0000,
        ),
{
    proof {
        reveal(spec_trunc);
        law_trunc_drops_the_fraction(x);
    }
    from_signed(to_signed(x))
}

/// Rounds toward negative infinity: for a negative argument, one is taken
/// off, the pattern is stepped once toward zero, and the rest is truncated.
/// On the numbers of `floor_is_right` the result is the greatest whole
/// number not above the argument.
#[verifier::when_used_as_spec(spec_floor)]
pub fn floor(x: u32) -> (r: u32)
    ensures
        r == spec_floor(x),
        floor_is_right(x) ==> !is_nan(r) && signed_units(r) == floor_units(signed_units(x)),
{
    proof {
        reveal(spec_floor);
        if floor_is_right(x) {
            law_floor_is_the_floor(x);
        }
    }
    let r: u32 = sign_bit(x);
    let y: u32 = minus(x, from_unsigned(r));
    trunc(y.wrapping_sub(r))
}

/// Rounds toward positive infinity: for a positive argument, one is added,
/// the pattern is stepped once toward zero, and the rest is truncated.
/// The result mirrors `floor`: it is the negated floor of the negated
/// argument, with the positive zero for a zero. So on the numbers whose
/// negation is one of `floor_is_right` it is the least whole number not
/// below the argument.
#[verifier::when_used_as_spec(spec_ceil)]
pub fn ceil(x: u32) -> (r: u32)
    ensures
        r == spec_ceil(x),
        r == negated_to_positive_zero(spec_floor(negated(x))),
        floor_is_right(negated(x)) ==> !is_nan(r) && signed_units(r) == -floor_units(
            -signed_units(x),
        ),
{
    proof {
        reveal(spec_ceil);
        law_ceil_mirrors_floor(x);
        if floor_is_right(negated(x)) {
            law_ceil_is_the_ceiling(x);
        }
    }
    let r: u32 = 1 - sign_bit(x);
    let y: u32 = plus(x, from_unsigned(r));
    trunc(y.wrapping_sub(r))
}

/// Rounds to the nearest whole number, halves away from zero: a bias just
/// under one half is added, one is taken off a negative sum, and the rest is
/// truncated. On the numbers of `round_is_right` the result is the nearest
/// whole number.
#[verifier::when_used_as_spec(spec_round)]
pub fn round(x: u32) -> (r: u32)
    ensures
        r == spec_round(x),
        round_is_right(x) ==> !is_nan(r) && signed_units(r) == round_units(signed_units(x)),
{
    proof {
        reveal(spec_round);
        if round_is_right(x) {
            law_round_is_nearest_whole(x);
        }
    }
    let y: u32 = plus(x, ROUND_BIAS);
    let u: u32 = sign_bit(y);
    trunc(minus(y, from_unsigned(u)))
}

/// The remainder `x - e * floor(x / e)`, which takes the sign of `e`.
#[verifier::when_used_as_spec(spec_modulo)]
pub fn modulo(x: u32, e: u32) -> (r: u32)
    ensures
        r == spec_modulo(x, e),
{
    minus(x, times(e, floor(divide(x, e))))
}

/// The fractional part `x - floor(x)`. On the numbers of `floor_is_right`
/// it lies from zero up to, but not at, one.
#[verifier::when_used_as_spec(spec_fract)]
pub fn fract(x: u32) -> (r: u32)
    ensures
        r == spec_fract(x),
        r == rounded_difference(x, floor(x)),
        floor_is_right(x) ==> at_most(0, r) && less_than(r, ONE),
{
    proof {
        reveal(spec_fract);
        if floor_is_right(x) {
            law_fract_within_unit_interval(x);
        }
    }
    minus(x, floor(x))
}

} // verus!
