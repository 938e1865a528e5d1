//! What holds of the functions, for every argument.

use vstd::prelude::*;
use vstd::arithmetic::power2::{pow2, lemma_pow2_pos, lemma_pow2_adds, lemma2_to64};
use crate::encoding::{
    is_nan,
    is_negative,
    lemma_units_of_parts,
    magnitude,
    signed_units,
    units,
    with_sign,
};
use crate::nearest::lemma_nearest_exact;
use crate::arith::{at_most, less_than, negated, rounded_product, same_number};
use crate::nearest::lemma_floor_exists;
use crate::bits::{lemma_sign_bit_arithmetic, spec_abs, spec_sign};
use crate::arith::{rounded_difference, whole_part};
use crate::fraction::{
    floor_is_right,
    floor_units,
    lemma_floor_and_fract,
    lemma_trunc_exact,
    lemma_trunc_saturates,
};
use crate::rounding::{spec_ceil, spec_floor, spec_fract, spec_round, spec_trunc};
use crate::exponential::{spec_exp2, spec_log2};
use crate::arith::{as_unsigned, of_unsigned};
use crate::roundtrip::{lemma_close_patterns, lemma_exp2_of_log2};
use crate::fraction::lemma_floor_units;
use crate::halves::{lemma_round_of_negative, lemma_round_of_unsigned};
use crate::mirror::{lemma_ceil_mirrors_floor, lemma_negated_value, negated_to_positive_zero};
use crate::roots::{cbrt_magnitude, spec_cbrt};
use crate::select::spec_clamp;
use crate::whole::{
    lemma_ceil_of_whole,
    lemma_ceil_of_whole_past_precision,
    lemma_floor_of_whole,
    lemma_round_of_whole_down,
    lemma_round_of_whole_up,
    lemma_trunc_of_whole,
};

verus! {

/// The sign of a number times its magnitude is the number itself, bit for
/// bit, for everything but a NaN; the product of a NaN's parts is a NaN.
pub proof fn law_sign_times_abs(x: u32)
    ensures
        !is_nan(x) ==> rounded_product(spec_sign(x), spec_abs(x)) == x,
        is_nan(x) ==> is_nan(rounded_product(spec_sign(x), spec_abs(x))),
{
    lemma_sign_bit_arithmetic(x);
    let s = spec_sign(x);
    let m = spec_abs(x);
    assert(magnitude(s) == 0x3f80_0000);
    assert(magnitude(m) == magnitude(x));
    assert(is_negative(s) == is_negative(x));
    assert(!is_negative(m));
    let p = pow2(149);
    lemma2_to64();
    lemma_pow2_pos(149);
    lemma_units_of_parts(126, 0x80_0000);
    lemma_pow2_adds(23, 126);
    assert(units(0x3f80_0000) == p);
    if !is_nan(x) && magnitude(x) < 0x7f80_0000 {
        let u = units(magnitude(x));
        lemma_nearest_exact(magnitude(x), p);
        assert(p * u == u * p) by (nonlinear_arith);
    }
}

/// Whether the whole number `k`, with the sign given, is one that all four
/// roundings leave as it is: from minus two to the twenty-third up to two to
/// the twenty-fourth less one, and between two to the twenty-fourth and two
/// to the twenty-fifth those that leave two when divided by four.
pub open spec fn roundings_agree(negative: bool, k: nat) -> bool {
    if negative {
        k <= 0x80_0000
    } else {
        k < 0x100_0000 || (0x100_0000 < k < 0x200_0000 && k % 4 == 2)
    }
}

/// A pattern that stands for a whole number `k` of the kind above is what
/// `trunc`, `floor`, `ceil` and `round` give for it; for either zero they
/// give the positive zero. For every other whole number one of the four
/// gives another number.
pub proof fn law_roundings_fix_whole_numbers(x: u32, k: nat)
    requires
        !is_nan(x),
        units(magnitude(x)) == k * pow2(149),
        roundings_agree(is_negative(x), k),
    ensures
        spec_trunc(x) == (if k == 0 { 0u32 } else { x }),
        spec_floor(x) == spec_trunc(x),
        spec_ceil(x) == spec_trunc(x),
        spec_round(x) == spec_trunc(x),
        same_number(spec_trunc(x), x),
{
    lemma_trunc_of_whole(x, k);
    lemma_floor_of_whole(x, k);
    if !is_negative(x) && k >= 0x100_0000 {
        lemma_ceil_of_whole_past_precision(x, k);
    } else {
        lemma_ceil_of_whole(x, k);
    }
    if is_negative(x) && k > 0 {
        lemma_round_of_whole_down(x, k);
    } else {
        lemma_round_of_whole_up(x, k);
    }
    if k == 0 {
        crate::encoding::lemma_units_zero(magnitude(x));
        assert(units(magnitude(x)) == 0) by (nonlinear_arith)
            requires
                units(magnitude(x)) == k * pow2(149),
                k == 0,
        ;
    }
}

/// Truncation drops the fraction: a NaN gives zero; a number of magnitude
/// up to two to the thirty-first gives its whole part exactly, with a
/// positive zero where that is zero; and everything larger, the infinities
/// among it, gives two to the thirty-first with the sign of the argument.
pub proof fn law_trunc_drops_the_fraction(x: u32)
    ensures
        is_nan(x) ==> spec_trunc(x) == 0,
        !is_nan(x) && units(magnitude(x)) <= 0x8000_0000 * pow2(149) ==> !is_nan(spec_trunc(x))
            && signed_units(spec_trunc(x)) == whole_part(x) * pow2(149) && (whole_part(x) == 0
            ==> spec_trunc(x) == 0),
        !is_nan(x) && units(magnitude(x)) > 0x8000_0000 * pow2(149) ==> spec_trunc(x) == with_sign(
            is_negative(x),
            0x4f00_0000,
        ),
{
    reveal(spec_trunc);
    let p = pow2(149);
    lemma_pow2_pos(149);
    crate::encoding::lemma_units_zero(0);
    if is_nan(x) {
        lemma_nearest_exact(0, 1);
        assert((0 as int * pow2(149)) as nat == units(0) * 1);
    } else if units(magnitude(x)) <= 0x8000_0000 * p {
        let t = lemma_trunc_exact(x);
        let k = units(magnitude(x)) / p;
        crate::encoding::lemma_units_zero(t);
        assert(magnitude(with_sign(is_negative(x) && t > 0, t)) == t);
        assert(k == 0 ==> k * p == 0) by (nonlinear_arith);
        assert((-(k as int)) * p == -(k * p)) by (nonlinear_arith);
        assert(k > 0 && p > 0 ==> k * p > 0) by (nonlinear_arith);
    } else {
        lemma_trunc_saturates(x);
    }
}

/// On the numbers of `floor_is_right`, `floor` gives the greatest whole
/// number not above its argument. On every other finite number it gives
/// another number.
pub proof fn law_floor_is_the_floor(x: u32)
    requires
        floor_is_right(x),
    ensures
        !is_nan(spec_floor(x)),
        signed_units(spec_floor(x)) == floor_units(signed_units(x)),
        at_most(spec_floor(x), x),
        signed_units(x) - signed_units(spec_floor(x)) < pow2(149),
{
    lemma_floor_and_fract(x);
    lemma_pow2_pos(149);
    let p = pow2(149) as int;
    let v = signed_units(x);
    vstd::arithmetic::div_mod::lemma_fundamental_div_mod(v, p);
    vstd::arithmetic::div_mod::lemma_mod_bound(v, p);
    assert(p * (v / p) == (v / p) * p) by (nonlinear_arith);
}

/// The whole number nearest to `v` units, in units: at a half, the one
/// farther from zero.
pub open spec fn round_units(v: int) -> int {
    if v >= 0 {
        floor_units(v + pow2(148))
    } else {
        -floor_units(-v + pow2(148))
    }
}

/// The numbers from minus two to the twenty-third up to, but not at, two to
/// the thirty-first.
pub open spec fn round_is_right(x: u32) -> bool {
    if is_negative(x) {
        magnitude(x) <= 0x4b00_0000
    } else {
        magnitude(x) < 0x4f00_0000
    }
}

/// On the numbers of `round_is_right`, `round` gives the whole number
/// nearest to its argument, and at a half the one farther from zero.
pub proof fn law_round_is_nearest_whole(x: u32)
    requires
        round_is_right(x),
    ensures
        !is_nan(spec_round(x)),
        signed_units(spec_round(x)) == round_units(signed_units(x)),
{
    let p = pow2(149);
    let q = pow2(148);
    let m = magnitude(x);
    let u = units(m);
    lemma_pow2_pos(149);
    lemma_pow2_pos(148);
    crate::whole::lemma_powers_near_one();
    crate::fraction::lemma_top_of_signed_range();
    crate::encoding::lemma_units_zero(m);
    crate::encoding::lemma_units_zero(0);
    if u % p != 0 {
        vstd::arithmetic::div_mod::lemma_small_mod(0, p);
        assert(u > 0);
        if is_negative(x) {
            lemma_round_of_negative(x);
            assert(signed_units(x) == -(u as int));
            assert(round_units(signed_units(x)) == -floor_units((u + q) as int));
        } else {
            lemma_round_of_unsigned(x);
            assert(signed_units(x) == u);
            assert(round_units(signed_units(x)) == floor_units(signed_units(x) + q));
        }
    } else {
        let k: nat = u / p;
        vstd::arithmetic::div_mod::lemma_fundamental_div_mod(u as int, p as int);
        assert(p * k == k * p) by (nonlinear_arith);
        assert(k == 0 ==> k * p == 0) by (nonlinear_arith);
        lemma_floor_units((u + q) as int, k as int, q as int);
        if is_negative(x) {
            lemma_units_of_parts(149, 0x80_0000);
            crate::encoding::lemma_units_order(m, 0x4b00_0000);
            assert(k <= 0x80_0000) by (nonlinear_arith)
                requires
                    k * p <= 0x80_0000 * p,
                    p > 0,
            ;
            if k == 0 {
                lemma_round_of_whole_up(x, k);
                assert(signed_units(spec_round(x)) == 0);
                assert(signed_units(x) == 0);
            } else {
                lemma_round_of_whole_down(x, k);
                assert(k * p > 0) by (nonlinear_arith)
                    requires
                        k > 0,
                        p > 0,
                ;
                assert(signed_units(x) == -(u as int));
                assert(round_units(signed_units(x)) == -floor_units((u + q) as int));
            }
        } else {
            crate::encoding::lemma_units_order(m, 0x4f00_0000);
            assert(k < 0x8000_0000) by (nonlinear_arith)
                requires
                    k * p < 0x8000_0000 * p,
                    p > 0,
            ;
            lemma_round_of_whole_up(x, k);
            assert(signed_units(x) == u);
            assert(round_units(signed_units(x)) == floor_units((u + q) as int));
        }
    }
}

/// The ceiling mirrors the floor, for every argument: the ceiling of a
/// number is the negated floor of the negated number, with the positive
/// zero for a zero.
pub proof fn law_ceil_mirrors_floor(x: u32)
    ensures
        spec_ceil(x) == negated_to_positive_zero(spec_floor(negated(x))),
{
    lemma_ceil_mirrors_floor(x);
}

/// On the numbers whose negation is one of `floor_is_right`, `ceil` gives
/// the least whole number not below its argument.
pub proof fn law_ceil_is_the_ceiling(x: u32)
    requires
        floor_is_right(negated(x)),
    ensures
        !is_nan(spec_ceil(x)),
        signed_units(spec_ceil(x)) == -floor_units(-signed_units(x)),
        at_most(x, spec_ceil(x)),
        signed_units(spec_ceil(x)) - signed_units(x) < pow2(149),
{
    let nx = negated(x);
    lemma_ceil_mirrors_floor(x);
    law_floor_is_the_floor(nx);
    lemma_negated_value(x);
    lemma_negated_value(spec_floor(nx));
}

/// The fractional part is the number less its floor, and on the numbers of
/// `floor_is_right` it lies from zero up to, but not at, one. On every other
/// finite number it lies outside.
pub proof fn law_fract_within_unit_interval(x: u32)
    requires
        floor_is_right(x),
    ensures
        spec_fract(x) == rounded_difference(x, spec_floor(x)),
        at_most(0, spec_fract(x)),
        less_than(spec_fract(x), 0x3f80_0000),
{
    reveal(spec_floor);
    reveal(spec_fract);
    lemma_floor_and_fract(x);
    crate::encoding::lemma_units_zero(0);
    crate::whole::lemma_powers_near_one();
}

/// The power of two of the base-two logarithm of a number from 2^-10 to
/// 2^10 is within one part in a hundred of the number. It is the number's
/// pattern, read as an integer, rounded to twenty-four leading bits, so it
/// lies within 128 patterns of the number.
pub proof fn law_exp2_undoes_log2(x: u32)
    requires
        0x3a80_0000 <= x <= 0x4480_0000,
    ensures
        spec_exp2(spec_log2(x)) == as_unsigned(of_unsigned(x)),
        spec_exp2(spec_log2(x)) <= x + 128,
        x <= spec_exp2(spec_log2(x)) + 128,
        !is_nan(spec_exp2(spec_log2(x))),
        !is_negative(spec_exp2(spec_log2(x))),
        100 * (signed_units(spec_exp2(spec_log2(x))) - signed_units(x)) <= signed_units(x),
        100 * (signed_units(x) - signed_units(spec_exp2(spec_log2(x)))) <= signed_units(x),
{
    lemma_exp2_of_log2(x);
    let r = spec_exp2(spec_log2(x));
    lemma_close_patterns(x as nat, r as nat);
}

/// Flipping the sign of one factor flips the sign of a product that is a
/// number, and leaves everything else of it as it is.
pub proof fn law_product_is_odd(a: u32, b: u32)
    ensures
        !is_nan(rounded_product(a, b)) ==> rounded_product(negated(a), b) == negated(
            rounded_product(a, b),
        ),
        is_nan(rounded_product(a, b)) ==> is_nan(rounded_product(negated(a), b)),
{
    lemma_pow2_pos(149);
    lemma_floor_exists(units(magnitude(a)) * units(magnitude(b)), pow2(149));
    assert(magnitude(negated(a)) == magnitude(a));
    assert(is_negative(negated(a)) != is_negative(a));
}

/// The cube root keeps the sign exactly: the cube root of a negated number
/// is the negated cube root, bit for bit, wherever the cube root is a
/// number.
pub proof fn law_cbrt_is_odd(x: u32)
    ensures
        !is_nan(spec_cbrt(x)) ==> spec_cbrt(negated(x)) == negated(spec_cbrt(x)),
        is_nan(spec_cbrt(x)) ==> is_nan(spec_cbrt(negated(x))),
{
    lemma_sign_bit_arithmetic(x);
    lemma_sign_bit_arithmetic(negated(x));
    assert(spec_abs(negated(x)) == spec_abs(x));
    assert(spec_sign(negated(x)) == negated(spec_sign(x)));
    law_product_is_odd(spec_sign(x), cbrt_magnitude(spec_abs(x)));
}

/// With a lower bound that is not above the upper one, what `clamp` gives
/// lies between the bounds, whatever the argument. It is the argument's own
/// number where that lies between the bounds already, and the argument's own
/// pattern where it lies strictly between them.
pub proof fn law_clamp_within_bounds(x: u32, a: u32, b: u32)
    requires
        at_most(a, b),
    ensures
        at_most(a, spec_clamp(x, a, b)),
        at_most(spec_clamp(x, a, b), b),
        at_most(a, x) && at_most(x, b) ==> same_number(spec_clamp(x, a, b), x),
        less_than(a, x) && less_than(x, b) ==> spec_clamp(x, a, b) == x,
{
}

} // verus!
