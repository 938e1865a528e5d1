//! What changing the sign of an argument does to a result.

use vstd::prelude::*;
use vstd::arithmetic::power2::{pow2, lemma_pow2_pos};
use crate::encoding::{
    is_nan,
    is_negative,
    lemma_units_zero,
    magnitude,
    signed_units,
    units,
    with_sign,
};
use crate::nearest::{
    lemma_nearest_at_least,
    lemma_nearest_between,
    lemma_nearest_exact,
    nearest_magnitude,
};
use crate::arith::{as_signed, negated, of_signed, rounded_difference, rounded_sum, whole_part};
use crate::bits::{lemma_sign_bit_arithmetic, spec_sign_bit};
use crate::fraction::lemma_top_of_signed_range;
use crate::rounding::{spec_ceil, spec_floor, spec_trunc};
use crate::whole::{lemma_powers_near_one, lemma_small_unsigned};

verus! {

/// The negation of a result, but the positive zero for either zero.
pub open spec fn negated_to_positive_zero(r: u32) -> u32 {
    if r == 0 || r == 0x8000_0000 {
        0
    } else {
        negated(r)
    }
}

/// A negated pattern stands for the negated number.
pub proof fn lemma_negated_value(f: u32)
    ensures
        magnitude(negated(f)) == magnitude(f),
        is_nan(negated(f)) == is_nan(f),
        signed_units(negated(f)) == -signed_units(f),
        is_nan(negated_to_positive_zero(f)) == is_nan(f),
        signed_units(negated_to_positive_zero(f)) == -signed_units(f),
{
    lemma_units_zero(0);
    assert(magnitude(0x8000_0000u32) == 0);
    assert(magnitude(0u32) == 0);
}

/// What a signed integer converts to is a number, and zero only for zero.
#[verifier::rlimit(50)]
pub proof fn lemma_of_signed_is_number(i: i32)
    ensures
        magnitude(of_signed(i)) <= 0x4f00_0000,
        is_negative(of_signed(i)) == (i < 0),
        i == 0 <==> of_signed(i) == 0,
        i != 0 ==> magnitude(of_signed(i)) >= 0x3f80_0000,
{
    let p = pow2(149);
    lemma_pow2_pos(149);
    lemma_powers_near_one();
    lemma_top_of_signed_range();
    let k: nat = if i < 0 {
        (-i) as nat
    } else {
        i as nat
    };
    let n: nat = k * p;
    assert(units(0x4f00_0000) * 1 == 0x8000_0000 * p);
    assert(n <= 0x8000_0000 * p) by (nonlinear_arith)
        requires
            n == k * p,
            k <= 0x8000_0000,
            p > 0,
    ;
    if k == 0 {
        assert(n == units(0) * 1) by (nonlinear_arith)
            requires
                n == k * p,
                k == 0,
                units(0) == 0,
        ;
        lemma_nearest_exact(0, 1);
    } else {
        assert(n >= units(0x3f80_0000) * 1) by (nonlinear_arith)
            requires
                n == k * p,
                k >= 1,
                p > 0,
                units(0x3f80_0000) == p,
        ;
        lemma_nearest_between(n, 1, 0x3f80_0000, 0x4f00_0000);
    }
    if i < 0 {
        assert(((-i) * pow2(149)) as nat == n);
    } else {
        assert((i * pow2(149)) as nat == n);
    }
}

/// Truncation is odd: the truncation of a negated number is the negated
/// truncation, with the positive zero for a zero.
#[verifier::rlimit(50)]
pub proof fn lemma_trunc_is_odd(z: u32)
    ensures
        spec_trunc(negated(z)) == negated_to_positive_zero(spec_trunc(z)),
        spec_trunc(z) != 0x8000_0000,
{
    reveal(spec_trunc);
    let p = pow2(149);
    let nz = negated(z);
    lemma_pow2_pos(149);
    lemma_top_of_signed_range();
    assert(magnitude(nz) == magnitude(z));
    assert(is_negative(nz) != is_negative(z));
    let i = as_signed(z);
    let j = as_signed(nz);
    lemma_of_signed_is_number(i);
    lemma_of_signed_is_number(j);
    if is_nan(z) {
        assert(i == 0 && j == 0);
    } else {
        let t = (units(magnitude(z)) / p) as int;
        assert(whole_part(nz) == -whole_part(z));
        if t > 0x7fff_ffff {
            // both stop at the ends of the range, which convert to two to
            // the thirty-first with either sign
            lemma_nearest_exact(0x4f00_0000, 1);
            assert(units(0x4f00_0000) * 1 == 0x8000_0000 * p);
            assert(((-(i32::MIN as int)) * pow2(149)) as nat == 0x8000_0000 * p);
            assert((i32::MAX as int * pow2(149)) as nat == 0x7fff_ffff * p);
            assert(of_signed(i32::MAX) == 0x4f00_0000);
            assert(of_signed(i32::MIN) == 0xcf00_0000);
        } else {
            assert(j == -i);
            if i > 0 {
                assert(((-j) * pow2(149)) as nat == (i * pow2(149)) as nat);
            } else if i < 0 {
                assert(((-i) * pow2(149)) as nat == (j * pow2(149)) as nat);
            }
        }
    }
}

/// One pattern toward zero from a negated number of magnitude one or more
/// is the negation of one pattern toward zero from the number.
pub proof fn lemma_step_back_mirrors(y: u32)
    requires
        magnitude(y) >= 1,
    ensures
        negated(y).wrapping_sub(1) == negated(y.wrapping_sub(1)),
{
}

/// The ceiling mirrors the floor: the ceiling of a number is the negated
/// floor of the negated number, with the positive zero for a zero.
#[verifier::rlimit(50)]
pub proof fn lemma_ceil_mirrors_floor(x: u32)
    ensures
        spec_ceil(x) == negated_to_positive_zero(spec_floor(negated(x))),
{
    reveal(spec_trunc);
    reveal(spec_floor);
    reveal(spec_ceil);
    let p = pow2(149);
    let nx = negated(x);
    let m = magnitude(x);
    let u = units(m);
    lemma_pow2_pos(149);
    lemma_sign_bit_arithmetic(x);
    lemma_sign_bit_arithmetic(nx);
    lemma_small_unsigned();
    lemma_powers_near_one();
    lemma_units_zero(m);
    assert(magnitude(nx) == m);
    assert(is_negative(nx) != is_negative(x));
    assert(negated(0) == 0x8000_0000);
    assert(magnitude(0x8000_0000u32) == 0);
    assert(negated(0x3f80_0000) == 0xbf80_0000);
    assert(magnitude(0xbf80_0000u32) == 0x3f80_0000);
    if is_negative(x) {
        assert(spec_sign_bit(x) == 1 && spec_sign_bit(nx) == 0);
        let y = rounded_sum(x, 0);
        let y2 = rounded_difference(nx, 0);
        assert(y.wrapping_sub(0) == y);
        assert(y2.wrapping_sub(0) == y2);
        if is_nan(x) {
            assert(y == y2);
            lemma_trunc_is_odd(y);
            assert(is_nan(y));
            assert(spec_trunc(y) == of_signed(0));
            lemma_of_signed_is_number(0);
        } else if m == 0x7f80_0000 {
            assert(y == x && y2 == nx);
            lemma_trunc_is_odd(y2);
            lemma_trunc_is_odd(y);
        } else if u == 0 {
            assert(y == 0 && y2 == 0);
            lemma_trunc_is_odd(0);
            lemma_nearest_exact(0, 1);
        } else {
            lemma_nearest_exact(m, 1);
            assert(u * 1 == u);
            assert(y == x && y2 == nx);
            lemma_trunc_is_odd(y2);
            lemma_trunc_is_odd(y);
        }
    } else {
        assert(spec_sign_bit(x) == 0 && spec_sign_bit(nx) == 1);
        let y = rounded_sum(x, 0x3f80_0000);
        let y2 = rounded_difference(nx, 0x3f80_0000);
        if is_nan(x) {
            assert(y == 0x7fc0_0000 && y2 == 0x7fc0_0000);
            let z = y.wrapping_sub(1);
            assert(is_nan(z));
            lemma_trunc_is_odd(z);
            lemma_of_signed_is_number(0);
        } else if m == 0x7f80_0000 {
            assert(y == x && y2 == nx);
            lemma_step_back_mirrors(y);
            lemma_trunc_is_odd(y.wrapping_sub(1));
            lemma_trunc_is_odd(y2.wrapping_sub(1));
        } else {
            let n: nat = u + p;
            lemma_nearest_at_least(n, 1, 0x3f80_0000);
            let big = nearest_magnitude(n, 1);
            assert(signed_units(x) + signed_units(0x3f80_0000) == n);
            assert(signed_units(nx) + signed_units(0xbf80_0000) == -(n as int));
            assert(y == with_sign(false, big));
            assert(y2 == with_sign(true, big));
            assert(y2 == negated(y));
            lemma_step_back_mirrors(y);
            lemma_trunc_is_odd(y.wrapping_sub(1));
            lemma_trunc_is_odd(y2.wrapping_sub(1));
        }
    }
}

} // verus!
