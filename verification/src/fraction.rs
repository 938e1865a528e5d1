//! Where the fractional part stays within the unit interval.

use vstd::prelude::*;
use vstd::arithmetic::power2::{
    pow2,
    lemma_pow2_pos,
    lemma_pow2_unfold,
    lemma_pow2_adds,
    lemma2_to64,
};
use crate::encoding::{
    is_finite,
    is_nan,
    is_negative,
    lemma_parts_of_bits,
    lemma_units_of_parts,
    lemma_units_order,
    lemma_units_step,
    lemma_units_zero,
    magnitude,
    scale,
    signed_units,
    significand,
    units,
    with_sign,
};
use crate::nearest::{
    lemma_nearest_at_floor,
    lemma_nearest_between,
    lemma_nearest_exact,
    lemma_pow2_monotonic,
    nearest_magnitude,
};
use crate::arith::{as_signed, negated, rounded_difference, rounded_sum, whole_part};
use crate::bits::{lemma_sign_bit_arithmetic, spec_sign_bit};
use crate::rounding::{spec_floor, spec_fract, spec_trunc};
use crate::whole::{
    lemma_finite_bound,
    lemma_floor_of_whole,
    lemma_powers_near_one,
    lemma_small_unsigned,
    lemma_trunc_between,
    lemma_trunc_of_whole,
    lemma_whole_pattern,
};

verus! {

/// Whether a pattern stands for a number from zero up to, but not at, one.
pub open spec fn in_unit_interval(r: u32) -> bool {
    !is_nan(r) && 0 <= signed_units(r) < pow2(149)
}

/// The magnitude of a number from one up is a whole count of 2^-23.
pub proof fn lemma_units_in_steps(m: nat) -> (c: nat)
    requires
        m >= 0x3f80_0000,
    ensures
        units(m) == c * pow2(126),
{
    lemma_parts_of_bits(m);
    let s = scale(m);
    let f = significand(m);
    assert(s >= 126);
    let e = pow2((s - 126) as nat);
    let t = pow2(126);
    lemma_pow2_adds((s - 126) as nat, 126);
    let c = f * e;
    assert(f * pow2(s) == c * t) by (nonlinear_arith)
        requires
            pow2(s) == e * t,
            c == f * e,
    ;
    c
}

/// A positive difference below one whole, between two magnitudes of which
/// the larger is a count of 2^-23 and the smaller is whole, rounds to a
/// number below one.
pub proof fn lemma_remainder_below_one(phi: nat)
    requires
        0 < phi <= pow2(149) - pow2(125),
    ensures
        0 <= nearest_magnitude(phi, 1) <= 0x3f7f_ffff,
        units(nearest_magnitude(phi, 1)) < pow2(149),
{
    lemma_powers_near_one();
    lemma2_to64();
    lemma_units_of_parts(125, 0xff_ffff);
    lemma_pow2_adds(24, 125);
    let t = pow2(125);
    assert(units(0x3f7f_ffff) == 0xff_ffff * t);
    assert(pow2(149) == 0x100_0000 * t);
    assert(0xff_ffff * t + t == 0x100_0000 * t) by (nonlinear_arith);
    lemma_units_zero(0);
    assert(units(0) * 1 <= phi);
    assert(phi <= units(0x3f7f_ffff) * 1);
    lemma_nearest_between(phi, 1, 0, 0x3f7f_ffff);
    lemma_units_order(nearest_magnitude(phi, 1), 0x3f80_0000);
}

/// A magnitude below one is at least 2^-24 short of it.
pub proof fn lemma_below_one_bound(m: nat)
    requires
        m < 0x3f80_0000,
    ensures
        units(m) <= pow2(149) - pow2(125),
{
    lemma2_to64();
    lemma_units_order(m, 0x3f7f_ffff);
    lemma_units_of_parts(125, 0xff_ffff);
    lemma_pow2_adds(24, 125);
    let t = pow2(125);
    let top: nat = 125 * 0x80_0000 + 0xff_ffff;
    assert(top == 0x3f7f_ffff);
    assert(units(top) == 0xff_ffff * t);
    assert(units(m) <= units(top));
    assert(pow2(149) == pow2(24) * t);
    assert(pow2(149) == 0x100_0000 * t);
    assert(0xff_ffff * t + t == 0x100_0000 * t) by (nonlinear_arith);
}

/// What a magnitude from one up leaves over its whole part is at least
/// 2^-23 short of one.
pub proof fn lemma_remainder_of_steps(m: nat, k: nat)
    requires
        m >= 0x3f80_0000,
        k * pow2(149) <= units(m) < (k + 1) * pow2(149),
    ensures
        units(m) - k * pow2(149) <= pow2(149) - pow2(125),
{
    let p = pow2(149);
    let u = units(m);
    let c = lemma_units_in_steps(m);
    let w = pow2(126);
    lemma2_to64();
    lemma_pow2_adds(23, 126);
    lemma_pow2_unfold(126);
    lemma_pow2_pos(126);
    lemma_pow2_pos(125);
    let e: int = c - k * 0x80_0000;
    assert((k + 1) * p == k * p + p) by (nonlinear_arith);
    assert(u - k * p == e * w) by (nonlinear_arith)
        requires
            u == c * w,
            p == 0x80_0000 * w,
            e == c - k * 0x80_0000,
    ;
    assert(e < 0x80_0000) by (nonlinear_arith)
        requires
            e * w < 0x80_0000 * w,
            w > 0,
    ;
    assert(e * w <= 0x7f_ffff * w) by (nonlinear_arith)
        requires
            e <= 0x7f_ffff,
            w > 0,
    ;
}

/// The magnitude bits of two to the thirty-first, and of the largest signed
/// 32-bit integer, which rounds up to it.
#[verifier::rlimit(50)]
pub proof fn lemma_top_of_signed_range()
    ensures
        units(0x4f00_0000) == 0x8000_0000 * pow2(149),
        units(0x4b80_0000) == 0x100_0000 * pow2(149),
        units(0x4c00_0000) == 0x200_0000 * pow2(149),
        nearest_magnitude(0x7fff_ffff * pow2(149), 1) == 0x4f00_0000,
{
    let p = pow2(149);
    lemma2_to64();
    lemma_pow2_pos(149);
    lemma_units_of_parts(156, 0xff_ffff);
    lemma_units_of_parts(156, 0x100_0000);
    lemma_units_of_parts(150, 0x80_0000);
    lemma_units_of_parts(151, 0x80_0000);
    lemma_pow2_adds(7, 149);
    lemma_pow2_adds(1, 149);
    lemma_pow2_adds(2, 149);
    let e = pow2(156);
    let b: nat = 0x4eff_ffff;
    assert(e == 0x80 * p);
    assert(units(b) == 0xff_ffff * e);
    assert(units(b + 1) == 0x100_0000 * e);
    assert(0x100_0000 * e == 0x8000_0000 * p) by (nonlinear_arith)
        requires
            e == 0x80 * p,
    ;
    assert(0xff_ffff * e == 0x7fff_ff80 * p) by (nonlinear_arith)
        requires
            e == 0x80 * p,
    ;
    assert(0x80_0000 * (2 * p) == 0x100_0000 * p) by (nonlinear_arith);
    assert(0x80_0000 * (4 * p) == 0x200_0000 * p) by (nonlinear_arith);
    let n: nat = 0x7fff_ffff * p;
    assert(0x7fff_ff80 * p <= 0x7fff_ffff * p < 0x8000_0000 * p) by (nonlinear_arith)
        requires
            p > 0,
    ;
    assert(units(b) * 1 <= n < units(b + 1) * 1);
    lemma_nearest_at_floor(n, 1, b);
    assert(2 * (0x7fff_ffff * p) > 0x7fff_ff80 * p + 0x8000_0000 * p) by (nonlinear_arith)
        requires
            p > 0,
    ;
}

/// Truncation of a number of magnitude up to two to the thirty-first gives
/// its whole part exactly: the pattern `t` of the whole part, negative where
/// the number is negative and the whole part is not zero.
#[verifier::rlimit(50)]
pub proof fn lemma_trunc_exact(x: u32) -> (t: nat)
    requires
        !is_nan(x),
        units(magnitude(x)) <= 0x8000_0000 * pow2(149),
    ensures
        units(t) == (units(magnitude(x)) / pow2(149)) * pow2(149),
        t <= magnitude(x) < 0x7f80_0000,
        spec_trunc(x) == with_sign(is_negative(x) && t > 0, t),
{
    reveal(spec_trunc);
    let p = pow2(149);
    let m = magnitude(x);
    let u = units(m);
    lemma_powers_near_one();
    lemma_top_of_signed_range();
    lemma_pow2_pos(149);
    lemma_units_zero(m);
    lemma2_to64();
    lemma_finite_bound(0x8000_0000);
    assert(0x8000_0000 * p < (0x8000_0000 + 1) * p) by (nonlinear_arith)
        requires
            p > 0,
    ;
    lemma_units_order(m, 0x7f80_0000);
    assert(m < 0x7f80_0000);
    lemma_nearest_exact(m, 1);
    assert(u * 1 == u);
    let k: nat = u / p;
    let phi: nat = u % p;
    vstd::arithmetic::div_mod::lemma_fundamental_div_mod(u as int, p as int);
    assert(p * k == k * p) by (nonlinear_arith);
    assert((k + 1) * p == k * p + p) by (nonlinear_arith);
    assert(k <= 0x8000_0000) by (nonlinear_arith)
        requires
            k * p <= 0x8000_0000 * p,
            p > 0,
    ;
    assert(k == 0 ==> k * p == 0) by (nonlinear_arith);
    let t: nat = if k == 0 {
        0
    } else if k < 0x100_0000 {
        lemma_whole_pattern(k)
    } else {
        m
    };
    if k >= 0x100_0000 {
        assert(0x100_0000 * p <= k * p) by (nonlinear_arith)
            requires
                0x100_0000 <= k,
        ;
        lemma_units_order(0x4b80_0000, m);
        lemma_large_is_whole(m);
        assert(phi == 0);
    }
    assert(units(t) == k * p);
    lemma_units_order(t, m);
    lemma_units_zero(t);
    lemma_nearest_exact(t, 1);
    assert(units(t) * 1 == k * p);
    if k == 0x8000_0000 {
        lemma_units_order(m, 0x4f00_0000);
        assert(m == 0x4f00_0000);
        if !is_negative(x) {
            assert(whole_part(x) == 0x8000_0000);
            assert(as_signed(x) == 0x7fff_ffff);
            assert((0x7fff_ffff as int * pow2(149)) as nat == 0x7fff_ffff * p);
        } else {
            assert(whole_part(x) == -0x8000_0000);
            assert(as_signed(x) == -0x8000_0000);
            assert(((-(-0x8000_0000 as int)) * pow2(149)) as nat == k * p);
        }
    } else {
        if is_negative(x) {
            assert(as_signed(x) == -(k as int));
            assert(((-(-(k as int))) * pow2(149)) as nat == k * p);
        } else {
            assert(as_signed(x) == k);
            assert((k as int * pow2(149)) as nat == k * p);
        }
    }
    t
}

/// Truncation of a number of magnitude past two to the thirty-first, an
/// infinity among them, stops at two to the thirty-first.
pub proof fn lemma_trunc_saturates(x: u32)
    requires
        !is_nan(x),
        units(magnitude(x)) > 0x8000_0000 * pow2(149),
    ensures
        spec_trunc(x) == with_sign(is_negative(x), 0x4f00_0000),
{
    reveal(spec_trunc);
    let p = pow2(149);
    let u = units(magnitude(x));
    lemma_top_of_signed_range();
    lemma_pow2_pos(149);
    let k: nat = u / p;
    vstd::arithmetic::div_mod::lemma_fundamental_div_mod(u as int, p as int);
    assert(p * k == k * p) by (nonlinear_arith);
    assert(k >= 0x8000_0000) by (nonlinear_arith)
        requires
            k * p + p > 0x8000_0000 * p,
            p > 0,
    ;
    lemma_nearest_exact(0x4f00_0000, 1);
    assert(units(0x4f00_0000) * 1 == 0x8000_0000 * p);
    if is_negative(x) {
        assert(as_signed(x) == -0x8000_0000);
        assert(((-(-0x8000_0000 as int)) * pow2(149)) as nat == 0x8000_0000 * p);
    } else {
        assert(as_signed(x) == 0x7fff_ffff);
        assert((0x7fff_ffff as int * pow2(149)) as nat == 0x7fff_ffff * p);
    }
}

/// With the sign bit clear, `floor` is `trunc`.
pub proof fn lemma_floor_of_unsigned(x: u32)
    requires
        !is_negative(x),
    ensures
        spec_floor(x) == spec_trunc(x),
{
    reveal(spec_trunc);
    reveal(spec_floor);
    let m = magnitude(x);
    lemma_sign_bit_arithmetic(x);
    lemma_small_unsigned();
    lemma_units_zero(m);
    assert(spec_sign_bit(x) == 0);
    assert(negated(0) == 0x8000_0000);
    assert(magnitude(0x8000_0000u32) == 0);
    let y = rounded_difference(x, 0);
    assert(y.wrapping_sub(0) == y);
    if is_nan(x) {
        assert(is_nan(y));
    } else if m == 0x7f80_0000 {
        assert(y == x);
    } else {
        lemma_nearest_exact(m, 1);
        assert(units(m) * 1 == units(m));
        assert(y == x);
    }
}

/// The fractional part of a number from zero up to two to the thirty-first
/// lies from zero up to, but not at, one.
#[verifier::rlimit(50)]
pub proof fn lemma_fract_of_positive(x: u32)
    requires
        !is_negative(x),
        units(magnitude(x)) <= 0x8000_0000 * pow2(149),
    ensures
        in_unit_interval(spec_fract(x)),
{
    reveal(spec_floor);
    reveal(spec_fract);
    let p = pow2(149);
    let m = magnitude(x);
    let u = units(m);
    lemma_pow2_pos(149);
    lemma_finite_bound(0x8000_0000);
    assert(0x8000_0000 * p < (0x8000_0000 + 1) * p) by (nonlinear_arith)
        requires
            p > 0,
    ;
    lemma_units_order(m, 0x7f80_0000);
    lemma_floor_of_unsigned(x);
    let t = lemma_trunc_exact(x);
    let k: nat = u / p;
    let phi: nat = u % p;
    vstd::arithmetic::div_mod::lemma_fundamental_div_mod(u as int, p as int);
    assert(p * k == k * p) by (nonlinear_arith);
    assert((k + 1) * p == k * p + p) by (nonlinear_arith);
    let floor = spec_floor(x);
    assert(floor == with_sign(false, t));
    assert(magnitude(floor) == t);
    assert(signed_units(x) + signed_units(negated(floor)) == phi);
    lemma_units_zero(0);
    if phi == 0 {
        assert(spec_fract(x) == 0);
    } else {
        if k == 0 {
            lemma_units_order(m, 0x3f80_0000);
            lemma_powers_near_one();
            assert(k * p == 0) by (nonlinear_arith)
                requires
                    k == 0,
            ;
            lemma_below_one_bound(m);
        } else {
            assert(k * p >= p) by (nonlinear_arith)
                requires
                    k >= 1,
                    p > 0,
            ;
            lemma_powers_near_one();
            lemma_units_order(0x3f80_0000, m);
            lemma_remainder_of_steps(m, k);
        }
        lemma_remainder_below_one(phi);
        let r = nearest_magnitude(phi, 1);
        assert(spec_fract(x) == with_sign(false, r));
    }
}

/// The count of wholes at or above a magnitude.
pub open spec fn wholes_above(u: nat) -> nat {
    ((u + pow2(149) - 1) / (pow2(149) as int)) as nat
}

/// Whether taking one from `x` rounds to the floor of `x` itself. On a
/// negative number `floor` takes one off, steps one pattern toward zero and
/// truncates, so where this holds it comes out one too high. It holds of
/// the negative numbers down to minus 2^-24, of which one less rounds to
/// minus one, and of the numbers one pattern below minus 1, minus 3, minus
/// 7 and so on to minus (2^23 - 1), of which one less lies halfway to a
/// power of two and rounds to it.
pub open spec fn one_less_is_floor(x: u32) -> bool {
    units(magnitude(rounded_difference(x, 0x3f80_0000))) == wholes_above(units(magnitude(x)))
        * pow2(149)
}

/// A magnitude from two to the twenty-third up is whole.
pub proof fn lemma_large_is_whole(m: nat)
    requires
        m >= 0x4b00_0000,
    ensures
        units(m) % pow2(149) == 0,
{
    let p = pow2(149);
    lemma_parts_of_bits(m);
    lemma_pow2_pos(149);
    let s = scale(m);
    let f = significand(m);
    assert(s >= 149);
    lemma_pow2_adds((s - 149) as nat, 149);
    let e = pow2((s - 149) as nat);
    assert(units(m) == (f * e) * p) by (nonlinear_arith)
        requires
            units(m) == f * pow2(s),
            pow2(s) == e * p,
    ;
    vstd::arithmetic::div_mod::lemma_fundamental_div_mod_converse(
        units(m) as int,
        p as int,
        (f * e) as int,
        0,
    );
}

/// The fractional part of a negative whole number above minus two to the
/// twenty-fourth is zero.
pub proof fn lemma_fract_of_negative_whole(x: u32, k: nat)
    requires
        !is_nan(x),
        is_negative(x),
        units(magnitude(x)) == k * pow2(149),
        k < 0x100_0000,
    ensures
        in_unit_interval(spec_fract(x)),
{
    reveal(spec_fract);
    lemma_floor_of_whole(x, k);
    crate::whole::lemma_finite_whole(x, k);
    lemma_units_zero(magnitude(x));
    lemma_units_zero(0);
    lemma_pow2_pos(149);
    let p = pow2(149);
    assert(k == 0 ==> k * p == 0) by (nonlinear_arith);
    assert(k > 0 ==> k * p > 0) by (nonlinear_arith)
        requires
            p > 0,
    ;
    if k == 0 {
        assert(negated(0) == 0x8000_0000);
        assert(magnitude(0x8000_0000u32) == 0);
        assert(spec_fract(x) == 0x8000_0000);
    } else {
        assert(magnitude(negated(x)) == magnitude(x));
        assert(spec_fract(x) == 0);
    }
}

/// The fractional part of a negative whole number between minus two to the
/// twenty-fifth and minus two to the twenty-fourth that leaves two when
/// divided by four is zero: one less lies halfway to the next pattern and
/// goes on to it, and the step back returns to the number.
#[verifier::rlimit(50)]
pub proof fn lemma_fract_of_negative_past_precision(x: u32, k: nat)
    requires
        !is_nan(x),
        is_negative(x),
        units(magnitude(x)) == k * pow2(149),
        0x100_0000 < k < 0x200_0000,
        k % 4 == 2,
    ensures
        spec_floor(x) == x,
        in_unit_interval(spec_fract(x)),
{
    reveal(spec_floor);
    reveal(spec_fract);
    let p = pow2(149);
    let m = magnitude(x);
    let f = k / 2;
    lemma_sign_bit_arithmetic(x);
    lemma_small_unsigned();
    lemma_powers_near_one();
    lemma_trunc_of_whole(x, k);
    crate::whole::lemma_finite_whole(x, k);
    lemma_units_of_parts(150, f);
    lemma_units_of_parts(150, f + 1);
    lemma_pow2_pos(149);
    let b: nat = 150 * 0x80_0000 + f;
    let q = pow2(150);
    assert(f * q == k * p) by (nonlinear_arith)
        requires
            q == 2 * p,
            k == 2 * f,
    ;
    assert((f + 1) * q == k * p + 2 * p) by (nonlinear_arith)
        requires
            q == 2 * p,
            k == 2 * f,
    ;
    lemma_units_order(m, b);
    assert(m == b);
    let n: nat = k * p + p;
    assert(units(b) * 1 <= n < units(b + 1) * 1);
    lemma_nearest_at_floor(n, 1, b);
    assert(b % 2 == 1);
    assert(2 * n == (units(b) + units(b + 1)) * 1);
    assert(nearest_magnitude(n, 1) == b + 1);
    assert(negated(0x3f80_0000) == 0xbf80_0000);
    assert(magnitude(0xbf80_0000u32) == 0x3f80_0000);
    let y = rounded_difference(x, 0x3f80_0000);
    assert(signed_units(x) + signed_units(0xbf80_0000) == -(n as int));
    assert(y == with_sign(true, b + 1));
    assert(y.wrapping_sub(1) == x);
    assert(spec_floor(x) == x);
    lemma_units_zero(0);
    assert(magnitude(negated(x)) == magnitude(x));
    assert(spec_fract(x) == 0);
}

/// The whole part `k` of a magnitude that is not whole and lies below two
/// to the twenty-fourth.
pub proof fn lemma_wholes_around(m: nat) -> (k: nat)
    requires
        m < 0x7f80_0000,
        units(m) % pow2(149) != 0,
    ensures
        k * pow2(149) < units(m) < (k + 1) * pow2(149),
        wholes_above(units(m)) == k + 1,
        k < 0x80_0000,
{
    let p = pow2(149);
    let u = units(m);
    lemma_pow2_pos(149);
    lemma2_to64();
    let k: nat = u / p;
    let phi: nat = u % p;
    vstd::arithmetic::div_mod::lemma_fundamental_div_mod(u as int, p as int);
    assert(p * k == k * p) by (nonlinear_arith);
    assert((k + 1) * p == k * p + p) by (nonlinear_arith);
    assert(p * (k + 1) == (k + 1) * p) by (nonlinear_arith);
    vstd::arithmetic::div_mod::lemma_fundamental_div_mod_converse(
        u + p - 1,
        p as int,
        (k + 1) as int,
        phi - 1,
    );
    if m >= 0x4b00_0000 {
        lemma_large_is_whole(m);
    }
    lemma_units_of_parts(149, 0x80_0000);
    lemma_units_order(m, 0x4b00_0000);
    assert(k < 0x80_0000) by (nonlinear_arith)
        requires
            k * p <= u,
            u < 0x80_0000 * p,
            p > 0,
    ;
    k
}

/// What taking one from a negative number that is not whole rounds to: a
/// magnitude `big` from the pattern `b1` of the whole above the number's
/// magnitude to the pattern of the whole beyond. The pair is `(b1, big)`.
pub proof fn lemma_one_less_rounds(x: u32, k: nat) -> (r: (nat, nat))
    requires
        is_finite(x),
        is_negative(x),
        k * pow2(149) < units(magnitude(x)) < (k + 1) * pow2(149),
        k < 0x80_0000,
    ensures
        units(r.0) == (k + 1) * pow2(149),
        0x3f80_0000 <= r.0 <= r.1 < 0x7f80_0000,
        scale((r.0 - 1) as nat) <= 149,
        r.1 == nearest_magnitude(units(magnitude(x)) + pow2(149), 1),
        units((r.1 - 1) as nat) < (k + 2) * pow2(149),
        rounded_difference(x, 0x3f80_0000) == with_sign(true, r.1),
        magnitude(rounded_difference(x, 0x3f80_0000)) == r.1,
{
    let p = pow2(149);
    let m = magnitude(x);
    let u = units(m);
    lemma_powers_near_one();
    lemma_pow2_pos(149);
    assert((k + 1) * p == k * p + p) by (nonlinear_arith);
    assert((k + 2) * p == k * p + 2 * p) by (nonlinear_arith);
    let b1 = lemma_whole_pattern(k + 1);
    let b2 = lemma_whole_pattern(k + 2);
    let n1: nat = u + p;
    assert(units(b1) * 1 <= n1 && n1 <= units(b2) * 1);
    lemma_nearest_between(n1, 1, b1, b2);
    let big = nearest_magnitude(n1, 1);
    assert(negated(0x3f80_0000) == 0xbf80_0000);
    assert(magnitude(0xbf80_0000u32) == 0x3f80_0000);
    let y = rounded_difference(x, 0x3f80_0000);
    assert(signed_units(x) + signed_units(0xbf80_0000) == -(n1 as int));
    assert(y == with_sign(true, big));
    assert(magnitude(y) == big);
    lemma_units_order((big - 1) as nat, b2);
    lemma_units_order(0x3f80_0000, b1);
    assert(units(b1) >= p);
    (b1, big)
}

/// Where taking one from a negative number that is not whole does not round
/// to its floor, it rounds to a pattern past the floor's, up to that of the
/// whole beyond.
pub proof fn lemma_one_less_passes_floor(x: u32, k: nat) -> (b1: nat)
    requires
        is_finite(x),
        is_negative(x),
        k * pow2(149) < units(magnitude(x)) < (k + 1) * pow2(149),
        wholes_above(units(magnitude(x))) == k + 1,
        k < 0x80_0000,
        !one_less_is_floor(x),
    ensures
        units(b1) == (k + 1) * pow2(149),
        0x3f80_0000 <= b1 < 0x7f80_0000,
        is_negative(rounded_difference(x, 0x3f80_0000)),
        b1 < magnitude(rounded_difference(x, 0x3f80_0000)) < 0x7f80_0000,
        units((magnitude(rounded_difference(x, 0x3f80_0000)) - 1) as nat) < (k + 2) * pow2(149),
        rounded_difference(x, 0x3f80_0000) == with_sign(
            true,
            nearest_magnitude(units(magnitude(x)) + pow2(149), 1),
        ),
{
    let (b1, big) = lemma_one_less_rounds(x, k);
    lemma_units_order(big, b1);
    b1
}

/// Where taking one from a negative number that is not whole does not round
/// to its floor, `floor` gives its floor.
pub proof fn lemma_floor_of_negative(x: u32, k: nat) -> (b1: nat)
    requires
        is_finite(x),
        is_negative(x),
        k * pow2(149) < units(magnitude(x)) < (k + 1) * pow2(149),
        wholes_above(units(magnitude(x))) == k + 1,
        k < 0x80_0000,
        !one_less_is_floor(x),
    ensures
        units(b1) == (k + 1) * pow2(149),
        0x3f80_0000 <= b1 < 0x7f80_0000,
        spec_floor(x) == with_sign(true, b1),
{
    reveal(spec_floor);
    let p = pow2(149);
    lemma_sign_bit_arithmetic(x);
    lemma_small_unsigned();
    let b1 = lemma_one_less_passes_floor(x, k);
    let y = rounded_difference(x, 0x3f80_0000);
    let big = magnitude(y);
    let z = y.wrapping_sub(1);
    assert(z == with_sign(true, (big - 1) as nat));
    assert(magnitude(z) == big - 1);
    lemma_units_order(b1, (big - 1) as nat);
    let floor = with_sign(true, b1);
    assert(magnitude(floor) == b1);
    assert((k + 1 + 1) * p == (k + 2) * p) by (nonlinear_arith);
    lemma_trunc_between(z, floor, k + 1);
    b1
}

/// Where taking one from a negative number that is not whole does not round
/// to its floor, the number is at least 2^-24 below the whole above it.
pub proof fn lemma_gap_to_whole(x: u32, k: nat, b1: nat)
    requires
        is_finite(x),
        is_negative(x),
        k * pow2(149) < units(magnitude(x)) < (k + 1) * pow2(149),
        wholes_above(units(magnitude(x))) == k + 1,
        !one_less_is_floor(x),
        units(b1) == (k + 1) * pow2(149),
        0x3f80_0000 <= b1 < 0x7f80_0000,
        rounded_difference(x, 0x3f80_0000) == with_sign(
            true,
            nearest_magnitude(units(magnitude(x)) + pow2(149), 1),
        ),
    ensures
        units(magnitude(x)) - k * pow2(149) >= pow2(125),
{
    let p = pow2(149);
    let u = units(magnitude(x));
    let phi = u - k * p;
    lemma_pow2_pos(149);
    assert((k + 1) * p == k * p + p) by (nonlinear_arith);
    let n1: nat = u + p;
    if phi < pow2(125) {
        lemma_units_step(b1);
        lemma_pow2_monotonic(126, scale(b1));
        lemma_pow2_unfold(126);
        assert(units(b1) * 1 <= n1 < units(b1 + 1) * 1);
        lemma_nearest_at_floor(n1, 1, b1);
        assert(2 * n1 < (units(b1) + units(b1 + 1)) * 1);
        assert(nearest_magnitude(n1, 1) == b1);
        assert(magnitude(with_sign(true, b1)) == b1);
        assert(false);
    }
}

/// The sum of a negative number and a larger positive one is the rounded
/// difference of their magnitudes.
pub proof fn lemma_sum_across_zero(a: u32, b: u32)
    requires
        is_finite(a),
        is_finite(b),
        is_negative(a),
        !is_negative(b),
        units(magnitude(a)) < units(magnitude(b)),
    ensures
        rounded_sum(a, b) == with_sign(
            false,
            nearest_magnitude((units(magnitude(b)) - units(magnitude(a))) as nat, 1),
        ),
{
}

/// Once `floor` has given the whole number above a negative number's
/// magnitude, at least 2^-24 away, the fractional part lies between zero
/// and one.
pub proof fn lemma_fract_from_floor(x: u32, k: nat, b1: nat)
    requires
        is_finite(x),
        is_negative(x),
        units(magnitude(x)) < (k + 1) * pow2(149),
        units(magnitude(x)) - k * pow2(149) >= pow2(125),
        units(b1) == (k + 1) * pow2(149),
        b1 < 0x7f80_0000,
        spec_floor(x) == with_sign(true, b1),
    ensures
        in_unit_interval(spec_fract(x)),
{
    reveal(spec_floor);
    reveal(spec_fract);
    let p = pow2(149);
    let u = units(magnitude(x));
    lemma_pow2_pos(149);
    assert((k + 1) * p == k * p + p) by (nonlinear_arith);
    let floor = with_sign(true, b1);
    let back = negated(floor);
    assert(back == b1);
    assert(magnitude(back) == b1);
    assert(!is_negative(back));
    let n3: nat = (units(b1) - u) as nat;
    lemma_sum_across_zero(x, back);
    assert(spec_fract(x) == rounded_sum(x, back));
    lemma_remainder_below_one(n3);
    let r = nearest_magnitude(n3, 1);
    assert(spec_fract(x) == with_sign(false, r));
    assert(magnitude(with_sign(false, r)) == r);
}

/// The fractional part of a negative number that is not whole, where
/// taking one from it does not round to its floor, lies between zero and
/// one; and `floor` gives its floor.
pub proof fn lemma_fract_of_negative(x: u32)
    requires
        is_finite(x),
        is_negative(x),
        units(magnitude(x)) % pow2(149) != 0,
        !one_less_is_floor(x),
    ensures
        in_unit_interval(spec_fract(x)),
        is_negative(spec_floor(x)),
        !is_nan(spec_floor(x)),
        units(magnitude(spec_floor(x))) == wholes_above(units(magnitude(x))) * pow2(149),
{
    let m = magnitude(x);
    let k = lemma_wholes_around(m);
    let b1 = lemma_floor_of_negative(x, k);
    let b1_again = lemma_one_less_passes_floor(x, k);
    lemma_units_order(b1, b1_again);
    lemma_gap_to_whole(x, k, b1);
    lemma_fract_from_floor(x, k, b1);
    assert(magnitude(with_sign(true, b1)) == b1);
}

/// Whether magnitude bits are one pattern past those of a whole number one
/// short of a power of two: 1, 3, 7 and so on up to 2^23 - 1.
pub open spec fn is_ragged(m: nat) -> bool {
    exists|j: nat| 1 <= j <= 23 && m == #[trigger] ragged_pattern(j)
}

/// The magnitude bits one pattern past those of two to the `j` less one.
pub open spec fn ragged_pattern(j: nat) -> nat {
    ((127 + j) * 0x80_0000 - pow2((24 - j) as nat) + 1) as nat
}

/// What a magnitude from one up leaves over its whole part is a whole count
/// of its own steps.
pub proof fn lemma_remainder_in_own_steps(m: nat, k: nat) -> (c: nat)
    requires
        0x3f80_0000 <= m < 0x4b00_0000,
        k * pow2(149) <= units(m),
    ensures
        units(m) - k * pow2(149) == c * pow2(scale(m)),
        pow2(149) == pow2((149 - scale(m)) as nat) * pow2(scale(m)),
        126 <= scale(m) <= 148,
        significand(m) == k * pow2((149 - scale(m)) as nat) + c,
{
    let s = scale(m);
    let f = significand(m);
    let ps = pow2(s);
    lemma_parts_of_bits(m);
    lemma_pow2_adds((149 - s) as nat, s);
    lemma_pow2_pos(s);
    let e = pow2((149 - s) as nat);
    let p = pow2(149);
    assert(k * p == (k * e) * ps) by (nonlinear_arith)
        requires
            p == e * ps,
    ;
    assert(k * e <= f) by (nonlinear_arith)
        requires
            (k * e) * ps <= f * ps,
            ps > 0,
    ;
    let c: nat = (f - k * e) as nat;
    assert(f * ps - (k * e) * ps == c * ps) by (nonlinear_arith)
        requires
            c == f - k * e,
    ;
    c
}

/// A ratio that rounds down to a magnitude lies in the lower half of the
/// step above it, or at the middle of the step above an even magnitude.
pub proof fn lemma_rounds_down_only_near(n: nat, b: nat)
    requires
        b < 0x7f80_0000,
        units(b) <= n,
        nearest_magnitude(n, 1) == b,
    ensures
        2 * (n - units(b)) < pow2(scale(b)) || (2 * (n - units(b)) == pow2(scale(b)) && b % 2 == 0),
{
    lemma_units_step(b);
    if n >= units(b + 1) {
        assert(units(b + 1) * 1 <= n);
        crate::nearest::lemma_nearest_at_least(n, 1, b + 1);
    } else {
        assert(units(b) * 1 <= n < units(b + 1) * 1);
        lemma_nearest_at_floor(n, 1, b);
        assert((units(b) + units(b + 1)) * 1 == 2 * units(b) + pow2(scale(b)));
    }
}

/// A magnitude below one that is within half a step of one from zero is at
/// most 2^-24.
pub proof fn lemma_tiny_from_tie(m: nat)
    requires
        2 * units(m) <= pow2(126),
    ensures
        m <= 0x3380_0000,
{
    lemma2_to64();
    lemma_pow2_unfold(126);
    lemma_units_of_parts(102, 0x80_0000);
    lemma_pow2_adds(23, 102);
    assert(units(0x3380_0000) == pow2(125));
    lemma_units_order(m, 0x3380_0000);
}

/// Below minus 2^-24, and away from the ragged patterns, taking one from a
/// negative number that is not whole does not round to its floor.
pub proof fn lemma_one_less_misses_floor(x: u32, k: nat)
    requires
        is_finite(x),
        is_negative(x),
        k * pow2(149) < units(magnitude(x)) < (k + 1) * pow2(149),
        wholes_above(units(magnitude(x))) == k + 1,
        k < 0x80_0000,
        magnitude(x) > 0x3380_0000,
        !is_ragged(magnitude(x)),
    ensures
        !one_less_is_floor(x),
{
    let p = pow2(149);
    let m = magnitude(x);
    let u = units(m);
    lemma_pow2_pos(149);
    assert((k + 1) * p == k * p + p) by (nonlinear_arith);
    let (b1, big) = lemma_one_less_rounds(x, k);
    lemma_units_order(big, b1);
    if big == b1 {
        let n1: nat = u + p;
        lemma_rounds_down_only_near(n1, b1);
        assert(n1 - units(b1) == u - k * p);
        if k == 0 {
            assert(k * p == 0) by (nonlinear_arith)
                requires
                    k == 0,
            ;
            lemma_powers_near_one();
            lemma_units_order(b1, 0x3f80_0000);
            assert(b1 == 0x3f80_0000);
            assert(scale(b1) == 126);
            lemma_tiny_from_tie(m);
        } else {
            lemma_not_ragged_bounds(m, k);
            lemma_ragged_from_tie(m, k, b1);
        }
        assert(false);
    }
}

/// A magnitude between `k` and `k + 1` wholes, for `k` from one up to two
/// to the twenty-third less one, lies from one up to two to the
/// twenty-third.
pub proof fn lemma_not_ragged_bounds(m: nat, k: nat)
    requires
        1 <= k < 0x80_0000,
        k * pow2(149) < units(m) < (k + 1) * pow2(149),
    ensures
        0x3f80_0000 <= m < 0x4b00_0000,
{
    let p = pow2(149);
    lemma_pow2_pos(149);
    lemma_powers_near_one();
    assert(k * p >= p) by (nonlinear_arith)
        requires
            k >= 1,
            p > 0,
    ;
    assert((k + 1) * p <= 0x80_0000 * p) by (nonlinear_arith)
        requires
            k + 1 <= 0x80_0000,
            p > 0,
    ;
    lemma_units_order(0x3f80_0000, m);
    lemma_units_of_parts(149, 0x80_0000);
    lemma_units_order(m, 0x4b00_0000);
}

/// A magnitude from one up that is not whole, one of its own steps past the
/// whole number `k`, with the pattern of `k + 1` in the next binade, is
/// ragged.
#[verifier::rlimit(50)]
pub proof fn lemma_ragged_from_tie(m: nat, k: nat, b1: nat)
    requires
        0x3f80_0000 <= m < 0x4b00_0000,
        1 <= k < 0x80_0000,
        k * pow2(149) < units(m) < (k + 1) * pow2(149),
        units(b1) == (k + 1) * pow2(149),
        2 * (units(m) - k * pow2(149)) < pow2(scale(b1)) || (2 * (units(m) - k * pow2(149)) == pow2(
            scale(b1),
        ) && b1 % 2 == 0),
    ensures
        is_ragged(m),
{
    let p = pow2(149);
    let u = units(m);
    let s = scale(m);
    let ps = pow2(s);
    let phi = u - k * p;
    lemma2_to64();
    lemma_pow2_pos(149);
    lemma_pow2_pos(s);
    assert((k + 1) * p == k * p + p) by (nonlinear_arith);
    let c = lemma_remainder_in_own_steps(m, k);
    assert(c >= 1) by (nonlinear_arith)
        requires
            c * ps > 0,
            ps > 0,
    ;
    assert(phi >= ps) by (nonlinear_arith)
        requires
            phi == c * ps,
            c >= 1,
            ps > 0,
    ;
    // the pattern of k + 1 is at most one binade up
    let twice: nat = m + 0x80_0000;
    lemma_parts_of_bits(m);
    lemma_units_of_parts(s + 1, significand(m));
    assert(twice == (s + 1) * 0x80_0000 + significand(m));
    lemma_pow2_unfold(s + 1);
    assert(units(twice) == 2 * u) by (nonlinear_arith)
        requires
            units(twice) == significand(m) * pow2(s + 1),
            pow2(s + 1) == 2 * ps,
            u == significand(m) * ps,
    ;
    assert(k * p >= p) by (nonlinear_arith)
        requires
            k >= 1,
            p > 0,
    ;
    lemma_units_order(b1, twice);
    assert(b1 <= twice);
    assert(scale(b1) <= s + 1);
    lemma_units_order(m, b1);
    assert(b1 > m);
    assert(scale(b1) >= s);
    if scale(b1) == s {
        assert(false);
    }
    assert(scale(b1) == s + 1);
    assert(phi == ps);
    assert(c == 1) by (nonlinear_arith)
        requires
            c * ps == ps,
            ps > 0,
    ;
    // the first pattern of the next binade is a whole number between k and
    // k + 1 wholes, so it is k + 1, a power of two
    let j: nat = (s - 125) as nat;
    let start: nat = (s + 1) * 0x80_0000 + 0x80_0000;
    lemma_units_of_parts(s + 1, 0x80_0000);
    lemma_pow2_adds(23, s + 1);
    lemma_pow2_adds(j, 149);
    lemma_pow2_adds((149 - s) as nat, j);
    let w = pow2(j);
    assert(units(start) == w * p);
    assert(start <= b1);
    assert(m < start);
    lemma_units_order(start, b1);
    lemma_units_order(m, start);
    assert(k < w) by (nonlinear_arith)
        requires
            k * p < w * p,
            p > 0,
    ;
    assert(w <= k + 1) by (nonlinear_arith)
        requires
            w * p <= (k + 1) * p,
            p > 0,
    ;
    assert(w == k + 1);
    let e = pow2((149 - s) as nat);
    assert(e == pow2((24 - j) as nat));
    assert(w * e == 0x100_0000);
    assert(significand(m) == 0x100_0000 - e + 1) by (nonlinear_arith)
        requires
            significand(m) == k * e + c,
            c == 1,
            w == k + 1,
            w * e == 0x100_0000,
    ;
    assert(m == (127 + j) * 0x80_0000 - pow2((24 - j) as nat) + 1);
    assert(m == ragged_pattern(j));
}

/// The numbers on which `floor` gives the floor: the zeros; the positive
/// numbers up to two to the thirty-first; the negative numbers between
/// minus two to the twenty-fourth and minus 2^-24 whose magnitude bits are
/// not ragged; and the negative numbers between minus two to the
/// twenty-fifth and minus two to the twenty-fourth whose last bit is set.
/// On every other finite number `floor` gives another number.
pub open spec fn floor_is_right(x: u32) -> bool {
    let m = magnitude(x);
    if m >= 0x7f80_0000 {
        false
    } else if m == 0 {
        true
    } else if !is_negative(x) {
        m <= 0x4f00_0000
    } else if m < 0x4b80_0000 {
        m > 0x3380_0000 && !is_ragged(m)
    } else {
        m < 0x4c00_0000 && m % 2 == 1
    }
}

/// The greatest whole number not above `v` units, in units.
pub open spec fn floor_units(v: int) -> int {
    (v / (pow2(149) as int)) * pow2(149)
}

/// The floor of `q` wholes and a part of one whole is `q` wholes.
pub proof fn lemma_floor_units(v: int, q: int, r: int)
    requires
        v == q * pow2(149) + r,
        0 <= r < pow2(149),
    ensures
        floor_units(v) == q * pow2(149),
{
    lemma_pow2_pos(149);
    vstd::arithmetic::div_mod::lemma_fundamental_div_mod_converse(v, pow2(149) as int, q, r);
}

/// What `floor` and `fract` owe on the numbers of `floor_is_right`.
pub open spec fn floor_and_fract_hold(x: u32) -> bool {
    &&& !is_nan(spec_floor(x))
    &&& signed_units(spec_floor(x)) == floor_units(signed_units(x))
    &&& in_unit_interval(spec_fract(x))
}

/// The floor and the fractional part of a number from zero up to two to the
/// thirty-first.
pub proof fn lemma_floor_and_fract_positive(x: u32)
    requires
        !is_negative(x),
        magnitude(x) <= 0x4f00_0000,
    ensures
        floor_and_fract_hold(x),
{
    reveal(spec_floor);
    let p = pow2(149);
    let m = magnitude(x);
    let u = units(m);
    lemma_pow2_pos(149);
    lemma_top_of_signed_range();
    lemma_units_order(m, 0x4f00_0000);
    lemma_floor_of_unsigned(x);
    let t = lemma_trunc_exact(x);
    lemma_fract_of_positive(x);
    assert(magnitude(with_sign(false, t)) == t);
    let k: nat = u / p;
    assert(signed_units(spec_floor(x)) == k * p);
    assert(floor_units(signed_units(x)) == k * p);
}

/// The floor and the fractional part of a negative whole number above minus
/// two to the twenty-fourth.
pub proof fn lemma_floor_and_fract_whole(x: u32, k: nat)
    requires
        !is_nan(x),
        is_negative(x),
        units(magnitude(x)) == k * pow2(149),
        k < 0x100_0000,
    ensures
        floor_and_fract_hold(x),
{
    let p = pow2(149);
    lemma_pow2_pos(149);
    lemma_units_zero(magnitude(x));
    lemma_units_zero(0);
    lemma_floor_of_whole(x, k);
    lemma_fract_of_negative_whole(x, k);
    assert(k == 0 ==> k * p == 0) by (nonlinear_arith);
    assert((-(k as int)) * p == -(k * p)) by (nonlinear_arith);
    lemma_floor_units(-((k * p) as int), -(k as int), 0);
    if k == 0 {
        assert(signed_units(x) == 0);
        assert(signed_units(0u32) == 0);
    }
}

/// The floor and the fractional part of a negative number that is not
/// whole, below minus 2^-24 and away from the ragged patterns.
pub proof fn lemma_floor_and_fract_between(x: u32)
    requires
        is_finite(x),
        is_negative(x),
        units(magnitude(x)) % pow2(149) != 0,
        magnitude(x) > 0x3380_0000,
        !is_ragged(magnitude(x)),
    ensures
        floor_and_fract_hold(x),
{
    let p = pow2(149);
    let m = magnitude(x);
    let u = units(m);
    lemma_pow2_pos(149);
    let k = lemma_wholes_around(m);
    lemma_one_less_misses_floor(x, k);
    lemma_fract_of_negative(x);
    assert((k + 1) * p == k * p + p) by (nonlinear_arith);
    assert((-((k + 1) as int)) * p == -((k + 1) * p)) by (nonlinear_arith);
    lemma_floor_units(-(u as int), -((k + 1) as int), (k + 1) * p - u);
}

/// The floor and the fractional part of a negative number between minus two
/// to the twenty-fifth and minus two to the twenty-fourth whose last bit is
/// set.
pub proof fn lemma_floor_and_fract_past_precision(x: u32)
    requires
        is_negative(x),
        0x4b80_0000 <= magnitude(x) < 0x4c00_0000,
        magnitude(x) % 2 == 1,
    ensures
        floor_and_fract_hold(x),
{
    let p = pow2(149);
    let m = magnitude(x);
    let u = units(m);
    lemma_pow2_pos(149);
    let f: nat = (m - 150 * 0x80_0000) as nat;
    lemma_units_of_parts(150, f);
    lemma_powers_near_one();
    let k: nat = 2 * f;
    let q = pow2(150);
    assert(f * q == k * p) by (nonlinear_arith)
        requires
            q == 2 * p,
            k == 2 * f,
    ;
    lemma_fract_of_negative_past_precision(x, k);
    assert((-(k as int)) * p == -(k * p)) by (nonlinear_arith);
    lemma_floor_units(-(u as int), -(k as int), 0);
}

/// On the numbers of `floor_is_right`, `floor` gives the greatest whole
/// number not above its argument, and the fractional part lies from zero up
/// to, but not at, one.
pub proof fn lemma_floor_and_fract(x: u32)
    requires
        floor_is_right(x),
    ensures
        floor_and_fract_hold(x),
{
    let p = pow2(149);
    let m = magnitude(x);
    let u = units(m);
    if !is_negative(x) {
        lemma_floor_and_fract_positive(x);
    } else if m == 0 {
        lemma_units_zero(m);
        assert(0 == 0 * p) by (nonlinear_arith);
        lemma_floor_and_fract_whole(x, 0);
    } else if m < 0x4b80_0000 {
        if u % p == 0 {
            lemma_pow2_pos(149);
            lemma_top_of_signed_range();
            lemma_units_order(m, 0x4b80_0000);
            let k: nat = u / p;
            vstd::arithmetic::div_mod::lemma_fundamental_div_mod(u as int, p as int);
            assert(p * k == k * p) by (nonlinear_arith);
            assert(k < 0x100_0000) by (nonlinear_arith)
                requires
                    k * p < 0x100_0000 * p,
                    p > 0,
            ;
            lemma_floor_and_fract_whole(x, k);
        } else {
            lemma_floor_and_fract_between(x);
        }
    } else {
        lemma_floor_and_fract_past_precision(x);
    }
}

} // verus!
