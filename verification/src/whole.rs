//! Whole numbers among the patterns.

use vstd::prelude::*;
use vstd::arithmetic::power2::{
    pow2,
    lemma_pow2_pos,
    lemma_pow2_unfold,
    lemma_pow2_adds,
    lemma2_to64,
};
use crate::encoding::{
    is_negative,
    lemma_parts_of_bits,
    lemma_units_of_parts,
    lemma_units_order,
    lemma_units_zero,
    magnitude,
    scale,
    significand,
    units,
    with_sign,
};
use crate::nearest::{
    lemma_nearest_at_floor,
    lemma_nearest_between,
    lemma_nearest_exact,
    lemma_pow2_monotonic,
    nearest_magnitude,
};
use crate::arith::{as_signed, negated, of_unsigned, rounded_difference, rounded_sum};
use crate::bits::{lemma_sign_bit_arithmetic, spec_sign_bit};
use crate::encoding::{is_nan, lemma_units_step, signed_units};
use crate::rounding::{spec_ceil, spec_floor, spec_round, spec_trunc};

verus! {

/// The magnitude bits of `m` times two to the `e` units, for a significand
/// `m` that doubling `budget` times brings up to the hidden bit.
pub proof fn lemma_pattern_search(m: nat, e: nat, budget: nat) -> (b: nat)
    requires
        1 <= m < 0x100_0000,
        m * pow2(budget) >= 0x80_0000,
        budget <= e <= 253,
    ensures
        units(b) == m * pow2(e),
        0x80_0000 <= b < 0x7f80_0000,
        e - budget <= scale(b) <= e,
    decreases budget,
{
    lemma2_to64();
    if m >= 0x80_0000 {
        lemma_units_of_parts(e, m);
        let b = e * 0x80_0000 + m;
        assert(b / 0x80_0000 == e + 1);
        assert(scale(b) == e);
        b
    } else {
        assert(budget >= 1) by {
            if budget == 0 {
                assert(m * pow2(0) == m);
            }
        }
        lemma_pow2_unfold(budget);
        lemma_pow2_unfold(e);
        let pb = pow2((budget - 1) as nat);
        let pe = pow2((e - 1) as nat);
        assert((2 * m) * pb == m * (2 * pb)) by (nonlinear_arith);
        assert((2 * m) * pe == m * (2 * pe)) by (nonlinear_arith);
        lemma_pattern_search(2 * m, (e - 1) as nat, (budget - 1) as nat)
    }
}

/// The magnitude bits of the positive number `m` times two to the `e`
/// units, for any significand `m` of up to twenty-four bits.
pub proof fn lemma_pattern_of(m: nat, e: nat) -> (b: nat)
    requires
        1 <= m < 0x100_0000,
        24 <= e <= 253,
    ensures
        units(b) == m * pow2(e),
        0x80_0000 <= b < 0x7f80_0000,
        e - 23 <= scale(b) <= e,
{
    lemma2_to64();
    assert(m * pow2(23) >= 0x80_0000) by (nonlinear_arith)
        requires
            m >= 1,
            pow2(23) == 0x80_0000,
    ;
    lemma_pattern_search(m, e, 23)
}

/// A magnitude that lies from `k` up to, but not at, `k + 1` wholes has the
/// whole part `k`.
pub proof fn lemma_whole_part_between(u: nat, k: nat)
    requires
        k * pow2(149) <= u < (k + 1) * pow2(149),
    ensures
        u / pow2(149) == k,
{
    let p = pow2(149);
    lemma_pow2_pos(149);
    assert((k + 1) * p == k * p + p) by (nonlinear_arith);
    vstd::arithmetic::div_mod::lemma_fundamental_div_mod_converse(
        u as int,
        p as int,
        k as int,
        u - k * p,
    );
}

/// Truncation leaves a whole number within the range of `i32` as it is,
/// but for the sign of zero.
#[verifier::rlimit(50)]
pub proof fn lemma_trunc_of_whole(x: u32, k: nat)
    requires
        !crate::encoding::is_nan(x),
        units(magnitude(x)) == k * pow2(149),
        k <= 0x7fff_ffff,
    ensures
        crate::rounding::spec_trunc(x) == (if k == 0 {
            0u32
        } else {
            x
        }),
        as_signed(x) == (if is_negative(x) {
            -(k as int)
        } else {
            k as int
        }),
{
    reveal(spec_trunc);
    let p = pow2(149);
    let m = magnitude(x);
    lemma_pow2_pos(149);
    assert((k + 1) * p == k * p + p) by (nonlinear_arith);
    lemma_whole_part_between(units(m), k);
    // the magnitude is finite, as an infinity is 2^128 wholes
    lemma_units_of_parts(254, 0x80_0000);
    lemma2_to64();
    lemma_pow2_adds(23, 254);
    lemma_pow2_adds(128, 149);
    lemma_pow2_adds(64, 64);
    lemma_pow2_monotonic(31, 128);
    assert(units(0x7f80_0000) == pow2(277));
    assert(k * p < pow2(128) * p) by (nonlinear_arith)
        requires
            k < pow2(128),
            p > 0,
    ;
    lemma_units_order(m, 0x7f80_0000);
    assert(m < 0x7f80_0000);
    lemma_nearest_exact(m, 1);
    assert(units(m) * 1 == k * p);
    lemma_units_zero(m);
    if k == 0 {
        assert(units(m) == 0) by (nonlinear_arith)
            requires
                units(m) == k * p,
                k == 0,
        ;
    } else {
        assert(k * p > 0) by (nonlinear_arith)
            requires
                k > 0,
                p > 0,
        ;
    }
    let i = as_signed(x);
    if is_negative(x) {
        assert(i == -(k as int));
        assert(((-i) * pow2(149)) as nat == k * p);
    } else {
        assert(i == k as int);
        assert((i * pow2(149)) as nat == k * p);
    }
}

/// The powers of two around one whole.
pub proof fn lemma_powers_near_one()
    ensures
        pow2(149) == 2 * pow2(148),
        pow2(150) == 2 * pow2(149),
        pow2(125) == 2 * pow2(124),
        pow2(148) == 0x100_0000 * pow2(124),
        pow2(124) > 0,
        units(0x3f80_0000) == pow2(149),
        units(0x3eff_ffff) == 0xff_ffff * pow2(124),
        units(0) == 0,
{
    lemma2_to64();
    lemma_pow2_unfold(149);
    lemma_pow2_unfold(150);
    lemma_pow2_unfold(125);
    lemma_pow2_adds(24, 124);
    lemma_pow2_adds(23, 126);
    lemma_pow2_pos(124);
    lemma_units_of_parts(126, 0x80_0000);
    lemma_units_of_parts(124, 0xff_ffff);
    lemma_units_zero(0);
}

/// Zero and one convert to their own patterns.
pub proof fn lemma_small_unsigned()
    ensures
        of_unsigned(0) == 0,
        of_unsigned(1) == 0x3f80_0000,
{
    lemma_powers_near_one();
    let p = pow2(149);
    lemma_nearest_exact(0, 1);
    lemma_nearest_exact(0x3f80_0000, 1);
    assert(0 as nat * p == units(0) * 1) by (nonlinear_arith)
        requires
            units(0) == 0,
    ;
    assert(1 as nat * p == units(0x3f80_0000) * 1) by (nonlinear_arith)
        requires
            units(0x3f80_0000) == p,
    ;
}

/// The magnitude bits of the whole number `j`, up to two to the
/// twenty-fourth.
pub proof fn lemma_whole_pattern(j: nat) -> (b: nat)
    requires
        1 <= j <= 0x100_0000,
    ensures
        units(b) == j * pow2(149),
        0x80_0000 <= b < 0x7f80_0000,
        scale((b - 1) as nat) <= 149,
{
    lemma2_to64();
    if j < 0x100_0000 {
        let b = lemma_pattern_of(j, 149);
        b
    } else {
        lemma_units_of_parts(150, 0x80_0000);
        lemma_pow2_unfold(150);
        let p = pow2(149);
        assert(0x80_0000 * (2 * p) == 0x100_0000 * p) by (nonlinear_arith);
        let b: nat = 150 * 0x80_0000 + 0x80_0000;
        assert(scale((b - 1) as nat) == 149);
        b
    }
}

/// One pattern below a whole number lies in the whole below it.
pub proof fn lemma_below_whole(b: nat, j: nat)
    requires
        j >= 1,
        b >= 1,
        units(b) == j * pow2(149),
        scale((b - 1) as nat) <= 149,
    ensures
        (j - 1) * pow2(149) <= units((b - 1) as nat) < j * pow2(149),
{
    let c = (b - 1) as nat;
    let p = pow2(149);
    lemma_units_step(c);
    lemma_pow2_monotonic(scale(c), 149);
    assert((j - 1) * p == j * p - p) by (nonlinear_arith);
}

/// What a whole number converts to, once its whole part is known with its
/// sign: the number's own pattern, and positive zero for a zero.
pub proof fn lemma_trunc_between(z: u32, x: u32, k: nat)
    requires
        !is_nan(z),
        !is_nan(x),
        k * pow2(149) <= units(magnitude(z)) < (k + 1) * pow2(149),
        units(magnitude(x)) == k * pow2(149),
        k <= 0x7fff_ffff,
        k > 0 ==> is_negative(z) == is_negative(x),
    ensures
        spec_trunc(z) == (if k == 0 {
            0u32
        } else {
            x
        }),
{
    reveal(spec_trunc);
    let p = pow2(149);
    lemma_whole_part_between(units(magnitude(z)), k);
    lemma_trunc_of_whole(x, k);
    lemma_pow2_pos(149);
    if k == 0 {
        assert(as_signed(z) == 0);
        assert(as_signed(x) == 0);
    } else {
        assert(as_signed(z) == as_signed(x));
    }
}

/// The floor of a whole number from minus two to the twenty-third up to two
/// to the thirty-first less one is the number, and positive zero for a
/// zero.
#[verifier::rlimit(50)]
pub proof fn lemma_floor_of_whole(x: u32, k: nat)
    requires
        !is_nan(x),
        units(magnitude(x)) == k * pow2(149),
        is_negative(x) ==> k < 0x100_0000,
        !is_negative(x) ==> k <= 0x7fff_ffff,
    ensures
        spec_floor(x) == (if k == 0 {
            0u32
        } else {
            x
        }),
{
    reveal(spec_floor);
    let p = pow2(149);
    let m = magnitude(x);
    lemma_sign_bit_arithmetic(x);
    lemma_small_unsigned();
    lemma_powers_near_one();
    lemma_trunc_of_whole(x, k);
    lemma_pow2_pos(149);
    lemma_units_zero(m);
    assert(k > 0 ==> k * p > 0) by (nonlinear_arith)
        requires
            p > 0,
    ;
    assert(k == 0 ==> k * p == 0) by (nonlinear_arith);
    assert(m < 0x7f80_0000) by {
        // shown in the course of lemma_trunc_of_whole: the number is finite
        lemma_finite_whole(x, k);
    }
    lemma_nearest_exact(m, 1);
    assert(units(m) * 1 == units(m));
    if is_negative(x) {
        assert(spec_sign_bit(x) == 1);
        let one_less = negated(0x3f80_0000);
        assert(one_less == 0xbf80_0000);
        assert(magnitude(one_less) == 0x3f80_0000);
        let b1 = lemma_whole_pattern(k + 1);
        lemma_nearest_exact(b1, 1);
        assert((k + 1) * p == k * p + p) by (nonlinear_arith);
        assert(units(b1) * 1 == (k + 1) * p);
        let y = rounded_difference(x, 0x3f80_0000);
        assert(y == with_sign(true, b1));
        let z = y.wrapping_sub(1);
        assert(z == with_sign(true, (b1 - 1) as nat));
        lemma_below_whole(b1, k + 1);
        assert(magnitude(z) == b1 - 1);
        lemma_trunc_between(z, x, k);
    } else {
        assert(spec_sign_bit(x) == 0);
        let y = rounded_difference(x, 0);
        assert(negated(0) == 0x8000_0000);
        assert(magnitude(0x8000_0000u32) == 0);
        assert(y == x);
        assert(y.wrapping_sub(0) == x);
    }
}

/// A whole number of fewer than two to the thirty-first wholes is finite.
pub proof fn lemma_finite_whole(x: u32, k: nat)
    requires
        !is_nan(x),
        units(magnitude(x)) == k * pow2(149),
        k <= 0x7fff_ffff,
    ensures
        magnitude(x) < 0x7f80_0000,
{
    let p = pow2(149);
    let m = magnitude(x);
    lemma_pow2_pos(149);
    lemma_units_of_parts(254, 0x80_0000);
    lemma2_to64();
    lemma_pow2_adds(23, 254);
    lemma_pow2_adds(128, 149);
    lemma_pow2_adds(64, 64);
    lemma_pow2_monotonic(31, 128);
    assert(units(0x7f80_0000) == pow2(277));
    assert(k * p < pow2(128) * p) by (nonlinear_arith)
        requires
            k < pow2(128),
            p > 0,
    ;
    lemma_units_order(m, 0x7f80_0000);
}

/// The ceiling of a whole number from minus two to the thirty-first less
/// one up to two to the twenty-fourth less one is the number, and positive
/// zero for a zero.
#[verifier::rlimit(50)]
pub proof fn lemma_ceil_of_whole(x: u32, k: nat)
    requires
        !is_nan(x),
        units(magnitude(x)) == k * pow2(149),
        is_negative(x) ==> k <= 0x7fff_ffff,
        !is_negative(x) ==> k < 0x100_0000,
    ensures
        spec_ceil(x) == (if k == 0 {
            0u32
        } else {
            x
        }),
{
    reveal(spec_ceil);
    let p = pow2(149);
    let m = magnitude(x);
    lemma_sign_bit_arithmetic(x);
    lemma_small_unsigned();
    lemma_powers_near_one();
    lemma_trunc_of_whole(x, k);
    lemma_pow2_pos(149);
    lemma_units_zero(m);
    assert(k > 0 ==> k * p > 0) by (nonlinear_arith)
        requires
            p > 0,
    ;
    assert(k == 0 ==> k * p == 0) by (nonlinear_arith);
    lemma_finite_whole(x, k);
    lemma_nearest_exact(m, 1);
    assert(units(m) * 1 == units(m));
    if !is_negative(x) {
        assert(spec_sign_bit(x) == 0);
        let b1 = lemma_whole_pattern(k + 1);
        lemma_nearest_exact(b1, 1);
        assert((k + 1) * p == k * p + p) by (nonlinear_arith);
        assert(units(b1) * 1 == (k + 1) * p);
        let y = rounded_sum(x, 0x3f80_0000);
        assert(y == with_sign(false, b1));
        let z = y.wrapping_sub(1);
        assert(z == with_sign(false, (b1 - 1) as nat));
        lemma_below_whole(b1, k + 1);
        assert(magnitude(z) == b1 - 1);
        lemma_trunc_between(z, x, k);
    } else {
        assert(spec_sign_bit(x) == 1);
        let y = rounded_sum(x, 0);
        if k == 0 {
            assert(y == 0);
            lemma_trunc_of_whole(0, 0);
        } else {
            assert(y == x);
        }
        assert(y.wrapping_sub(0) == y);
    }
}

/// The ceiling of a whole number between two to the twenty-fourth and two
/// to the twenty-fifth that leaves two when divided by four is the number:
/// the sum with one lies halfway to the next pattern and goes up to it.
#[verifier::rlimit(50)]
pub proof fn lemma_ceil_of_whole_past_precision(x: u32, k: nat)
    requires
        !is_nan(x),
        !is_negative(x),
        units(magnitude(x)) == k * pow2(149),
        0x100_0000 < k < 0x200_0000,
        k % 4 == 2,
    ensures
        spec_ceil(x) == x,
{
    reveal(spec_ceil);
    let p = pow2(149);
    let m = magnitude(x);
    let f = k / 2;
    lemma_sign_bit_arithmetic(x);
    lemma_small_unsigned();
    lemma_powers_near_one();
    lemma_trunc_of_whole(x, k);
    lemma_finite_whole(x, k);
    lemma_units_of_parts(150, f);
    lemma_units_of_parts(150, f + 1);
    let b: nat = 150 * 0x80_0000 + f;
    let q = pow2(150);
    assert(f * q == k * p) by (nonlinear_arith)
        requires
            q == 2 * p,
            k == 2 * f,
    ;
    assert((f + 1) * q == k * p + 2 * p) by (nonlinear_arith)
        requires
            q == 2 * p,
            k == 2 * f,
    ;
    lemma_units_order(m, b);
    assert(m == b);
    let n: nat = k * p + p;
    assert(units(b) * 1 <= n < units(b + 1) * 1);
    lemma_nearest_at_floor(n, 1, b);
    assert(b % 2 == 1);
    assert(2 * n == (units(b) + units(b + 1)) * 1);
    assert(nearest_magnitude(n, 1) == b + 1);
    let y = rounded_sum(x, 0x3f80_0000);
    assert(signed_units(x) + signed_units(0x3f80_0000) == n);
    assert(y == with_sign(false, b + 1));
    assert(y.wrapping_sub(1) == x);
}

/// Rounding a whole number that is not negative, up to two to the
/// thirty-first less one, gives the number.
#[verifier::rlimit(50)]
pub proof fn lemma_round_of_whole_up(x: u32, k: nat)
    requires
        !is_nan(x),
        units(magnitude(x)) == k * pow2(149),
        k == 0 || !is_negative(x),
        k <= 0x7fff_ffff,
    ensures
        spec_round(x) == (if k == 0 {
            0u32
        } else {
            x
        }),
{
    reveal(spec_round);
    let p = pow2(149);
    let q = pow2(148);
    let g = pow2(124);
    let m = magnitude(x);
    let bias: u32 = 0x3eff_ffff;
    lemma_sign_bit_arithmetic(x);
    lemma_small_unsigned();
    lemma_powers_near_one();
    lemma_trunc_of_whole(x, k);
    lemma_finite_whole(x, k);
    lemma_pow2_pos(149);
    lemma_units_zero(m);
    assert(k == 0 ==> k * p == 0) by (nonlinear_arith);
    assert(k > 0 ==> k * p >= p) by (nonlinear_arith)
        requires
            p > 0,
    ;
    let cu: nat = 0xff_ffff * g;
    assert(magnitude(bias) == 0x3eff_ffff);
    assert(units(magnitude(bias)) == cu);
    assert(cu + g == q);
    let n: nat = k * p + cu;
    assert((k + 1) * p == k * p + p) by (nonlinear_arith);
    assert(signed_units(x) + signed_units(bias) == n);
    assert(n > 0);
    let big = nearest_magnitude(n, 1);
    // the sum stays within the whole that `k` begins
    if k < 0x80_0000 {
        let hi = lemma_pattern_of(2 * k + 1, 148);
        assert((2 * k + 1) * q == k * p + q) by (nonlinear_arith)
            requires
                p == 2 * q,
        ;
        assert(units(m) * 1 <= n && n <= units(hi) * 1);
        lemma_nearest_between(n, 1, m, hi);
        lemma_units_order(m, big);
        lemma_units_order(big, hi);
    } else {
        lemma_units_of_parts(149, 0x80_0000);
        lemma2_to64();
        assert(0x80_0000 * p <= k * p) by (nonlinear_arith)
            requires
                0x80_0000 <= k,
        ;
        lemma_units_order(0x4b00_0000, m);
        assert(m >= 0x4b00_0000);
        assert(scale(m) >= 149);
        lemma_pow2_monotonic(149, scale(m));
        lemma_units_step(m);
        assert(units(m) * 1 <= n < units(m + 1) * 1);
        lemma_nearest_at_floor(n, 1, m);
        assert(2 * n < (units(m) + units(m + 1)) * 1);
        assert(big == m);
    }
    assert(k * p <= units(big) < (k + 1) * p);
    assert(big < 0x7f80_0000) by {
        lemma_finite_bound(k);
        lemma_units_order(big, 0x7f80_0000);
    }
    let y = rounded_sum(x, bias);
    assert(y == with_sign(false, big));
    assert(magnitude(y) == big);
    lemma_sign_bit_arithmetic(y);
    assert(spec_sign_bit(y) == 0);
    lemma_nearest_exact(big, 1);
    assert(units(big) * 1 == units(big));
    lemma_units_zero(big);
    let w = rounded_difference(y, 0);
    assert(negated(0) == 0x8000_0000);
    assert(magnitude(0x8000_0000u32) == 0);
    if units(big) == 0 {
        assert(w == 0);
        assert(k == 0);
        lemma_trunc_of_whole(0, 0);
    } else {
        assert(w == y);
        if k > 0 {
            lemma_trunc_between(y, x, k);
        } else {
            lemma_trunc_between(y, 0, 0);
        }
    }
}

/// Fewer than two to the thirty-second wholes are less than what the
/// infinite magnitude stands for.
pub proof fn lemma_finite_bound(k: nat)
    requires
        k <= 0xffff_ffff,
    ensures
        (k + 1) * pow2(149) <= units(0x7f80_0000),
{
    let p = pow2(149);
    lemma_pow2_pos(149);
    lemma_units_of_parts(254, 0x80_0000);
    lemma2_to64();
    lemma_pow2_adds(23, 254);
    lemma_pow2_adds(128, 149);
    lemma_pow2_adds(64, 64);
    lemma_pow2_monotonic(33, 128);
    vstd::arithmetic::power2::lemma2_to64_rest();
    assert(units(0x7f80_0000) == pow2(277));
    assert((k + 1) * p <= pow2(128) * p) by (nonlinear_arith)
        requires
            k + 1 <= pow2(128),
            p > 0,
    ;
}

/// Rounding a negative whole number down to minus two to the twenty-third
/// gives the number.
#[verifier::rlimit(50)]
pub proof fn lemma_round_of_whole_down(x: u32, k: nat)
    requires
        !is_nan(x),
        is_negative(x),
        units(magnitude(x)) == k * pow2(149),
        1 <= k <= 0x80_0000,
    ensures
        spec_round(x) == x,
{
    reveal(spec_round);
    let p = pow2(149);
    let q = pow2(148);
    let g = pow2(124);
    let m = magnitude(x);
    let bias: u32 = 0x3eff_ffff;
    lemma_sign_bit_arithmetic(x);
    lemma_small_unsigned();
    lemma_powers_near_one();
    lemma_finite_whole(x, k);
    lemma_pow2_pos(149);
    let cu: nat = 0xff_ffff * g;
    assert(magnitude(bias) == 0x3eff_ffff);
    assert(units(magnitude(bias)) == cu);
    assert(cu + g == q);
    assert(k * p == 2 * k * q) by (nonlinear_arith)
        requires
            p == 2 * q,
    ;
    assert((2 * k - 1) * q == 2 * k * q - q) by (nonlinear_arith);
    assert((2 * k + 1) * q == 2 * k * q + q) by (nonlinear_arith);
    assert((k + 1) * p == k * p + p) by (nonlinear_arith);
    assert(k * p >= p) by (nonlinear_arith)
        requires
            k >= 1,
            p > 0,
    ;
    // the sum with the bias: half a whole above, rounded to the half
    let h = lemma_pattern_of((2 * k - 1) as nat, 148);
    let n: nat = (k * p - cu) as nat;
    assert(n == units(h) + g);
    assert(signed_units(x) + signed_units(bias) == -(n as int));
    lemma_units_step(h);
    lemma_pow2_monotonic(125, scale(h));
    let step = pow2(scale(h));
    assert(units(h) * 1 <= n < units(h + 1) * 1);
    lemma_nearest_at_floor(n, 1, h);
    if scale(h) == 125 {
        lemma_parts_of_bits(h);
        lemma2_to64();
        lemma_pow2_adds(23, 125);
        let sig = significand(h);
        let t = pow2(125);
        lemma_pow2_pos(125);
        assert(sig == (2 * k - 1) * 0x80_0000) by (nonlinear_arith)
            requires
                sig * t == (2 * k - 1) * q,
                q == 0x80_0000 * t,
                t > 0,
        ;
        assert(h % 2 == 0);
    } else {
        lemma_pow2_monotonic(126, scale(h));
        lemma_pow2_unfold(126);
    }
    assert(nearest_magnitude(n, 1) == h);
    let y = rounded_sum(x, bias);
    assert(y == with_sign(true, h));
    assert(magnitude(y) == h);
    lemma_sign_bit_arithmetic(y);
    assert(spec_sign_bit(y) == 1);
    // one less: a whole and a half below zero, or the tie at the top
    let n2: nat = units(h) + p;
    let w = rounded_difference(y, 0x3f80_0000);
    assert(negated(0x3f80_0000) == 0xbf80_0000);
    assert(magnitude(0xbf80_0000u32) == 0x3f80_0000);
    assert(signed_units(y) + signed_units(0xbf80_0000) == -(n2 as int));
    let big = nearest_magnitude(n2, 1);
    if k < 0x80_0000 {
        let h2 = lemma_pattern_of(2 * k + 1, 148);
        lemma_nearest_exact(h2, 1);
        assert(units(h2) * 1 == n2);
        assert(big == h2);
    } else {
        lemma_units_of_parts(149, 0x80_0000);
        lemma_units_of_parts(149, 0x80_0001);
        let b: nat = 0x4b00_0000;
        assert(units(b) == 0x80_0000 * p);
        assert(units(b + 1) == 0x80_0001 * p);
        assert(units(b) * 1 <= n2 < units(b + 1) * 1);
        lemma_nearest_at_floor(n2, 1, b);
        assert(2 * n2 == (units(b) + units(b + 1)) * 1);
        assert(big == b);
    }
    assert(k * p <= units(big) < (k + 1) * p);
    assert(big < 0x7f80_0000);
    assert(w == with_sign(true, big));
    lemma_trunc_between(w, x, k);
}

} // verus!
