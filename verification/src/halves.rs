//! Rounding to the nearest whole number. The bias just under one half
//! carries a number from the half up into the next whole and leaves a number
//! below the half in its own; a negative sum has one more taken off before
//! the truncation.

use vstd::prelude::*;
use vstd::arithmetic::power2::{pow2, lemma_pow2_pos, lemma_pow2_adds, lemma_pow2_unfold, lemma2_to64};
use crate::encoding::{
    is_finite,
    is_nan,
    is_negative,
    lemma_units_doubled,
    lemma_units_of_parts,
    lemma_units_order,
    lemma_units_step,
    lemma_units_zero,
    magnitude,
    scale,
    signed_units,
    units,
    with_sign,
};
use crate::nearest::{
    lemma_nearest_at_floor,
    lemma_nearest_at_least,
    lemma_nearest_between,
    lemma_nearest_exact,
    lemma_pow2_monotonic,
    nearest_magnitude,
};
use crate::arith::{negated, rounded_difference, rounded_sum};
use crate::bits::{lemma_sign_bit_arithmetic, spec_sign_bit};
use crate::encoding::{lemma_parts_of_bits, significand};
use crate::fraction::{
    floor_units,
    lemma_below_one_bound,
    lemma_floor_units,
    lemma_large_is_whole,
    lemma_remainder_in_own_steps,
    lemma_remainder_of_steps,
    lemma_trunc_exact,
    lemma_wholes_around,
};
use crate::whole::lemma_pattern_search;
use crate::rounding::{spec_round, spec_trunc};
use crate::whole::{
    lemma_finite_bound,
    lemma_pattern_of,
    lemma_powers_near_one,
    lemma_small_unsigned,
    lemma_whole_part_between,
    lemma_whole_pattern,
};

verus! {

/// What the bias stands for: one half less 2^-25, in units.
pub open spec fn bias_units() -> nat {
    0xff_ffff * pow2(124)
}

/// The step below the pattern of the whole number after `k` is at most two
/// steps of a magnitude that lies between `k` and `k + 1` wholes, for `k`
/// from one up.
pub proof fn lemma_step_below_next_whole(m: nat, k: nat, b1: nat)
    requires
        m >= 0x3f80_0000,
        k >= 1,
        k * pow2(149) < units(m) < (k + 1) * pow2(149),
        units(b1) == (k + 1) * pow2(149),
    ensures
        b1 > m,
        pow2(scale((b1 - 1) as nat)) <= 2 * pow2(scale(m)),
{
    let p = pow2(149);
    let u = units(m);
    lemma_pow2_pos(149);
    assert((k + 1) * p == k * p + p) by (nonlinear_arith);
    assert(k * p >= p) by (nonlinear_arith)
        requires
            k >= 1,
            p > 0,
    ;
    lemma_units_doubled(m);
    let twice: nat = m + 0x80_0000;
    lemma_units_order(b1, twice);
    lemma_units_order(m, b1);
    let c1 = (b1 - 1) as nat;
    assert(scale(c1) <= scale(twice));
    lemma_pow2_monotonic(scale(c1), scale(m) + 1);
    lemma_pow2_unfold(scale(m) + 1);
}

/// A number below the half of its whole, with the bias added, rounds to a
/// magnitude in the same whole.
#[verifier::rlimit(50)]
pub proof fn lemma_biased_below_half(m: nat, k: nat) -> (big: nat)
    requires
        m < 0x4b00_0000,
        k < 0x80_0000,
        k * pow2(149) < units(m) < k * pow2(149) + pow2(148),
    ensures
        big == nearest_magnitude(units(m) + bias_units(), 1),
        k * pow2(149) <= units(big) < (k + 1) * pow2(149),
{
    let p = pow2(149);
    let q = pow2(148);
    let g = pow2(124);
    let u = units(m);
    let n: nat = u + bias_units();
    lemma_powers_near_one();
    lemma_pow2_pos(149);
    lemma2_to64();
    lemma_units_zero(0);
    assert(0xff_ffff * g + g == 0x100_0000 * g) by (nonlinear_arith);
    assert(bias_units() + g == q);
    assert((k + 1) * p == k * p + p) by (nonlinear_arith);
    let b1 = lemma_whole_pattern(k + 1);
    let c1 = (b1 - 1) as nat;
    let st = pow2(scale(c1));
    lemma_units_step(c1);
    let t: nat = if k == 0 {
        0
    } else {
        lemma_whole_pattern(k)
    };
    assert(k == 0 ==> k * p == 0) by (nonlinear_arith);
    assert(units(t) == k * p);
    assert(units(t) * 1 <= n);
    lemma_nearest_at_least(n, 1, t);
    let big = nearest_magnitude(n, 1);
    lemma_units_order(t, big);
    // the sum lies below the middle of the last step before the next whole
    if k == 0 {
        lemma_units_order(b1, 0x3f80_0000);
        assert(b1 == 0x3f80_0000);
        assert(scale(c1) == 125);
        lemma_pow2_unfold(125);
        assert(st == 2 * g);
    } else {
        assert(k * p >= p) by (nonlinear_arith)
            requires
                k >= 1,
                p > 0,
        ;
        lemma_units_order(0x3f80_0000, m);
        lemma_step_below_next_whole(m, k, b1);
        let c = lemma_remainder_in_own_steps(m, k);
        let sm = scale(m);
        let ps = pow2(sm);
        let e = pow2((149 - sm) as nat);
        let half = pow2((148 - sm) as nat);
        lemma_pow2_unfold((149 - sm) as nat);
        lemma_pow2_pos(sm);
        assert(q == half * ps) by (nonlinear_arith)
            requires
                p == e * ps,
                e == 2 * half,
                p == 2 * q,
        ;
        assert(c < half) by (nonlinear_arith)
            requires
                c * ps < half * ps,
                ps > 0,
        ;
        assert(c * ps + ps <= half * ps) by (nonlinear_arith)
            requires
                c + 1 <= half,
                ps > 0,
        ;
        assert(2 * (u - k * p) + st <= p);
    }
    assert(2 * n < (units(c1) + units(c1 + 1)) * 1);
    if n >= units(c1) {
        assert(units(c1) * 1 <= n < units(c1 + 1) * 1);
        lemma_nearest_at_floor(n, 1, c1);
    } else {
        assert(n <= units(c1) * 1);
        lemma_nearest_between(n, 1, t, c1);
    }
    lemma_units_order(big, c1);
    big
}

/// A number from the half of its whole up, with the bias added, rounds to a
/// magnitude in the next whole.
#[verifier::rlimit(50)]
pub proof fn lemma_biased_from_half(m: nat, k: nat) -> (big: nat)
    requires
        m < 0x4b00_0000,
        k < 0x80_0000,
        k * pow2(149) + pow2(148) <= units(m) < (k + 1) * pow2(149),
    ensures
        big == nearest_magnitude(units(m) + bias_units(), 1),
        (k + 1) * pow2(149) <= units(big) < (k + 2) * pow2(149),
{
    let p = pow2(149);
    let q = pow2(148);
    let g = pow2(124);
    let u = units(m);
    let n: nat = u + bias_units();
    lemma_powers_near_one();
    lemma_pow2_pos(149);
    lemma2_to64();
    lemma_units_zero(0);
    assert(0xff_ffff * g + g == 0x100_0000 * g) by (nonlinear_arith);
    assert(bias_units() + g == q);
    assert((k + 1) * p == k * p + p) by (nonlinear_arith);
    assert((k + 2) * p == k * p + 2 * p) by (nonlinear_arith);
    let b1 = lemma_whole_pattern(k + 1);
    let c1 = (b1 - 1) as nat;
    let st = pow2(scale(c1));
    lemma_units_step(c1);
    let big = nearest_magnitude(n, 1);
    // the sum reaches the next whole, or rounds up to it
    assert(k * p >= 0) by (nonlinear_arith)
        requires
            p > 0,
    ;
    lemma_units_order(0x3f80_0000, b1);
    assert(units(b1) >= p) by (nonlinear_arith)
        requires
            units(b1) == k * p + p,
            k * p >= 0,
    ;
    assert(c1 >= 0x3f7f_ffff);
    assert(scale(c1) >= 125);
    lemma_pow2_monotonic(125, scale(c1));
    lemma_pow2_unfold(125);
    assert(st >= 2 * g);
    if n >= units(b1) {
        assert(units(b1) * 1 <= n);
        lemma_nearest_at_least(n, 1, b1);
    } else {
        assert(units(c1) * 1 <= n < units(c1 + 1) * 1);
        lemma_nearest_at_floor(n, 1, c1);
        assert(2 * n >= (units(c1) + units(c1 + 1)) * 1);
        if 2 * n == (units(c1) + units(c1 + 1)) * 1 {
            assert(st == 2 * g);
            if scale(c1) > 125 {
                lemma_pow2_monotonic(126, scale(c1));
                lemma_pow2_unfold(126);
            }
            assert(scale(c1) == 125);
            assert(c1 == 0x3f7f_ffff);
        }
        assert(big == b1);
    }
    lemma_units_order(b1, big);
    // and it stays below the whole after
    if k + 2 <= 0x80_0000 {
        let h = lemma_pattern_of(2 * k + 3, 148);
        assert((2 * k + 3) * q == k * p + p + q) by (nonlinear_arith)
            requires
                p == 2 * q,
        ;
        assert(units(0) * 1 <= n && n <= units(h) * 1);
        lemma_nearest_between(n, 1, 0, h);
        lemma_units_order(big, h);
    } else {
        lemma_units_of_parts(148, 0xff_ffff);
        assert(0xff_ffff * q == k * p + q) by (nonlinear_arith)
            requires
                k == 0x7f_ffff,
                p == 2 * q,
        ;
        lemma_units_order(0x4aff_ffff, m);
        assert(m == 0x4aff_ffff);
        assert(units(0) * 1 <= n && n <= units(b1) * 1);
        lemma_nearest_between(n, 1, 0, b1);
        lemma_units_order(big, b1);
    }
    big
}

/// Rounding a number that is not negative and not whole gives the whole
/// number nearest to it, the upper one from the half on.
#[verifier::rlimit(50)]
pub proof fn lemma_round_of_unsigned(x: u32)
    requires
        is_finite(x),
        !is_negative(x),
        units(magnitude(x)) % pow2(149) != 0,
    ensures
        !is_nan(spec_round(x)),
        signed_units(spec_round(x)) == floor_units(signed_units(x) + pow2(148)),
{
    reveal(spec_round);
    let p = pow2(149);
    let q = pow2(148);
    let m = magnitude(x);
    let u = units(m);
    let bias: u32 = 0x3eff_ffff;
    lemma_sign_bit_arithmetic(x);
    lemma_small_unsigned();
    lemma_powers_near_one();
    lemma_pow2_pos(149);
    lemma_pow2_pos(124);
    let k = lemma_wholes_around(m);
    if m >= 0x4b00_0000 {
        lemma_large_is_whole(m);
    }
    assert((k + 1) * p == k * p + p) by (nonlinear_arith);
    assert((k + 2) * p == k * p + 2 * p) by (nonlinear_arith);
    let low = u < k * p + q;
    let j: nat = if low {
        k
    } else {
        k + 1
    };
    let big = if low {
        lemma_biased_below_half(m, k)
    } else {
        lemma_biased_from_half(m, k)
    };
    assert((j + 1) * p == j * p + p) by (nonlinear_arith);
    assert(j * p <= units(big) < (j + 1) * p);
    lemma_finite_bound(j);
    lemma_units_order(big, 0x7f80_0000);
    assert(magnitude(bias) == 0x3eff_ffff);
    assert(signed_units(x) + signed_units(bias) == u + bias_units());
    assert(bias_units() > 0) by (nonlinear_arith)
        requires
            bias_units() == 0xff_ffff * pow2(124),
            pow2(124) > 0,
    ;
    let y = rounded_sum(x, bias);
    assert(y == with_sign(false, big));
    assert(magnitude(y) == big);
    lemma_sign_bit_arithmetic(y);
    assert(spec_sign_bit(y) == 0);
    assert(negated(0) == 0x8000_0000);
    assert(magnitude(0x8000_0000u32) == 0);
    lemma_units_zero(big);
    lemma_units_zero(0);
    lemma_nearest_exact(big, 1);
    assert(units(big) * 1 == units(big));
    let w = rounded_difference(y, 0);
    assert(w == y);
    assert(spec_round(x) == spec_trunc(y));
    assert(j * p < 0x8000_0000 * p) by (nonlinear_arith)
        requires
            j <= 0x80_0000,
            p > 0,
    ;
    assert((j + 1) * p <= 0x8000_0000 * p) by (nonlinear_arith)
        requires
            j + 1 <= 0x8000_0000,
            p > 0,
    ;
    let t = lemma_trunc_exact(y);
    lemma_whole_part_between(units(big), j);
    assert(units(t) == j * p);
    assert(magnitude(with_sign(false, t)) == t);
    if low {
        lemma_floor_units((u + q) as int, j as int, u - k * p + q);
    } else {
        lemma_floor_units((u + q) as int, j as int, u - k * p - q);
    }
}

/// A ratio no more than 2^-25 past a magnitude of one half or more rounds
/// to that magnitude or below, where the magnitude is even if it lies below
/// one.
pub proof fn lemma_rounds_to_at_most(a: nat, d: nat)
    requires
        d < 0x7f80_0000,
        a <= units(d) + pow2(124),
        scale(d) >= 125,
        scale(d) == 125 ==> d % 2 == 0,
    ensures
        nearest_magnitude(a, 1) <= d,
{
    let g = pow2(124);
    lemma_units_zero(0);
    lemma_pow2_pos(124);
    if a <= units(d) {
        assert(units(0) * 1 <= a && a <= units(d) * 1);
        lemma_nearest_between(a, 1, 0, d);
    } else {
        lemma_units_step(d);
        lemma_pow2_monotonic(125, scale(d));
        lemma_pow2_unfold(125);
        if scale(d) > 125 {
            lemma_pow2_monotonic(126, scale(d));
            lemma_pow2_unfold(126);
        }
        assert(units(d) * 1 <= a < units(d + 1) * 1);
        lemma_nearest_at_floor(a, 1, d);
        assert(2 * a <= (units(d) + units(d + 1)) * 1);
    }
}

/// Once the sum with the bias is the negative of the magnitude `big`, and
/// one more taken off rounds into the whole that `j` begins, `round` gives
/// minus `j`.
#[verifier::rlimit(50)]
pub proof fn lemma_round_after_bias(x: u32, big: nat, j: nat)
    requires
        rounded_sum(x, 0x3eff_ffff) == with_sign(true, big),
        1 <= big < 0x7f80_0000,
        j * pow2(149) <= units(nearest_magnitude(units(big) + pow2(149), 1)),
        units(nearest_magnitude(units(big) + pow2(149), 1)) < (j + 1) * pow2(149),
        j <= 0x100_0000,
    ensures
        !is_nan(spec_round(x)),
        signed_units(spec_round(x)) == -(j * pow2(149)),
{
    reveal(spec_round);
    let p = pow2(149);
    let y = with_sign(true, big);
    lemma_pow2_pos(149);
    lemma_powers_near_one();
    lemma_small_unsigned();
    assert(magnitude(y) == big);
    lemma_sign_bit_arithmetic(y);
    assert(spec_sign_bit(y) == 1);
    assert(negated(0x3f80_0000) == 0xbf80_0000);
    assert(magnitude(0xbf80_0000u32) == 0x3f80_0000);
    let n2: nat = units(big) + p;
    let far = nearest_magnitude(n2, 1);
    assert((j + 1) * p == j * p + p) by (nonlinear_arith);
    lemma_finite_bound(j);
    lemma_units_order(far, 0x7f80_0000);
    assert(signed_units(y) + signed_units(0xbf80_0000) == -(n2 as int));
    let w = rounded_difference(y, 0x3f80_0000);
    assert(w == with_sign(true, far));
    assert(magnitude(w) == far);
    assert((j + 1) * p <= 0x8000_0000 * p) by (nonlinear_arith)
        requires
            j + 1 <= 0x8000_0000,
            p > 0,
    ;
    let t = lemma_trunc_exact(w);
    lemma_whole_part_between(units(far), j);
    assert(units(t) == j * p);
    lemma_units_zero(t);
    assert(magnitude(with_sign(true, t)) == t);
    assert(spec_round(x) == spec_trunc(w));
}

/// A negative number that the bias outweighs rounds to the positive zero.
#[verifier::rlimit(50)]
pub proof fn lemma_round_of_small_negative(x: u32)
    requires
        is_negative(x),
        units(magnitude(x)) <= bias_units(),
    ensures
        spec_round(x) == 0,
{
    reveal(spec_round);
    let p = pow2(149);
    let m = magnitude(x);
    let u = units(m);
    let bias: u32 = 0x3eff_ffff;
    lemma_pow2_pos(149);
    lemma_pow2_pos(124);
    lemma_powers_near_one();
    lemma_small_unsigned();
    lemma_units_zero(0);
    let g = pow2(124);
    assert(0xff_ffff * g + g == 0x100_0000 * g) by (nonlinear_arith);
    assert(bias_units() < p);
    lemma_units_order(m, 0x3eff_ffff);
    assert(m <= 0x3eff_ffff);
    assert(magnitude(bias) == 0x3eff_ffff);
    let rest: nat = (bias_units() - u) as nat;
    assert(signed_units(x) + signed_units(bias) == rest);
    let y = rounded_sum(x, bias);
    let near = nearest_magnitude(rest, 1);
    if rest == 0 {
        assert(y == 0);
    } else {
        assert(units(0) * 1 <= rest && rest <= units(0x3eff_ffff) * 1);
        lemma_nearest_between(rest, 1, 0, 0x3eff_ffff);
        assert(y == with_sign(false, near));
    }
    let yb = magnitude(y);
    assert(yb <= 0x3eff_ffff);
    assert(!is_negative(y));
    lemma_sign_bit_arithmetic(y);
    assert(spec_sign_bit(y) == 0);
    assert(negated(0) == 0x8000_0000);
    assert(magnitude(0x8000_0000u32) == 0);
    lemma_units_zero(yb);
    lemma_nearest_exact(yb, 1);
    assert(units(yb) * 1 == units(yb));
    let w = rounded_difference(y, 0);
    assert(w == y);
    lemma_units_order(yb, 0x3eff_ffff);
    assert(units(yb) < p);
    assert(units(yb) <= 0x8000_0000 * p) by (nonlinear_arith)
        requires
            units(yb) < p,
            p > 0,
    ;
    let t = lemma_trunc_exact(y);
    assert(0 * p == 0) by (nonlinear_arith);
    assert((0 + 1) * p == p) by (nonlinear_arith);
    lemma_whole_part_between(units(yb), 0);
    lemma_units_zero(t);
    assert(t == 0);
    assert(spec_round(x) == spec_trunc(y));
}

/// A negative number from the half of its whole on: the sum with the bias
/// rounds into the whole of the number, and one more into the next. The
/// pair is the two magnitudes.
#[verifier::rlimit(50)]
pub proof fn lemma_biased_negative_from_half(m: nat, k: nat) -> (r: (nat, nat))
    requires
        m < 0x4b00_0000,
        k < 0x80_0000,
        k * pow2(149) + pow2(148) <= units(m) < (k + 1) * pow2(149),
    ensures
        r.0 == nearest_magnitude((units(m) - bias_units()) as nat, 1),
        units(m) > bias_units(),
        1 <= r.0 < 0x7f80_0000,
        r.1 == nearest_magnitude(units(r.0) + pow2(149), 1),
        (k + 1) * pow2(149) <= units(r.1) < (k + 2) * pow2(149),
{
    let p = pow2(149);
    let q = pow2(148);
    let g = pow2(124);
    let u = units(m);
    lemma_powers_near_one();
    lemma_pow2_pos(149);
    lemma_pow2_unfold(125);
    lemma2_to64();
    lemma_units_zero(0);
    assert(0xff_ffff * g + g == 0x100_0000 * g) by (nonlinear_arith);
    assert(bias_units() + g == q);
    assert((k + 1) * p == k * p + p) by (nonlinear_arith);
    assert((k + 2) * p == k * p + 2 * p) by (nonlinear_arith);
    assert(k * p >= 0) by (nonlinear_arith)
        requires
            p > 0,
    ;
    assert(k == 0 ==> k * p == 0) by (nonlinear_arith);
    assert(k >= 1 ==> k * p >= p) by (nonlinear_arith)
        requires
            p > 0,
    ;
    // the number is at least 2^-24 short of the next whole
    if m < 0x3f80_0000 {
        lemma_units_order(m, 0x3f80_0000);
        lemma_below_one_bound(m);
    } else {
        lemma_remainder_of_steps(m, k);
    }
    let a: nat = (u - bias_units()) as nat;
    assert(k * p + g <= a <= k * p + q);
    let t: nat = if k == 0 {
        0
    } else {
        lemma_whole_pattern(k)
    };
    let h = lemma_pattern_of(2 * k + 1, 148);
    assert((2 * k + 1) * q == k * p + q) by (nonlinear_arith)
        requires
            p == 2 * q,
    ;
    assert(units(t) * 1 <= a && a <= units(h) * 1);
    lemma_nearest_between(a, 1, t, h);
    let first = nearest_magnitude(a, 1);
    lemma_units_order(t, first);
    lemma_units_order(first, h);
    lemma_units_of_parts(0, 1);
    assert(units(1) == 1);
    assert(units(1) * 1 <= a);
    lemma_nearest_at_least(a, 1, 1);
    // one more taken off
    let b1 = lemma_whole_pattern(k + 1);
    if k + 2 > 0x80_0000 {
        lemma_units_of_parts(148, 0xff_ffff);
        assert(0xff_ffff * q == k * p + q) by (nonlinear_arith)
            requires
                k == 0x7f_ffff,
                p == 2 * q,
        ;
        lemma_units_order(0x4aff_ffff, m);
        assert(m == 0x4aff_ffff);
        assert(a == k * p + g);
        lemma_units_order(0x3f80_0000, t);
        lemma_rounds_to_at_most(a, t);
        assert(first == t);
    }
    let n2: nat = units(first) + p;
    let second = nearest_magnitude(n2, 1);
    if k + 2 <= 0x80_0000 {
        let h3 = lemma_pattern_of(2 * k + 3, 148);
        assert((2 * k + 3) * q == k * p + p + q) by (nonlinear_arith)
            requires
                p == 2 * q,
        ;
        assert(units(b1) * 1 <= n2 && n2 <= units(h3) * 1);
        lemma_nearest_between(n2, 1, b1, h3);
        lemma_units_order(b1, second);
        lemma_units_order(second, h3);
    } else {
        assert(n2 == units(b1) * 1);
        lemma_nearest_exact(b1, 1);
    }
    (first, second)
}

/// A negative number below the half of its whole that outweighs the bias:
/// the sum with the bias rounds into the whole before the number's, and one
/// more into the number's own. The pair is the two magnitudes.
#[verifier::rlimit(50)]
pub proof fn lemma_biased_negative_below_half(m: nat, k: nat) -> (r: (nat, nat))
    requires
        0x3f80_0000 <= m < 0x4b00_0000,
        1 <= k < 0x80_0000,
        k * pow2(149) < units(m) < k * pow2(149) + pow2(148),
    ensures
        r.0 == nearest_magnitude((units(m) - bias_units()) as nat, 1),
        units(m) > bias_units(),
        1 <= r.0 < 0x7f80_0000,
        r.1 == nearest_magnitude(units(r.0) + pow2(149), 1),
        k * pow2(149) <= units(r.1) < (k + 1) * pow2(149),
{
    let p = pow2(149);
    let q = pow2(148);
    let g = pow2(124);
    let u = units(m);
    lemma_powers_near_one();
    lemma_pow2_pos(149);
    lemma_pow2_pos(124);
    lemma2_to64();
    assert(0xff_ffff * g + g == 0x100_0000 * g) by (nonlinear_arith);
    assert(bias_units() + g == q);
    assert((k + 1) * p == k * p + p) by (nonlinear_arith);
    assert(k * p >= p) by (nonlinear_arith)
        requires
            k >= 1,
            p > 0,
    ;
    // the number in its own steps
    let c = lemma_remainder_in_own_steps(m, k);
    let sm = scale(m);
    let ps = pow2(sm);
    let e = pow2((149 - sm) as nat);
    let half = pow2((148 - sm) as nat);
    lemma_parts_of_bits(m);
    lemma_pow2_unfold((149 - sm) as nat);
    lemma_pow2_pos(sm);
    lemma_pow2_pos((148 - sm) as nat);
    assert(q == half * ps) by (nonlinear_arith)
        requires
            p == e * ps,
            e == 2 * half,
            p == 2 * q,
    ;
    assert(c < half) by (nonlinear_arith)
        requires
            c * ps < half * ps,
            ps > 0,
    ;
    assert(c * ps + ps <= half * ps) by (nonlinear_arith)
        requires
            c + 1 <= half,
            ps > 0,
    ;
    assert(ps <= q) by (nonlinear_arith)
        requires
            q == half * ps,
            half >= 1,
            ps > 0,
    ;
    lemma_pow2_monotonic(126, sm);
    lemma_pow2_unfold(126);
    lemma_pow2_unfold(125);
    assert(ps >= 4 * g);
    let a: nat = (u - bias_units()) as nat;
    assert(a <= k * p - ps + g);
    assert(a >= k * p - q);
    // the pattern one own step below the whole
    let ke: nat = k * e;
    assert(ke >= 2) by (nonlinear_arith)
        requires
            ke == k * e,
            k >= 1,
            e >= 2,
    ;
    assert(ke * ps == k * p) by (nonlinear_arith)
        requires
            ke == k * e,
            p == e * ps,
    ;
    let d: nat = (ke - 1) as nat;
    assert(d * ps == k * p - ps) by (nonlinear_arith)
        requires
            d == ke - 1,
            ke * ps == k * p,
    ;
    assert(d * pow2(23) >= 0x80_0000) by (nonlinear_arith)
        requires
            d >= 1,
            pow2(23) == 0x80_0000,
    ;
    let down = lemma_pattern_search(d, sm, 23);
    lemma_units_of_parts(125, 0x80_0000);
    lemma_pow2_adds(23, 125);
    assert(units(0x3f00_0000) == q);
    lemma_units_order(0x3f00_0000, down);
    assert(down >= 0x3f00_0000);
    assert(scale(down) >= 125);
    if scale(down) == 125 {
        lemma_parts_of_bits(down);
        let sd = significand(down);
        let z = pow2((sm - 126) as nat);
        let t125 = pow2(125);
        lemma_pow2_adds((sm - 126) as nat, 126);
        lemma_pow2_pos(125);
        assert(sd == 2 * (d * z)) by (nonlinear_arith)
            requires
                sd * t125 == d * ps,
                ps == z * (2 * t125),
                t125 > 0,
        ;
        assert(down % 2 == 0);
    }
    lemma_rounds_to_at_most(a, down);
    let first = nearest_magnitude(a, 1);
    lemma_units_order(first, down);
    let hm = lemma_pattern_of((2 * k - 1) as nat, 148);
    assert((2 * k - 1) * q == k * p - q) by (nonlinear_arith)
        requires
            p == 2 * q,
    ;
    assert(units(hm) * 1 <= a);
    lemma_nearest_at_least(a, 1, hm);
    lemma_units_order(hm, first);
    // one more taken off stays an own step below the next whole
    let n2: nat = units(first) + p;
    let second = nearest_magnitude(n2, 1);
    let r24 = pow2((sm - 125) as nat);
    lemma_pow2_adds((sm - 125) as nat, (149 - sm) as nat);
    assert(r24 * e == 0x100_0000);
    assert(k * e + c < 0x100_0000);
    assert(k < r24) by (nonlinear_arith)
        requires
            k * e < r24 * e,
            e > 0,
    ;
    let ke1: nat = (k + 1) * e;
    assert(ke1 <= 0x100_0000) by (nonlinear_arith)
        requires
            ke1 == (k + 1) * e,
            k + 1 <= r24,
            r24 * e == 0x100_0000,
            e > 0,
    ;
    assert(ke1 * ps == k * p + p) by (nonlinear_arith)
        requires
            ke1 == (k + 1) * e,
            p == e * ps,
    ;
    assert(ke1 >= 2) by (nonlinear_arith)
        requires
            ke1 == (k + 1) * e,
            e >= 2,
    ;
    let d1: nat = (ke1 - 1) as nat;
    assert(d1 * ps == k * p + p - ps) by (nonlinear_arith)
        requires
            d1 == ke1 - 1,
            ke1 * ps == k * p + p,
    ;
    assert(d1 * pow2(23) >= 0x80_0000) by (nonlinear_arith)
        requires
            d1 >= 1,
            pow2(23) == 0x80_0000,
    ;
    let top = lemma_pattern_search(d1, sm, 23);
    let hk = lemma_pattern_of(2 * k + 1, 148);
    assert((2 * k + 1) * q == k * p + q) by (nonlinear_arith)
        requires
            p == 2 * q,
    ;
    assert(units(hk) * 1 <= n2 && n2 <= units(top) * 1);
    lemma_nearest_between(n2, 1, hk, top);
    lemma_units_order(hk, second);
    lemma_units_order(second, top);
    (first, second)
}

/// Rounding a negative number that is not whole gives the whole number
/// nearest to it, the lower one from the half on.
#[verifier::rlimit(50)]
pub proof fn lemma_round_of_negative(x: u32)
    requires
        is_finite(x),
        is_negative(x),
        units(magnitude(x)) % pow2(149) != 0,
    ensures
        !is_nan(spec_round(x)),
        signed_units(spec_round(x)) == -floor_units((units(magnitude(x)) + pow2(148)) as int),
{
    let p = pow2(149);
    let q = pow2(148);
    let g = pow2(124);
    let m = magnitude(x);
    let u = units(m);
    let bias: u32 = 0x3eff_ffff;
    lemma_powers_near_one();
    lemma_pow2_pos(149);
    lemma_pow2_pos(124);
    lemma_units_zero(0);
    assert(0xff_ffff * g + g == 0x100_0000 * g) by (nonlinear_arith);
    assert(bias_units() + g == q);
    let k = lemma_wholes_around(m);
    if m >= 0x4b00_0000 {
        lemma_large_is_whole(m);
    }
    assert((k + 1) * p == k * p + p) by (nonlinear_arith);
    assert(k == 0 ==> k * p == 0) by (nonlinear_arith);
    assert(k >= 1 ==> k * p >= p) by (nonlinear_arith)
        requires
            p > 0,
    ;
    if u <= bias_units() {
        lemma_round_of_small_negative(x);
        assert(k == 0);
        lemma_floor_units((u + q) as int, 0, (u + q) as int);
        assert(signed_units(0u32) == 0);
    } else {
        let low = u < k * p + q;
        let j: nat = if low {
            k
        } else {
            k + 1
        };
        if low && k == 0 {
            // no pattern lies between the bias and one half
            lemma_units_of_parts(125, 0x80_0000);
            lemma_pow2_adds(23, 125);
            lemma2_to64();
            lemma_units_order(0x3eff_ffff, m);
            lemma_units_order(m, 0x3f00_0000);
            assert(false);
        }
        if low {
            lemma_units_order(0x3f80_0000, m);
        }
        let (first, second) = if low {
            lemma_biased_negative_below_half(m, k)
        } else {
            lemma_biased_negative_from_half(m, k)
        };
        assert(magnitude(bias) == 0x3eff_ffff);
        assert(signed_units(x) + signed_units(bias) == -((u - bias_units()) as int));
        assert(rounded_sum(x, bias) == with_sign(true, first));
        assert((j + 1) * p == j * p + p) by (nonlinear_arith);
        lemma_round_after_bias(x, first, j);
        if low {
            lemma_floor_units((u + q) as int, j as int, u - k * p + q);
        } else {
            lemma_floor_units((u + q) as int, j as int, u - k * p - q);
        }
    }
}

} // verus!
