//! The power of two of the logarithm, which brings a number of moderate
//! size back but for its last few bits.

use vstd::prelude::*;
use vstd::arithmetic::power2::{
    pow2,
    lemma_pow2_pos,
    lemma_pow2_unfold,
    lemma_pow2_adds,
    lemma2_to64,
};
use crate::encoding::{
    is_negative,
    lemma_parts_of_bits,
    lemma_units_of_parts,
    lemma_units_order,
    lemma_units_step,
    lemma_units_zero,
    magnitude,
    scale,
    signed_units,
    significand,
    units,
    with_sign,
};
use crate::nearest::{
    lemma_nearest_exact,
    lemma_nearest_from_parts,
    lemma_pow2_monotonic,
    nearest_magnitude,
};
use crate::arith::{
    as_unsigned,
    negated,
    of_unsigned,
    rounded_difference,
    rounded_product,
    rounded_sum,
    whole_part,
};
use crate::exponential::{spec_exp2, spec_log2};
use crate::whole::lemma_pattern_search;

verus! {

/// From one magnitude to a larger one, what they stand for grows by no more
/// than one step of the larger for each pattern between them.
pub proof fn lemma_units_gap(a: nat, b: nat)
    requires
        a <= b,
    ensures
        units(b) - units(a) <= (b - a) * pow2(scale(b)),
    decreases b - a,
{
    if a < b {
        let c = (b - 1) as nat;
        lemma_units_gap(a, c);
        lemma_units_step(c);
        lemma_pow2_monotonic(scale(c), scale(b));
        let below = pow2(scale(c));
        let above = pow2(scale(b));
        assert((c - a) * below + below <= (b - a) * above) by (nonlinear_arith)
            requires
                below <= above,
                a <= c,
                b == c + 1,
        ;
    } else {
        assert((b - a) * pow2(scale(b)) == 0) by (nonlinear_arith)
            requires
                b == a,
        ;
    }
}

/// Two normal magnitudes within 128 patterns of each other stand for
/// numbers within one part in a hundred of each other.
#[verifier::rlimit(50)]
pub proof fn lemma_close_patterns(a: nat, b: nat)
    requires
        0x80_0000 <= a,
        0x80_0000 <= b,
        a <= b + 128,
        b <= a + 128,
    ensures
        100 * (units(b) - units(a)) <= units(a),
        100 * (units(a) - units(b)) <= units(a),
{
    lemma_parts_of_bits(a);
    lemma_parts_of_bits(b);
    let pa = pow2(scale(a));
    let pb = pow2(scale(b));
    lemma_pow2_pos(scale(a));
    lemma_pow2_pos(scale(b));
    assert(units(a) >= 0x80_0000 * pa) by (nonlinear_arith)
        requires
            units(a) == significand(a) * pa,
            significand(a) >= 0x80_0000,
    ;
    if a <= b {
        lemma_units_gap(a, b);
        lemma_units_order(a, b);
        assert(scale(b) <= scale(a) + 1);
        lemma_pow2_monotonic(scale(b), scale(a) + 1);
        lemma_pow2_unfold(scale(a) + 1);
        assert((b - a) * pb <= 128 * (2 * pa)) by (nonlinear_arith)
            requires
                b - a <= 128,
                0 <= b - a,
                pb <= 2 * pa,
                pa > 0,
        ;
    } else {
        lemma_units_gap(b, a);
        lemma_units_order(b, a);
        assert((a - b) * pa <= 128 * pa) by (nonlinear_arith)
            requires
                a - b <= 128,
                pa > 0,
        ;
    }
}

/// What an integer of thirty or thirty-one bits converts to: its leading
/// twenty-four bits, rounded, at the scale of its last kept bit. The result
/// is `f` steps of `w` wholes, within one step of the integer.
#[verifier::rlimit(50)]
pub proof fn lemma_unsigned_pattern(b: u32) -> (r: (nat, nat))
    requires
        0x2000_0000 <= b < 0x8000_0000,
    ensures
        r.1 == 64 || r.1 == 128,
        0x80_0000 <= r.0 <= 0x100_0000,
        r.0 * r.1 <= b + r.1,
        b <= r.0 * r.1 + r.1,
        r.0 * r.1 < 0x1_0000_0000,
        units(magnitude(of_unsigned(b))) == (r.0 * r.1) * pow2(149),
        !is_negative(of_unsigned(b)),
        magnitude(of_unsigned(b)) < 0x7f80_0000,
        r.1 == 64 ==> units(magnitude(of_unsigned(b))) == r.0 * pow2(155),
        r.1 == 128 ==> units(magnitude(of_unsigned(b))) == r.0 * pow2(156),
{
    let p = pow2(149);
    lemma2_to64();
    lemma_pow2_pos(149);
    lemma_pow2_adds(6, 149);
    lemma_pow2_adds(7, 149);
    let w: nat = if b < 0x4000_0000 {
        64
    } else {
        128
    };
    let g: nat = if b < 0x4000_0000 {
        6
    } else {
        7
    };
    let s: nat = 149 + g;
    let f0: nat = b as nat / w;
    let n: nat = b as nat * p;
    let step: nat = pow2(s) * 1 * 1;
    assert(pow2(s) == w * p);
    assert(step == w * p) by (nonlinear_arith)
        requires
            step == pow2(s) * 1 * 1,
            pow2(s) == w * p,
    ;
    assert(f0 * step <= n * 1 && n * 1 < (f0 + 1) * step) by (nonlinear_arith)
        requires
            step == w * p,
            n == b as nat * p,
            f0 * w <= b,
            b < (f0 + 1) * w,
            p > 0,
    ;
    lemma_nearest_from_parts(n, 1, 1, s, f0, step);
    let near = nearest_magnitude(n, 1);
    let f: nat = (near - s * 0x80_0000) as nat;
    assert(f == f0 || f == f0 + 1);
    lemma_units_of_parts(s, f);
    assert(f * pow2(s) == (f * w) * p) by (nonlinear_arith)
        requires
            pow2(s) == w * p,
    ;
    assert(f * w <= b + w && b <= f * w + w && f * w < 0x1_0000_0000) by (nonlinear_arith)
        requires
            f == f0 || f == f0 + 1,
            f0 * w <= b,
            b < (f0 + 1) * w,
            b < 0x8000_0000,
            w <= 128,
    ;
    assert(of_unsigned(b) == with_sign(false, near));
    (f, w)
}

/// A product with two to the minus twenty-third or with two to the
/// twenty-third moves a pattern by twenty-three exponents and changes
/// nothing else.
#[verifier::rlimit(50)]
pub proof fn lemma_scale_by_field(f: nat, s: nat)
    requires
        0x80_0000 <= f <= 0x100_0000,
        24 <= s <= 200,
    ensures
        rounded_product((s * 0x80_0000 + f) as u32, 0x3400_0000) == ((s - 23) * 0x80_0000 + f) as u32,
        rounded_product(((s - 23) * 0x80_0000 + f) as u32, 0x4b00_0000) == (s * 0x80_0000 + f) as u32,
{
    let p = pow2(149);
    let hi: nat = s * 0x80_0000 + f;
    let lo: nat = ((s - 23) * 0x80_0000 + f) as nat;
    lemma2_to64();
    lemma_pow2_pos(149);
    lemma_units_of_parts(s, f);
    lemma_units_of_parts((s - 23) as nat, f);
    lemma_units_of_parts(103, 0x80_0000);
    lemma_units_of_parts(149, 0x80_0000);
    lemma_pow2_adds(23, 103);
    lemma_pow2_adds(23, 126);
    lemma_pow2_adds(23, (s - 23) as nat);
    assert(units(0x3400_0000) == pow2(126));
    let down = pow2(126);
    let ps = pow2(s);
    let pl = pow2((s - 23) as nat);
    assert(hi < 0x7f80_0000 && lo < 0x7f80_0000);
    assert(magnitude(hi as u32) == hi);
    assert(magnitude(lo as u32) == lo);
    assert(magnitude(0x3400_0000u32) == 0x3400_0000);
    assert(magnitude(0x4b00_0000u32) == 0x4b00_0000);
    lemma_nearest_exact(lo, p);
    lemma_nearest_exact(hi, p);
    assert((f * ps) * down == (f * pl) * p) by (nonlinear_arith)
        requires
            ps == 0x80_0000 * pl,
            p == 0x80_0000 * down,
    ;
    assert((f * pl) * (0x80_0000 * p) == (f * ps) * p) by (nonlinear_arith)
        requires
            ps == 0x80_0000 * pl,
    ;
}

/// The difference between a count of 2^-17 near 127 and the bias, and the
/// sum that undoes it, are both exact.
#[verifier::rlimit(50)]
pub proof fn lemma_bias_round_trip(t: u32, c: nat)
    requires
        t < 0x7f80_0000,
        units(t as nat) == c * pow2(132),
        0xdd_e2a9 <= c <= 0x11d_e2a9,
    ensures
        rounded_sum(rounded_difference(t, 0x42fd_e2a9), 0x42fd_e2a9) == t,
{
    let q = pow2(132);
    let bias: u32 = 0x42fd_e2a9;
    lemma2_to64();
    lemma_pow2_pos(132);
    lemma_units_of_parts(132, 0xfd_e2a9);
    lemma_units_zero(0);
    assert(magnitude(bias) == 0x42fd_e2a9);
    assert(negated(bias) == 0xc2fd_e2a9);
    assert(magnitude(0xc2fd_e2a9u32) == 0x42fd_e2a9);
    assert(units(0x42fd_e2a9) == 0xfd_e2a9 * q);
    assert(magnitude(t) == t);
    lemma_nearest_exact(t as nat, 1);
    assert(units(t as nat) * 1 == c * q);
    let l = rounded_difference(t, bias);
    if c == 0xfd_e2a9 {
        assert(signed_units(t) + signed_units(0xc2fd_e2a9) == 0);
        assert(l == 0);
        assert(signed_units(l) + signed_units(bias) == c * q);
    } else {
        let d: nat = if c > 0xfd_e2a9 {
            (c - 0xfd_e2a9) as nat
        } else {
            (0xfd_e2a9 - c) as nat
        };
        assert(d * pow2(23) >= 0x80_0000) by (nonlinear_arith)
            requires
                d >= 1,
                pow2(23) == 0x80_0000,
        ;
        let lb = lemma_pattern_search(d, 132, 23);
        lemma_nearest_exact(lb, 1);
        assert(units(lb) * 1 == d * q);
        assert(d * q > 0) by (nonlinear_arith)
            requires
                d >= 1,
                q > 0,
        ;
        if c > 0xfd_e2a9 {
            assert(d * q == c * q - 0xfd_e2a9 * q) by (nonlinear_arith)
                requires
                    d == c - 0xfd_e2a9,
            ;
            assert(signed_units(t) + signed_units(0xc2fd_e2a9) == d * q);
            assert(l == with_sign(false, lb));
            assert(magnitude(l) == lb);
            assert(signed_units(l) + signed_units(bias) == c * q);
        } else {
            assert(d * q == 0xfd_e2a9 * q - c * q) by (nonlinear_arith)
                requires
                    d == 0xfd_e2a9 - c,
            ;
            assert(signed_units(t) + signed_units(0xc2fd_e2a9) == -(d * q));
            assert(l == with_sign(true, lb));
            assert(magnitude(l) == lb);
            assert(signed_units(l) + signed_units(bias) == c * q);
        }
    }
    assert(c * q > 0) by (nonlinear_arith)
        requires
            c >= 1,
            q > 0,
    ;
}

/// The power of two of the logarithm of a number from 2^-10 to 2^10 is
/// the number's pattern, read as an integer, rounded to twenty-four
/// leading bits: every step between is exact but the first.
#[verifier::rlimit(50)]
pub proof fn lemma_exp2_of_log2(x: u32)
    requires
        0x3a80_0000 <= x <= 0x4480_0000,
    ensures
        spec_exp2(spec_log2(x)) == as_unsigned(of_unsigned(x)),
        spec_exp2(spec_log2(x)) <= x + 128,
        x <= spec_exp2(spec_log2(x)) + 128,
        spec_exp2(spec_log2(x)) >= 0x80_0000,
{
    reveal(spec_exp2);
    reveal(spec_log2);
    let p = pow2(149);
    lemma2_to64();
    lemma_pow2_pos(149);
    let (f, w) = lemma_unsigned_pattern(x);
    let z = of_unsigned(x);
    let s: nat = if w == 64 {
        155
    } else {
        156
    };
    let zb: nat = s * 0x80_0000 + f;
    lemma_units_of_parts(s, f);
    lemma_units_order(magnitude(z), zb);
    assert(magnitude(z) == zb);
    assert(z == zb as u32);
    lemma_scale_by_field(f, s);
    let tb: nat = ((s - 23) * 0x80_0000 + f) as nat;
    let t = tb as u32;
    assert(rounded_product(z, 0x3400_0000) == t);
    assert(rounded_product(t, 0x4b00_0000) == z);
    // the scaled pattern as a count of 2^-17
    lemma_units_of_parts((s - 23) as nat, f);
    lemma_pow2_unfold(133);
    let c: nat = if w == 64 {
        f
    } else {
        2 * f
    };
    let q = pow2(132);
    assert(f * (2 * q) == (2 * f) * q) by (nonlinear_arith);
    assert(units(tb) == c * q);
    assert(c * 64 == f * w) by (nonlinear_arith)
        requires
            w == 64 ==> c == f,
            w != 64 ==> w == 128 && c == 2 * f,
    ;
    assert(0xdd_e2a9 <= c <= 0x11d_e2a9);
    lemma_bias_round_trip(t, c);
    assert(spec_log2(x) == rounded_difference(t, 0x42fd_e2a9));
    assert(spec_exp2(spec_log2(x)) == as_unsigned(z));
    // the whole part of the rounded pattern
    assert(units(zb) == (f * w) * p);
    vstd::arithmetic::div_mod::lemma_div_by_multiple((f * w) as int, p as int);
    assert(whole_part(z) == f * w);
    assert(as_unsigned(z) == f * w);
    assert(f * w >= 0x80_0000 * 64) by (nonlinear_arith)
        requires
            f >= 0x80_0000,
            w >= 64,
    ;
}

} // verus!
