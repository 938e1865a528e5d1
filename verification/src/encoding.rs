//! The binary32 layout and the number each bit pattern stands for.
//!
//! A finite pattern with magnitude bits `b` stands for `units(b)` times
//! 2^-149, negated when the sign bit is set. The infinite magnitude is given
//! `units` of 2^277, the first power of two past every finite value, so that
//! one order covers finite and infinite patterns alike.

use vstd::prelude::*;
use vstd::arithmetic::power2::{pow2, lemma_pow2_pos, lemma_pow2_unfold, lemma2_to64};

verus! {

/// Positive infinity.
pub const INFINITY: u32 = 0x7f80_0000;

/// One.
pub const ONE: u32 = 0x3f80_0000;

/// The quiet not-a-number pattern that arithmetic produces.
pub const CANONICAL_NAN: u32 = 0x7fc0_0000;

/// The magnitude bits of a pattern: the pattern without its sign bit.
pub open spec fn magnitude(x: u32) -> nat {
    (x % 0x8000_0000) as nat
}

/// Whether the sign bit is set.
pub open spec fn is_negative(x: u32) -> bool {
    x >= 0x8000_0000
}

/// Whether the pattern is not a number.
pub open spec fn is_nan(x: u32) -> bool {
    magnitude(x) > 0x7f80_0000
}

/// Whether the pattern is an infinity.
pub open spec fn is_infinite(x: u32) -> bool {
    magnitude(x) == 0x7f80_0000
}

/// Whether the pattern is a zero, subnormal or normal number.
pub open spec fn is_finite(x: u32) -> bool {
    magnitude(x) < 0x7f80_0000
}

/// Whether the pattern is one of the two zeros.
pub open spec fn is_zero(x: u32) -> bool {
    magnitude(x) == 0
}

/// The integer significand of magnitude bits, hidden bit included.
pub open spec fn significand(b: nat) -> nat {
    if b < 0x80_0000 {
        b
    } else {
        b % 0x80_0000 + 0x80_0000
    }
}

/// The power of two, counted from 2^-149, that the significand is scaled by.
pub open spec fn scale(b: nat) -> nat {
    if b < 0x80_0000 {
        0
    } else {
        (b / 0x80_0000 - 1) as nat
    }
}

/// The magnitude that magnitude bits stand for, in units of 2^-149.
pub open spec fn units(b: nat) -> nat {
    significand(b) * pow2(scale(b))
}

/// The signed number that a pattern stands for, in units of 2^-149.
pub open spec fn signed_units(x: u32) -> int {
    if is_negative(x) {
        -(units(magnitude(x)) as int)
    } else {
        units(magnitude(x)) as int
    }
}

/// The pattern with the given sign and magnitude bits.
pub open spec fn with_sign(negative: bool, b: nat) -> u32 {
    if negative {
        (b + 0x8000_0000) as u32
    } else {
        b as u32
    }
}

/// Magnitude bits written as a scale and a significand stand for the
/// significand times two to the scale.
pub proof fn lemma_units_of_parts(s: nat, f: nat)
    requires
        f <= 0x100_0000,
        s > 0 ==> f >= 0x80_0000,
    ensures
        units(s * 0x80_0000 + f) == f * pow2(s),
{
    let b = s * 0x80_0000 + f;
    lemma2_to64();
    if f < 0x80_0000 {
        assert(s == 0);
        assert(f * pow2(0) == f);
    } else if f < 0x100_0000 {
        assert(b / 0x80_0000 == s + 1);
        assert(b % 0x80_0000 == f - 0x80_0000);
        assert(scale(b) == s);
        assert(significand(b) == f);
    } else {
        assert(b == (s + 2) * 0x80_0000);
        assert(b / 0x80_0000 == s + 2);
        assert(b % 0x80_0000 == 0);
        assert(scale(b) == s + 1);
        assert(significand(b) == 0x80_0000);
        lemma_pow2_unfold(s + 1);
        let p = pow2(s);
        assert(0x80_0000 * (2 * p) == 0x100_0000 * p) by (nonlinear_arith);
    }
}

/// Every magnitude splits into its scale and its significand.
pub proof fn lemma_parts_of_bits(b: nat)
    ensures
        b == scale(b) * 0x80_0000 + significand(b),
        significand(b) < 0x100_0000,
        b >= 0x80_0000 ==> significand(b) >= 0x80_0000,
        b < 0x80_0000 ==> scale(b) == 0,
{
}

/// The next magnitude stands for one more significand step.
pub proof fn lemma_units_step(b: nat)
    ensures
        units(b + 1) == units(b) + pow2(scale(b)),
        units(b) < units(b + 1),
{
    lemma_parts_of_bits(b);
    let s = scale(b);
    let f = significand(b);
    lemma_units_of_parts(s, f + 1);
    lemma_pow2_pos(s);
    let p = pow2(s);
    assert((f + 1) * p == f * p + p) by (nonlinear_arith);
}

/// Larger magnitude bits stand for larger magnitudes.
pub proof fn lemma_units_increasing(a: nat, b: nat)
    requires
        a < b,
    ensures
        units(a) < units(b),
    decreases b - a,
{
    lemma_units_step(a);
    if a + 1 < b {
        lemma_units_increasing(a + 1, b);
    }
}

/// One exponent up, a normal magnitude stands for twice as much, at a scale
/// one higher.
pub proof fn lemma_units_doubled(m: nat)
    requires
        m >= 0x80_0000,
    ensures
        units(m + 0x80_0000) == 2 * units(m),
        scale(m + 0x80_0000) == scale(m) + 1,
{
    lemma_parts_of_bits(m);
    let s = scale(m);
    let f = significand(m);
    lemma_units_of_parts(s + 1, f);
    assert(m + 0x80_0000 == (s + 1) * 0x80_0000 + f);
    lemma_pow2_unfold(s + 1);
    let ps = pow2(s);
    assert(f * (2 * ps) == 2 * (f * ps)) by (nonlinear_arith);
}

/// Only the zero magnitude stands for zero.
pub proof fn lemma_units_zero(b: nat)
    ensures
        units(0) == 0,
        units(b) == 0 <==> b == 0,
{
    let p = pow2(0);
    assert(units(0) == 0 * p);
    assert(0 * p == 0) by (nonlinear_arith);
    if b > 0 {
        lemma_units_increasing(0, b);
    }
}

/// Magnitudes compare as their bits do.
pub proof fn lemma_units_order(a: nat, b: nat)
    ensures
        a < b <==> units(a) < units(b),
        a == b <==> units(a) == units(b),
{
    if a < b {
        lemma_units_increasing(a, b);
    } else if b < a {
        lemma_units_increasing(b, a);
    }
}

} // verus!
