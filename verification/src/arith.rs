//! Correctly rounded arithmetic on binary32 bit patterns.
//!
//! Each operation is stated over the exact mathematical result: the operands
//! are read as integers in units of 2^-149, the result is formed exactly, and
//! the nearest representable magnitude is taken. Every operation that has no
//! number to give answers with the canonical quiet NaN.

use vstd::prelude::*;
use vstd::arithmetic::power2::{pow2, lemma_pow2_pos, lemma_pow2_adds, lemma2_to64};
use vstd::arithmetic::div_mod::{lemma_div_by_multiple, lemma_div_multiples_vanish_quotient};
use vstd::bits::lemma_u64_shl_is_mul;
use crate::encoding::{
    CANONICAL_NAN,
    INFINITY,
    is_infinite,
    is_nan,
    is_negative,
    is_zero,
    lemma_units_order,
    lemma_units_zero,
    magnitude,
    scale,
    signed_units,
    significand,
    units,
    with_sign,
};
use crate::nearest::{
    brackets,
    lemma_nearest_exact,
    lemma_pow2_monotonic,
    power_of_two,
    down,
    exactly,
    nearest_magnitude,
    round_to_nearest,
    up,
};

verus! {

/// The product of two patterns, rounded to nearest.
pub open spec fn rounded_product(a: u32, b: u32) -> u32 {
    let negative = is_negative(a) != is_negative(b);
    if is_nan(a) || is_nan(b) {
        CANONICAL_NAN
    } else if is_infinite(a) || is_infinite(b) {
        if is_zero(a) || is_zero(b) {
            CANONICAL_NAN
        } else {
            with_sign(negative, 0x7f80_0000)
        }
    } else {
        with_sign(
            negative,
            nearest_magnitude(units(magnitude(a)) * units(magnitude(b)), pow2(149)),
        )
    }
}

/// The quotient of two patterns, rounded to nearest.
pub open spec fn rounded_quotient(a: u32, b: u32) -> u32 {
    let negative = is_negative(a) != is_negative(b);
    if is_nan(a) || is_nan(b) {
        CANONICAL_NAN
    } else if is_infinite(a) {
        if is_infinite(b) {
            CANONICAL_NAN
        } else {
            with_sign(negative, 0x7f80_0000)
        }
    } else if is_infinite(b) {
        with_sign(negative, 0)
    } else if is_zero(b) {
        if is_zero(a) {
            CANONICAL_NAN
        } else {
            with_sign(negative, 0x7f80_0000)
        }
    } else {
        with_sign(
            negative,
            nearest_magnitude(units(magnitude(a)) * pow2(149), units(magnitude(b))),
        )
    }
}

/// The sum of two patterns, rounded to nearest. An exact zero is positive
/// unless both operands are negative.
pub open spec fn rounded_sum(a: u32, b: u32) -> u32 {
    if is_nan(a) || is_nan(b) {
        CANONICAL_NAN
    } else if is_infinite(a) {
        if is_infinite(b) && is_negative(a) != is_negative(b) {
            CANONICAL_NAN
        } else {
            a
        }
    } else if is_infinite(b) {
        b
    } else {
        let total = signed_units(a) + signed_units(b);
        if total == 0 {
            with_sign(is_negative(a) && is_negative(b), 0)
        } else if total < 0 {
            with_sign(true, nearest_magnitude((-total) as nat, 1))
        } else {
            with_sign(false, nearest_magnitude(total as nat, 1))
        }
    }
}

/// The difference of two patterns, rounded to nearest.
pub open spec fn rounded_difference(a: u32, b: u32) -> u32 {
    rounded_sum(a, negated(b))
}

/// The whole part of the number that a pattern stands for: the number with
/// its fraction dropped, which rounds toward zero.
pub open spec fn whole_part(x: u32) -> int {
    let t = (units(magnitude(x)) / pow2(149)) as int;
    if is_negative(x) {
        -t
    } else {
        t
    }
}

/// The signed integer that a pattern converts to: its whole part, held to
/// the range of `i32`, and zero for a NaN.
pub open spec fn as_signed(x: u32) -> i32 {
    if is_nan(x) {
        0
    } else if whole_part(x) > i32::MAX {
        i32::MAX
    } else if whole_part(x) < i32::MIN {
        i32::MIN
    } else {
        whole_part(x) as i32
    }
}

/// The unsigned integer that a pattern converts to: its whole part, held to
/// the range of `u32`, and zero for a NaN.
pub open spec fn as_unsigned(x: u32) -> u32 {
    if is_nan(x) {
        0
    } else if whole_part(x) > 0xffff_ffff {
        0xffff_ffff
    } else if whole_part(x) < 0 {
        0
    } else {
        whole_part(x) as u32
    }
}

/// The pattern nearest to a signed integer.
pub open spec fn of_signed(i: i32) -> u32 {
    if i < 0 {
        with_sign(true, nearest_magnitude(((-i) * pow2(149)) as nat, 1))
    } else {
        with_sign(false, nearest_magnitude((i * pow2(149)) as nat, 1))
    }
}

/// The pattern nearest to an unsigned integer.
pub open spec fn of_unsigned(u: u32) -> u32 {
    with_sign(false, nearest_magnitude(u as nat * pow2(149), 1))
}

/// Whether the first pattern stands for a smaller number than the second.
/// Nothing compares with a NaN, and the two zeros are equal.
pub open spec fn less_than(a: u32, b: u32) -> bool {
    !is_nan(a) && !is_nan(b) && signed_units(a) < signed_units(b)
}

/// Whether the first pattern stands for a number that is not above the
/// second. Nothing compares with a NaN.
pub open spec fn at_most(a: u32, b: u32) -> bool {
    !is_nan(a) && !is_nan(b) && signed_units(a) <= signed_units(b)
}

/// Whether two patterns stand for the same number. The two zeros do.
pub open spec fn same_number(a: u32, b: u32) -> bool {
    !is_nan(a) && !is_nan(b) && signed_units(a) == signed_units(b)
}

/// The pattern with its sign bit flipped.
pub open spec fn negated(x: u32) -> u32 {
    if x >= 0x8000_0000 {
        (x - 0x8000_0000) as u32
    } else {
        (x + 0x8000_0000) as u32
    }
}

/// An exact ratio is bracketed by its own integer part.
pub proof fn lemma_exact_brackets(m: nat, k: int, n: nat, d: nat)
    requires
        d > 0,
        exactly(m, k, n, d),
    ensures
        brackets(m, k, n, d),
{
    if k >= 0 {
        lemma_pow2_pos(k as nat);
    }
    let x = up(k) * d;
    assert(x > 0) by (nonlinear_arith)
        requires
            x == up(k) * d,
            up(k) > 0,
            d > 0,
    ;
    assert(m * x < (m + 1) * x) by (nonlinear_arith)
        requires
            x > 0,
    ;
}

/// Splits magnitude bits into significand and scale.
pub fn split(b: u32) -> (p: (u32, u32))
    ensures
        p.0 == significand(b as nat),
        p.1 == scale(b as nat),
        p.0 < 0x100_0000,
        p.1 <= 510,
        b >= 0x80_0000 ==> p.0 >= 0x80_0000,
        b < 0x7f80_0000 ==> p.1 <= 253,
        b == 0 <==> p.0 == 0,
{
    if b < 0x80_0000 {
        (b, 0)
    } else {
        (b % 0x80_0000 + 0x80_0000, b / 0x80_0000 - 1)
    }
}

/// Puts a sign on magnitude bits.
pub fn signed(negative: bool, b: u32) -> (r: u32)
    requires
        b <= 0x7fff_ffff,
    ensures
        r == with_sign(negative, b as nat),
        magnitude(r) == b,
        is_negative(r) == negative,
{
    if negative {
        b + 0x8000_0000
    } else {
        b
    }
}

/// Flips the sign bit.
#[verifier::when_used_as_spec(negated)]
pub fn negate(x: u32) -> (r: u32)
    ensures
        r == negated(x),
        magnitude(r) == magnitude(x),
        is_negative(r) != is_negative(x),
{
    if x >= 0x8000_0000 {
        x - 0x8000_0000
    } else {
        x + 0x8000_0000
    }
}

/// Multiplies two patterns and rounds to nearest.
#[verifier::when_used_as_spec(rounded_product)]
#[verifier::rlimit(50)]
pub fn times(a: u32, b: u32) -> (r: u32)
    ensures
        r == rounded_product(a, b),
{
    let ma: u32 = a % 0x8000_0000;
    let mb: u32 = b % 0x8000_0000;
    let negative: bool = (a >= 0x8000_0000) != (b >= 0x8000_0000);
    if ma > 0x7f80_0000 || mb > 0x7f80_0000 {
        return CANONICAL_NAN;
    }
    if ma == 0x7f80_0000 || mb == 0x7f80_0000 {
        if ma == 0 || mb == 0 {
            return CANONICAL_NAN;
        }
        return signed(negative, INFINITY);
    }
    let (fa, sa) = split(ma);
    let (fb, sb) = split(mb);
    assert((fa as u128) * (fb as u128) < 0x1_0000_0000_0000) by (nonlinear_arith)
        requires
            fa < 0x100_0000,
            fb < 0x100_0000,
    ;
    let m: u128 = (fa as u128) * (fb as u128);
    let k: i32 = (sa as i32) + (sb as i32) - 149;
    let ghost n: nat = units(ma as nat) * units(mb as nat);
    let ghost d: nat = pow2(149);
    proof {
        let pa = pow2(sa as nat);
        let pb = pow2(sb as nat);
        let u = up(k as int);
        let w = down(k as int);
        lemma_pow2_pos(149);
        let pab = pow2((sa + sb) as nat);
        lemma_pow2_adds(sa as nat, sb as nat);
        assert(pab == pa * pb);
        if k >= 0 {
            lemma_pow2_adds(k as nat, 149);
            assert(u * d == pab);
            assert(w == 1);
        } else {
            lemma_pow2_adds((sa + sb) as nat, (-k) as nat);
            assert(pab * w == d);
            assert(u == 1);
        }
        assert(pa * pb * w == u * d) by (nonlinear_arith)
            requires
                pab == pa * pb,
                k >= 0 ==> u * d == pab && w == 1,
                k < 0 ==> pab * w == d && u == 1,
        ;
        assert(n * w == m * (u * d)) by (nonlinear_arith)
            requires
                n == (fa * pa) * (fb * pb),
                m == fa * fb,
                pa * pb * w == u * d,
        ;
        lemma_exact_brackets(m as nat, k as int, n, d);
    }
    let r = round_to_nearest(m, k, false, Ghost(n), Ghost(d));
    signed(negative, r)
}

/// Divides the first pattern by the second and rounds to nearest.
#[verifier::when_used_as_spec(rounded_quotient)]
#[verifier::rlimit(50)]
pub fn divide(a: u32, b: u32) -> (r: u32)
    ensures
        r == rounded_quotient(a, b),
{
    let ma: u32 = a % 0x8000_0000;
    let mb: u32 = b % 0x8000_0000;
    let negative: bool = (a >= 0x8000_0000) != (b >= 0x8000_0000);
    if ma > 0x7f80_0000 || mb > 0x7f80_0000 {
        return CANONICAL_NAN;
    }
    if ma == 0x7f80_0000 {
        if mb == 0x7f80_0000 {
            return CANONICAL_NAN;
        }
        return signed(negative, INFINITY);
    }
    if mb == 0x7f80_0000 {
        return signed(negative, 0);
    }
    if mb == 0 {
        if ma == 0 {
            return CANONICAL_NAN;
        }
        return signed(negative, INFINITY);
    }
    let (fa, sa) = split(ma);
    let (fb, sb) = split(mb);
    let ghost n: nat = units(ma as nat) * pow2(149);
    let ghost d: nat = units(mb as nat);
    if ma == 0 {
        proof {
            lemma_units_zero(ma as nat);
            lemma_units_zero(mb as nat);
            let p = pow2(149);
            assert(units(0) * p == units(0) * d) by (nonlinear_arith)
                requires
                    units(0) == 0,
            ;
            lemma_nearest_exact(0, d);
        }
        return signed(negative, 0);
    }
    let x: u128 = 0x1_0000_0000_0000_0000;
    let top: u128 = (fa as u128) * x;
    let q: u128 = top / (fb as u128);
    let rem: u128 = top % (fb as u128);
    let k: i32 = (sa as i32) - (sb as i32) + 85;
    proof {
        let pa = pow2(sa as nat);
        let pb = pow2(sb as nat);
        let p149 = pow2(149);
        let u = up(k as int);
        let w = down(k as int);
        crate::nearest::lemma_pow2_128();
        lemma_pow2_pos(sa as nat);
        lemma_pow2_pos(sb as nat);
        lemma_pow2_pos(149);
        lemma_units_zero(mb as nat);
        let both = pow2((sa + 149) as nat);
        lemma_pow2_adds(sa as nat, 149);
        assert(both == pa * p149);
        let z = pa * p149 * w;
        if k >= 0 {
            lemma_pow2_pos(k as nat);
            let ub = pow2((k + sb) as nat);
            lemma_pow2_adds(k as nat, sb as nat);
            lemma_pow2_adds((k + sb) as nat, 64);
            assert(ub == u * pb);
            assert(ub * x == both);
            assert(u * pb * x == z) by (nonlinear_arith)
                requires
                    ub == u * pb,
                    ub * x == both,
                    both == pa * p149,
                    z == pa * p149 * w,
                    w == 1,
            ;
        } else {
            lemma_pow2_pos((-k) as nat);
            let bx = pow2((sb + 64) as nat);
            lemma_pow2_adds(sb as nat, 64);
            lemma_pow2_adds((sa + 149) as nat, (-k) as nat);
            assert(bx == pb * x);
            assert(both * w == bx);
            assert(u * pb * x == z) by (nonlinear_arith)
                requires
                    bx == pb * x,
                    both * w == bx,
                    both == pa * p149,
                    z == pa * p149 * w,
                    u == 1,
            ;
        }
        assert(z > 0) by (nonlinear_arith)
            requires
                z == pa * p149 * w,
                pa > 0,
                p149 > 0,
                w > 0,
        ;
        assert(top == q * fb + rem) by (nonlinear_arith)
            requires
                q == top / (fb as u128),
                rem == top % (fb as u128),
                fb > 0,
        ;
        let lhs = q * (u * d);
        let mid = n * w;
        let rhs = (q + 1) * (u * d);
        assert(lhs * x == (q * fb) * z) by (nonlinear_arith)
            requires
                lhs == q * (u * d),
                d == fb * pb,
                u * pb * x == z,
        ;
        assert(rhs * x == ((q + 1) * fb) * z) by (nonlinear_arith)
            requires
                rhs == (q + 1) * (u * d),
                d == fb * pb,
                u * pb * x == z,
        ;
        assert(mid * x == top * z) by (nonlinear_arith)
            requires
                mid == n * w,
                n == (fa * pa) * p149,
                top == fa * x,
                z == pa * p149 * w,
        ;
        let qf = q * fb;
        let qf1 = (q + 1) * fb;
        assert(qf1 == qf + fb) by (nonlinear_arith)
            requires
                qf == q * fb,
                qf1 == (q + 1) * fb,
        ;
        assert(qf * z <= top * z && top * z < qf1 * z) by (nonlinear_arith)
            requires
                qf <= top,
                top < qf1,
                z > 0,
        ;
        assert(rem != 0 ==> qf * z < top * z) by (nonlinear_arith)
            requires
                rem != 0 ==> qf < top,
                z > 0,
        ;
        assert(lhs <= mid && mid < rhs && (rem != 0 ==> lhs != mid) && (rem == 0 ==> lhs == mid))
            by (nonlinear_arith)
            requires
                lhs * x <= mid * x,
                mid * x < rhs * x,
                rem != 0 ==> lhs * x < mid * x,
                rem == 0 ==> lhs * x == mid * x,
                x > 0,
        ;
        // the quotient is long enough to carry a sticky bit
        assert(q >= 0x100_0000) by (nonlinear_arith)
            requires
                top == q * fb + rem,
                rem < fb,
                fb < 0x100_0000,
                top >= 0x1_0000_0000_0000_0000,
        ;
        assert(top >= 0x1_0000_0000_0000_0000) by (nonlinear_arith)
            requires
                top == fa * x,
                fa >= 1,
                x == 0x1_0000_0000_0000_0000,
        ;
    }
    let r = round_to_nearest(q, k, rem != 0, Ghost(n), Ghost(d));
    signed(negative, r)
}

/// Adds two patterns and rounds to nearest.
#[verifier::when_used_as_spec(rounded_sum)]
#[verifier::rlimit(50)]
pub fn plus(a: u32, b: u32) -> (r: u32)
    ensures
        r == rounded_sum(a, b),
{
    let ma: u32 = a % 0x8000_0000;
    let mb: u32 = b % 0x8000_0000;
    let na: bool = a >= 0x8000_0000;
    let nb: bool = b >= 0x8000_0000;
    if ma > 0x7f80_0000 || mb > 0x7f80_0000 {
        return CANONICAL_NAN;
    }
    if ma == 0x7f80_0000 {
        if mb == 0x7f80_0000 && na != nb {
            return CANONICAL_NAN;
        }
        return a;
    }
    if mb == 0x7f80_0000 {
        return b;
    }
    // `x` is the operand of the larger magnitude
    let swap: bool = ma < mb;
    let mx: u32 = if swap { mb } else { ma };
    let my: u32 = if swap { ma } else { mb };
    let nx: bool = if swap { nb } else { na };
    let ny: bool = if swap { na } else { nb };
    let same: bool = nx == ny;
    let (fx, sx) = split(mx);
    let (fy, sy) = split(my);
    let ghost ux = units(mx as nat);
    let ghost uy = units(my as nat);
    let ghost total = signed_units(a) + signed_units(b);
    let ghost n: nat = if same { ux + uy } else { (ux - uy) as nat };
    let ghost px = pow2(sx as nat);
    let ghost py = pow2(sy as nat);
    proof {
        lemma_units_order(my as nat, mx as nat);
        lemma_units_zero(mx as nat);
        lemma_units_zero(my as nat);
        lemma_pow2_pos(sx as nat);
        lemma_pow2_pos(sy as nat);
        assert(ux >= uy);
        assert(total == if nx { -(n as int) } else { n as int });
    }
    let diff: u32 = sx - sy;
    if diff <= 64 {
        let scaled: u128 = power_of_two(diff);
        proof {
            crate::nearest::lemma_pow2_128();
            lemma_pow2_monotonic(diff as nat, 64);
            lemma_pow2_adds(diff as nat, sy as nat);
            assert((fx as u128) * scaled < 0x100_0000 * 0x1_0000_0000_0000_0000) by (nonlinear_arith)
                requires
                    fx < 0x100_0000,
                    scaled <= 0x1_0000_0000_0000_0000,
            ;
        }
        let hi: u128 = (fx as u128) * scaled;
        proof {
            assert(ux == hi * py) by (nonlinear_arith)
                requires
                    ux == fx * px,
                    px == scaled * py,
                    hi == fx * scaled,
            ;
            assert(hi >= fy) by (nonlinear_arith)
                requires
                    hi * py >= fy * py,
                    py > 0,
            ;
        }
        let m: u128 = if same {
            hi + (fy as u128)
        } else {
            hi - (fy as u128)
        };
        proof {
            assert(n == m * (py * 1)) by (nonlinear_arith)
                requires
                    ux == hi * py,
                    uy == fy * py,
                    same ==> n == ux + uy && m == hi + fy,
                    !same ==> n == ux - uy && m == hi - fy,
            ;
            assert(m == 0 <==> n == 0) by (nonlinear_arith)
                requires
                    n == m * (py * 1),
                    py > 0,
            ;
        }
        if m == 0 {
            return signed(same && nx, 0);
        }
        proof {
            assert(exactly(m as nat, sy as int, n, 1));
            lemma_exact_brackets(m as nat, sy as int, n, 1);
        }
        let r = round_to_nearest(m, sy as i32, false, Ghost(n), Ghost(1));
        signed(nx, r)
    } else {
        if fy == 0 {
            proof {
                assert(n == ux * 1) by (nonlinear_arith)
                    requires
                        n == ux,
                ;
                lemma_nearest_exact(mx as nat, 1);
            }
            return signed(nx, mx);
        }
        let base: u128 = (fx as u128) * 8;
        let m: u128 = if same {
            base
        } else {
            (base - 1) as u128
        };
        let k: i32 = (sx as i32) - 3;
        proof {
            let pk = pow2(k as nat);
            let gap = pow2((diff - 3) as nat);
            lemma2_to64();
            lemma_pow2_adds(3, k as nat);
            lemma_pow2_adds((diff - 3) as nat, sy as nat);
            lemma_pow2_monotonic(24, (diff - 3) as nat);
            lemma_pow2_pos(k as nat);
            assert(px == 8 * pk);
            assert(pk == gap * py);
            assert(uy < pk) by (nonlinear_arith)
                requires
                    uy == fy * py,
                    pk == gap * py,
                    fy < gap,
                    py > 0,
            ;
            assert(uy > 0) by (nonlinear_arith)
                requires
                    uy == fy * py,
                    fy > 0,
                    py > 0,
            ;
            assert(base * (pk * 1) == ux) by (nonlinear_arith)
                requires
                    base == fx * 8,
                    ux == fx * px,
                    px == 8 * pk,
            ;
            assert((m + 1) * (pk * 1) == m * (pk * 1) + pk) by (nonlinear_arith);
            assert(n != 0);
        }
        let r = round_to_nearest(m, k, true, Ghost(n), Ghost(1));
        signed(nx, r)
    }
}

/// Subtracts the second pattern from the first and rounds to nearest.
#[verifier::when_used_as_spec(rounded_difference)]
pub fn minus(a: u32, b: u32) -> (r: u32)
    ensures
        r == rounded_difference(a, b),
{
    plus(a, negate(b))
}

/// The whole part of a magnitude, or 2^32 where it is that or more.
#[verifier::rlimit(50)]
fn whole_magnitude(m: u32) -> (t: u64)
    requires
        m <= 0x7f80_0000,
    ensures
        t <= 0x1_0000_0000,
        units(m as nat) / pow2(149) >= 0x1_0000_0000 ==> t == 0x1_0000_0000,
        units(m as nat) / pow2(149) < 0x1_0000_0000 ==> t == units(m as nat) / pow2(149),
{
    let (f, s) = split(m);
    let ghost ps = pow2(s as nat);
    let ghost p149 = pow2(149);
    proof {
        lemma2_to64();
        lemma_pow2_pos(s as nat);
        lemma_pow2_pos(149);
    }
    if s >= 158 {
        proof {
            let e = pow2((s - 149) as nat);
            lemma_pow2_adds((s - 149) as nat, 149);
            lemma_pow2_monotonic(9, (s - 149) as nat);
            assert(f * ps == (f * e) * p149) by (nonlinear_arith)
                requires
                    ps == e * p149,
            ;
            lemma_div_by_multiple((f * e) as int, p149 as int);
            assert(f * e >= 0x80_0000 * 0x200) by (nonlinear_arith)
                requires
                    f >= 0x80_0000,
                    e >= 0x200,
            ;
        }
        0x1_0000_0000
    } else if s >= 149 {
        let left: u32 = s - 149;
        proof {
            let e = pow2(left as nat);
            lemma_pow2_adds(left as nat, 149);
            lemma_pow2_monotonic(left as nat, 8);
            assert(f * ps == (f * e) * p149) by (nonlinear_arith)
                requires
                    ps == e * p149,
            ;
            lemma_div_by_multiple((f * e) as int, p149 as int);
            lemma_pow2_pos(left as nat);
            assert(f * e < 0x100_0000 * 0x100) by (nonlinear_arith)
                requires
                    f < 0x100_0000,
                    e <= 0x100,
                    e > 0,
            ;
            lemma_u64_shl_is_mul(1u64, left as u64);
        }
        (f as u64) * (1u64 << (left as u64))
    } else {
        let right: u32 = 149 - s;
        proof {
            let z = pow2(right as nat);
            lemma_pow2_adds(s as nat, right as nat);
            lemma_pow2_pos(right as nat);
            assert(f * ps == ps * f) by (nonlinear_arith);
            lemma_div_multiples_vanish_quotient(ps as int, f as int, z as int);
            assert(units(m as nat) / p149 == f as nat / z);
            if right >= 24 {
                lemma_pow2_monotonic(24, right as nat);
                assert(f as nat / z == 0) by (nonlinear_arith)
                    requires
                        f < z,
                ;
            } else {
                lemma_u64_shl_is_mul(1u64, right as u64);
                lemma_pow2_monotonic(right as nat, 23);
            }
        }
        if right >= 24 {
            0
        } else {
            (f as u64) / (1u64 << (right as u64))
        }
    }
}

/// Converts to a signed integer, toward zero. What is out of range goes to
/// the nearest end of the range, and a NaN to zero.
#[verifier::when_used_as_spec(as_signed)]
pub fn to_signed(x: u32) -> (r: i32)
    ensures
        r == as_signed(x),
{
    let m: u32 = x % 0x8000_0000;
    if m > 0x7f80_0000 {
        return 0;
    }
    let t: u64 = whole_magnitude(m);
    if x >= 0x8000_0000 {
        if t >= 0x8000_0000 {
            i32::MIN
        } else {
            -(t as i32)
        }
    } else {
        if t >= 0x8000_0000 {
            i32::MAX
        } else {
            t as i32
        }
    }
}

/// Converts to an unsigned integer, toward zero. What is out of range goes
/// to the nearest end of the range, and a NaN to zero.
#[verifier::when_used_as_spec(as_unsigned)]
pub fn to_unsigned(x: u32) -> (r: u32)
    ensures
        r == as_unsigned(x),
{
    let m: u32 = x % 0x8000_0000;
    if m > 0x7f80_0000 {
        return 0;
    }
    let t: u64 = whole_magnitude(m);
    if x >= 0x8000_0000 {
        0
    } else {
        if t >= 0x1_0000_0000 {
            0xffff_ffff
        } else {
            t as u32
        }
    }
}

/// Converts an unsigned integer to the nearest pattern.
#[verifier::when_used_as_spec(of_unsigned)]
pub fn from_unsigned(u: u32) -> (r: u32)
    ensures
        r == of_unsigned(u),
{
    let ghost n: nat = u as nat * pow2(149);
    proof {
        assert(exactly(u as nat, 149, n, 1)) by (nonlinear_arith)
            requires
                n == u as nat * pow2(149),
                up(149) == pow2(149),
                down(149) == 1,
        ;
        lemma_exact_brackets(u as nat, 149, n, 1);
    }
    round_to_nearest(u as u128, 149, false, Ghost(n), Ghost(1))
}

/// Converts a signed integer to the nearest pattern.
#[verifier::when_used_as_spec(of_signed)]
pub fn from_signed(i: i32) -> (r: u32)
    ensures
        r == of_signed(i),
{
    let negative: bool = i < 0;
    let m: u32 = if negative {
        (-(i as i64)) as u32
    } else {
        i as u32
    };
    let ghost n: nat = m as nat * pow2(149);
    proof {
        assert(exactly(m as nat, 149, n, 1)) by (nonlinear_arith)
            requires
                n == m as nat * pow2(149),
                up(149) == pow2(149),
                down(149) == 1,
        ;
        lemma_exact_brackets(m as nat, 149, n, 1);
    }
    let r = round_to_nearest(m as u128, 149, false, Ghost(n), Ghost(1));
    signed(negative, r)
}

/// Whether `a` is less than `b`.
#[verifier::when_used_as_spec(less_than)]
pub fn less(a: u32, b: u32) -> (r: bool)
    ensures
        r == less_than(a, b),
{
    let ma: u32 = a % 0x8000_0000;
    let mb: u32 = b % 0x8000_0000;
    if ma > 0x7f80_0000 || mb > 0x7f80_0000 {
        return false;
    }
    let na: bool = a >= 0x8000_0000;
    let nb: bool = b >= 0x8000_0000;
    proof {
        lemma_units_order(ma as nat, mb as nat);
        lemma_units_zero(ma as nat);
        lemma_units_zero(mb as nat);
    }
    if na {
        if nb {
            mb < ma
        } else {
            ma != 0 || mb != 0
        }
    } else {
        if nb {
            false
        } else {
            ma < mb
        }
    }
}

} // verus!
