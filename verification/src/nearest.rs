//! Rounding an exact ratio to the nearest representable magnitude.

use vstd::prelude::*;
use vstd::arithmetic::power2::{
    pow2,
    lemma_pow2_pos,
    lemma_pow2_adds,
    lemma_pow2_unfold,
    lemma_pow2_strictly_increases,
    lemma2_to64,
};
use vstd::bits::lemma_u64_shl_is_mul;
use crate::encoding::{units, lemma_units_of_parts, lemma_units_increasing};

verus! {

/// Whether `b` is the greatest representable magnitude not above `n / d`
/// units, the infinite magnitude standing for 2^277 units.
pub open spec fn is_floor(b: nat, n: nat, d: nat) -> bool {
    &&& b <= 0x7f80_0000
    &&& units(b) * d <= n
    &&& (b < 0x7f80_0000 ==> n < units(b + 1) * d)
}

/// The greatest representable magnitude not above `n / d` units.
pub open spec fn floor_magnitude(n: nat, d: nat) -> nat {
    choose|b: nat| is_floor(b, n, d)
}

/// The representable magnitude nearest to `n / d` units. A value halfway
/// between two neighbours goes to the one whose last bit is zero, and
/// anything that would round to 2^277 units or more becomes infinite.
pub open spec fn nearest_magnitude(n: nat, d: nat) -> nat {
    let b = floor_magnitude(n, d);
    if b >= 0x7f80_0000 {
        0x7f80_0000
    } else {
        let middle = (units(b) + units(b + 1)) * d;
        if 2 * n < middle || (2 * n == middle && b % 2 == 0) {
            b
        } else {
            b + 1
        }
    }
}

/// A magnitude that is a floor is the floor.
pub proof fn lemma_floor_unique(n: nat, d: nat, b: nat)
    requires
        d > 0,
        is_floor(b, n, d),
    ensures
        floor_magnitude(n, d) == b,
{
    let c = floor_magnitude(n, d);
    assert(is_floor(c, n, d));
    if c < b {
        if c + 1 < b {
            lemma_units_increasing(c + 1, b);
        }
        let x = units(c + 1);
        let y = units(b);
        assert(x * d <= y * d) by (nonlinear_arith)
            requires
                x <= y,
                d > 0,
        ;
    } else if b < c {
        if b + 1 < c {
            lemma_units_increasing(b + 1, c);
        }
        let x = units(b + 1);
        let y = units(c);
        assert(x * d <= y * d) by (nonlinear_arith)
            requires
                x <= y,
                d > 0,
        ;
    }
}

/// The nearest magnitude to a ratio that lies between two neighbouring
/// significands `f` and `f + 1` at scale `s`. The ratio may be given scaled
/// by any positive factor `c`.
#[verifier::rlimit(50)]
pub proof fn lemma_nearest_from_parts(n: nat, d: nat, c: nat, s: nat, f: nat, step: nat)
    requires
        d > 0,
        c > 0,
        s <= 253,
        f < 0x100_0000,
        s > 0 ==> f >= 0x80_0000,
        step == pow2(s) * d * c,
        f * step <= n * c,
        n * c < (f + 1) * step,
    ensures
        nearest_magnitude(n, d) == s * 0x80_0000 + f + (if 2 * (n * c) > (2 * f + 1) * step || (2 * (n
            * c) == (2 * f + 1) * step && f % 2 == 1) {
            1nat
        } else {
            0nat
        }),
{
    let b = s * 0x80_0000 + f;
    let p = pow2(s);
    lemma_pow2_pos(s);
    lemma_units_of_parts(s, f);
    lemma_units_of_parts(s, f + 1);
    let lo = units(b);
    let hi = units(b + 1);
    assert(lo == f * p);
    assert(hi == (f + 1) * p);
    assert(lo * d * c == f * step) by (nonlinear_arith)
        requires
            lo == f * p,
            step == p * d * c,
    ;
    assert(hi * d * c == (f + 1) * step) by (nonlinear_arith)
        requires
            hi == (f + 1) * p,
            step == p * d * c,
    ;
    assert(lo * d <= n) by (nonlinear_arith)
        requires
            lo * d * c <= n * c,
            c > 0,
    ;
    assert(n < hi * d) by (nonlinear_arith)
        requires
            n * c < hi * d * c,
            c > 0,
    ;
    assert(is_floor(b, n, d));
    lemma_floor_unique(n, d, b);
    let middle = (lo + hi) * d;
    assert(middle * c == (2 * f + 1) * step) by (nonlinear_arith)
        requires
            middle == (lo + hi) * d,
            lo * d * c == f * step,
            hi * d * c == (f + 1) * step,
    ;
    assert(2 * n < middle <==> 2 * (n * c) < middle * c) by (nonlinear_arith)
        requires
            c > 0,
    ;
    assert(2 * n == middle <==> 2 * (n * c) == middle * c) by (nonlinear_arith)
        requires
            c > 0,
    ;
    assert(b % 2 == f % 2);
}

/// A ratio of 2^277 units or more has the infinite magnitude nearest.
pub proof fn lemma_nearest_overflow(n: nat, d: nat)
    requires
        d > 0,
        n >= units(0x7f80_0000) * d,
    ensures
        nearest_magnitude(n, d) == 0x7f80_0000,
{
    assert(is_floor(0x7f80_0000, n, d));
    lemma_floor_unique(n, d, 0x7f80_0000);
}

/// The nearest magnitude, once the floor is known: the floor itself below
/// the middle of the step, its successor above, and the even one of the two
/// at the middle.
pub proof fn lemma_nearest_at_floor(n: nat, d: nat, b: nat)
    requires
        d > 0,
        b < 0x7f80_0000,
        units(b) * d <= n,
        n < units(b + 1) * d,
    ensures
        nearest_magnitude(n, d) == (if 2 * n < (units(b) + units(b + 1)) * d || (2 * n == (units(b)
            + units(b + 1)) * d && b % 2 == 0) {
            b
        } else {
            b + 1
        }),
{
    assert(is_floor(b, n, d));
    lemma_floor_unique(n, d, b);
}

/// Every ratio has a floor among the representable magnitudes.
pub proof fn lemma_floor_exists(n: nat, d: nat)
    requires
        d > 0,
    ensures
        is_floor(floor_magnitude(n, d), n, d),
        nearest_magnitude(n, d) <= 0x7f80_0000,
{
    crate::encoding::lemma_units_zero(0);
    assert(units(0) * d == 0) by (nonlinear_arith)
        requires
            units(0) == 0,
    ;
    lemma_floor_search(n, d, 0);
}

proof fn lemma_floor_search(n: nat, d: nat, b: nat)
    requires
        d > 0,
        b <= 0x7f80_0000,
        units(b) * d <= n,
    ensures
        is_floor(floor_magnitude(n, d), n, d),
    decreases 0x7f80_0000 - b,
{
    if b == 0x7f80_0000 {
        assert(is_floor(b, n, d));
    } else if n < units(b + 1) * d {
        assert(is_floor(b, n, d));
    } else {
        lemma_floor_search(n, d, b + 1);
    }
}

/// Rounding keeps a ratio between the representable magnitudes that it lies
/// between.
#[verifier::rlimit(50)]
pub proof fn lemma_nearest_between(n: nat, d: nat, lo: nat, hi: nat)
    requires
        d > 0,
        hi <= 0x7f80_0000,
        units(lo) * d <= n,
        n <= units(hi) * d,
    ensures
        lo <= nearest_magnitude(n, d) <= hi,
{
    lemma_floor_exists(n, d);
    let b = floor_magnitude(n, d);
    let r = nearest_magnitude(n, d);
    assert(lo <= hi) by {
        if lo > hi {
            lemma_units_increasing(hi, lo);
            let x = units(hi);
            let y = units(lo);
            assert(x * d < y * d) by (nonlinear_arith)
                requires
                    x < y,
                    d > 0,
            ;
        }
    }
    assert(lo <= b) by {
        if b < lo {
            if b + 1 < lo {
                lemma_units_increasing(b + 1, lo);
            }
            let x = units(b + 1);
            let y = units(lo);
            assert(x * d <= y * d) by (nonlinear_arith)
                requires
                    x <= y,
            ;
        }
    }
    assert(b <= hi) by {
        if b > hi {
            lemma_units_increasing(hi, b);
            let x = units(hi);
            let y = units(b);
            assert(x * d < y * d) by (nonlinear_arith)
                requires
                    x < y,
                    d > 0,
            ;
        }
    }
    if b == hi && b < 0x7f80_0000 {
        crate::encoding::lemma_units_step(b);
        let y = units(b);
        let z = units(b + 1);
        assert(n == y * d);
        assert(2 * (y * d) < (y + z) * d) by (nonlinear_arith)
            requires
                y < z,
                d > 0,
        ;
        assert(r == b);
    }
}

/// Rounding does not go below a representable magnitude that the ratio is
/// not below.
pub proof fn lemma_nearest_at_least(n: nat, d: nat, lo: nat)
    requires
        d > 0,
        lo <= 0x7f80_0000,
        units(lo) * d <= n,
    ensures
        lo <= nearest_magnitude(n, d) <= 0x7f80_0000,
{
    if n <= units(0x7f80_0000) * d {
        lemma_nearest_between(n, d, lo, 0x7f80_0000);
    } else {
        lemma_nearest_overflow(n, d);
    }
}

/// A representable magnitude is its own nearest magnitude.
pub proof fn lemma_nearest_exact(b: nat, d: nat)
    requires
        b <= 0x7f80_0000,
        d > 0,
    ensures
        nearest_magnitude(units(b) * d, d) == b,
{
    let n = units(b) * d;
    let lo = units(b);
    let hi = units(b + 1);
    crate::encoding::lemma_units_step(b);
    assert(lo * d < hi * d) by (nonlinear_arith)
        requires
            lo < hi,
            d > 0,
    ;
    assert(is_floor(b, n, d));
    lemma_floor_unique(n, d, b);
    assert(2 * (lo * d) < (lo + hi) * d) by (nonlinear_arith)
        requires
            lo * d < hi * d,
    ;
}

/// Two to the `k`, where `k` is not negative, and one otherwise.
pub open spec fn up(k: int) -> nat {
    if k >= 0 {
        pow2(k as nat)
    } else {
        1
    }
}

/// Two to the minus `k`, where `k` is negative, and one otherwise.
pub open spec fn down(k: int) -> nat {
    if k < 0 {
        pow2((-k) as nat)
    } else {
        1
    }
}

/// Whether `m` is the integer part of the ratio `n / d` counted in steps of
/// two to the `k`.
pub open spec fn brackets(m: nat, k: int, n: nat, d: nat) -> bool {
    m * (up(k) * d) <= n * down(k) < (m + 1) * (up(k) * d)
}

/// Whether the ratio `n / d` is exactly `m` steps of two to the `k`.
pub open spec fn exactly(m: nat, k: int, n: nat, d: nat) -> bool {
    n * down(k) == m * (up(k) * d)
}

/// Powers of two grow with the exponent.
pub proof fn lemma_pow2_monotonic(a: nat, b: nat)
    requires
        a <= b,
    ensures
        pow2(a) <= pow2(b),
{
    if a < b {
        lemma_pow2_strictly_increases(a, b);
    }
}

/// Two to the 128.
pub proof fn lemma_pow2_128()
    ensures
        pow2(128) == 0x1_0000_0000_0000_0000_0000_0000_0000_0000,
        pow2(64) == 0x1_0000_0000_0000_0000,
{
    lemma2_to64();
    lemma_pow2_adds(64, 64);
}

/// Two to the `e`.
pub fn power_of_two(e: u32) -> (w: u128)
    requires
        e <= 126,
    ensures
        w == pow2(e as nat),
{
    let low: u32 = if e < 63 {
        e
    } else {
        63
    };
    let high: u32 = e - low;
    proof {
        lemma2_to64();
        vstd::arithmetic::power2::lemma2_to64_rest();
        lemma_pow2_monotonic(low as nat, 63);
        lemma_pow2_monotonic(high as nat, 63);
        lemma_u64_shl_is_mul(1u64, low as u64);
        lemma_u64_shl_is_mul(1u64, high as u64);
        lemma_pow2_adds(low as nat, high as nat);
        let x = pow2(low as nat);
        let y = pow2(high as nat);
        assert(x * y <= 0x8000_0000_0000_0000 * 0x8000_0000_0000_0000) by (nonlinear_arith)
            requires
                x <= 0x8000_0000_0000_0000,
                y <= 0x8000_0000_0000_0000,
        ;
    }
    let a: u64 = 1u64 << (low as u64);
    let b: u64 = 1u64 << (high as u64);
    (a as u128) * (b as u128)
}

/// The number of bits that `m` needs: zero for zero, and otherwise the
/// position after its leading one.
#[verifier::rlimit(50)]
pub fn bit_length(m: u128) -> (len: u32)
    ensures
        len <= 128,
        m < pow2(len as nat),
        len > 0 ==> m >= pow2((len - 1) as nat),
        len == 0 <==> m == 0,
{
    let mut len: u32 = 0;
    let mut t: u128 = m;
    proof {
        lemma2_to64();
        assert(t * pow2(0) == t);
        assert((t + 1) * pow2(0) == t + 1);
    }
    while t > 0
        invariant
            len <= 128,
            t * pow2(len as nat) <= m,
            m < (t + 1) * pow2(len as nat),
            len > 0 ==> m >= pow2((len - 1) as nat),
            len == 0 ==> t == m,
        decreases t,
    {
        proof {
            let p = pow2(len as nat);
            lemma_pow2_128();
            assert(p <= t * p) by (nonlinear_arith)
                requires
                    t >= 1,
            ;
            if len >= 128 {
                lemma_pow2_monotonic(128, len as nat);
            }
            lemma_pow2_unfold((len + 1) as nat);
            let h = t / 2;
            assert(h * (2 * p) <= t * p) by (nonlinear_arith)
                requires
                    2 * h <= t,
            ;
            assert((t + 1) * p <= (h + 1) * (2 * p)) by (nonlinear_arith)
                requires
                    t + 1 <= 2 * h + 2,
            ;
        }
        t = t / 2;
        len = len + 1;
    }
    proof {
        assert((t + 1) * pow2(len as nat) == pow2(len as nat)) by (nonlinear_arith)
            requires
                t == 0,
        ;
        if len > 0 {
            lemma_pow2_pos((len - 1) as nat);
        }
    }
    len
}

/// What stays true of a quotient and its remainder once the ratio they bracket
/// is compared with the middle of the next coarser step.
pub proof fn lemma_round_decision(m: nat, w: nat, half: nat, f: nat, rem: nat, a: nat, b: nat)
    requires
        w == 2 * half,
        m == f * w + rem,
        rem < w,
        a > 0,
        m * a <= b,
        b < (m + 1) * a,
    ensures
        f * (w * a) <= b,
        b < (f + 1) * (w * a),
        rem > half ==> 2 * b > (2 * f + 1) * (w * a),
        rem < half ==> 2 * b < (2 * f + 1) * (w * a),
        rem == half ==> 2 * b >= (2 * f + 1) * (w * a),
        rem == half ==> (b == m * a <==> 2 * b == (2 * f + 1) * (w * a)),
{
    assert(f * (w * a) == (f * w) * a) by (nonlinear_arith);
    assert((f + 1) * (w * a) == (f * w + w) * a) by (nonlinear_arith);
    assert((2 * f + 1) * (w * a) == 2 * ((f * w + half) * a)) by (nonlinear_arith)
        requires
            w == 2 * half,
    ;
    let lo = f * w;
    assert(lo * a <= m * a) by (nonlinear_arith)
        requires
            lo <= m,
    ;
    assert((m + 1) * a <= (lo + w) * a) by (nonlinear_arith)
        requires
            m + 1 <= lo + w,
    ;
    if rem > half {
        assert((lo + half) * a < m * a) by (nonlinear_arith)
            requires
                lo + half < m,
                a > 0,
        ;
    }
    if rem < half {
        assert((m + 1) * a <= (lo + half) * a) by (nonlinear_arith)
            requires
                m + 1 <= lo + half,
        ;
    }
}

/// Rounds to the nearest representable magnitude a ratio known by its
/// integer part `m` in steps of two to the `k` and by whether anything is
/// left over (`sticky`). The result is the magnitude bits.
#[verifier::rlimit(50)]
pub(crate) fn round_to_nearest(
    m: u128,
    k: i32,
    sticky: bool,
    Ghost(n): Ghost<nat>,
    Ghost(d): Ghost<nat>,
) -> (r: u32)
    requires
        d > 0,
        m < 0x1_0000_0000_0000_0000_0000_0000_0000,
        -1000 <= k <= 1000,
        brackets(m as nat, k as int, n, d),
        sticky <==> !exactly(m as nat, k as int, n, d),
        sticky ==> m >= 0x100_0000,
    ensures
        r == nearest_magnitude(n, d),
        r <= 0x7f80_0000,
{
    let ghost a = up(k as int) * d;
    let ghost c = down(k as int);
    let ghost b = n * c;
    proof {
        lemma2_to64();
        lemma_pow2_128();
        if k >= 0 {
            lemma_pow2_pos(k as nat);
        } else {
            lemma_pow2_pos((-k) as nat);
        }
        assert(a > 0) by (nonlinear_arith)
            requires
                a == up(k as int) * d,
                up(k as int) > 0,
                d > 0,
        ;
    }
    if m == 0 {
        proof {
            assert(m * a == 0) by (nonlinear_arith)
                requires
                    m == 0,
            ;
            assert(b == 0);
            assert(n == 0) by (nonlinear_arith)
                requires
                    n * c == 0,
                    c > 0,
            ;
            let step = pow2(0) * d * 1;
            assert(step == d) by (nonlinear_arith)
                requires
                    step == pow2(0) * d * 1,
                    pow2(0) == 1,
            ;
            let zero: nat = 0;
            assert(zero * step == 0 && (zero + 1) * step == step && (2 * zero + 1) * step == step)
                by (nonlinear_arith)
                requires
                    zero == 0,
            ;
            lemma_nearest_from_parts(n, d, 1, 0, zero, step);
        }
        return 0;
    }
    let len = bit_length(m);
    proof {
        if len > 112 {
            lemma_pow2_monotonic(112, (len - 1) as nat);
            lemma_pow2_adds(64, 32);
            lemma_pow2_adds(96, 16);
        }
    }
    assert(len <= 112);
    let top: i32 = k + (len as i32) - 24;
    if top >= 254 {
        proof {
            // m >= 2^(len-1), so the ratio is at least 2^(len-1+k) >= 2^277.
            let lead = pow2((len - 1) as nat);
            let inf = pow2(254);
            lemma_units_of_parts(254, 0x80_0000);
            assert(units(0x7f80_0000) == 0x80_0000 * inf);
            lemma_pow2_adds(23, 254);
            assert(units(0x7f80_0000) == pow2(277)) by (nonlinear_arith)
                requires
                    units(0x7f80_0000) == 0x80_0000 * inf,
                    pow2(277) == pow2(23) * inf,
                    pow2(23) == 0x80_0000,
            ;
            // 2^277 * c <= lead * up
            if k >= 0 {
                lemma_pow2_adds((len - 1) as nat, k as nat);
                lemma_pow2_monotonic(277, (len - 1 + k) as nat);
            } else {
                lemma_pow2_adds(277, (-k) as nat);
                lemma_pow2_monotonic((277 - k) as nat, (len - 1) as nat);
            }
            let u = up(k as int);
            let big = pow2(277);
            assert(big * c <= lead * u);
            assert(big * d * c <= n * c) by (nonlinear_arith)
                requires
                    big * c <= lead * u,
                    lead <= m,
                    a == u * d,
                    m * a <= n * c,
                    d > 0,
            ;
            assert(big * d <= n) by (nonlinear_arith)
                requires
                    big * d * c <= n * c,
                    c > 0,
            ;
            lemma_nearest_overflow(n, d);
        }
        return 0x7f80_0000;
    }
    let s: i32 = if top > 0 {
        top
    } else {
        0
    };
    let shift: i32 = s - k;
    if shift <= 0 {
        // Nothing is lost: the significand is `m` moved left.
        let left: u32 = (k - s) as u32;
        proof {
            lemma_pow2_adds(left as nat, s as nat);
            lemma_pow2_adds(len as nat, left as nat);
            lemma_pow2_monotonic((len + left) as nat, 24);
            lemma_pow2_pos(left as nat);
            let pl = pow2(left as nat);
            let plen = pow2(len as nat);
            assert(m * pl < plen * pl) by (nonlinear_arith)
                requires
                    m < plen,
                    pl > 0,
            ;
        }
        assert(m * pow2(left as nat) < 0x100_0000);
        let f: u128 = m * power_of_two(left);
        proof {
            let pl = pow2(left as nat);
            let ps = pow2(s as nat);
            assert(f == m * pl);
            if s > 0 {
                lemma_pow2_adds((len - 1) as nat, left as nat);
                let lead = pow2((len - 1) as nat);
                assert(lead * pl <= m * pl) by (nonlinear_arith)
                    requires
                        lead <= m,
                ;
                assert(f >= 0x80_0000);
            }
            let step = ps * d * 1;
            assert(c == 1);
            assert(f * step == m * a) by (nonlinear_arith)
                requires
                    f == m * pl,
                    step == ps * d * 1,
                    a == up(k as int) * d,
                    up(k as int) == pl * ps,
            ;
            assert(!sticky);
            assert(n * 1 == f * step);
            lemma_pow2_pos(s as nat);
            assert(step > 0) by (nonlinear_arith)
                requires
                    step == ps * d * 1,
                    ps > 0,
                    d > 0,
            ;
            assert(2 * (n * 1) < (2 * f + 1) * step) by (nonlinear_arith)
                requires
                    n * 1 == f * step,
                    step > 0,
            ;
            assert(f * step < (f + 1) * step) by (nonlinear_arith)
                requires
                    step > 0,
            ;
            lemma_nearest_from_parts(n, d, 1, s as nat, f as nat, step);
        }
        return (s as u32) * 0x80_0000 + (f as u32);
    }
    if shift > len as i32 {
        // Less than half of the smallest step is left.
        proof {
            assert(s == 0);
            assert(k < 0);
            let sh = shift as nat;
            assert(c == pow2(sh));
            lemma_pow2_unfold(sh);
            lemma_pow2_monotonic(len as nat, (sh - 1) as nat);
            let step = pow2(0) * d * c;
            let hp = pow2((sh - 1) as nat);
            assert(step == 2 * (hp * d)) by (nonlinear_arith)
                requires
                    step == pow2(0) * d * c,
                    pow2(0) == 1,
                    c == 2 * hp,
            ;
            assert(a == d) by (nonlinear_arith)
                requires
                    a == up(k as int) * d,
                    up(k as int) == 1,
            ;
            assert((m + 1) * d <= hp * d) by (nonlinear_arith)
                requires
                    m + 1 <= hp,
            ;
            let zero: nat = 0;
            assert(zero * step == 0 && (zero + 1) * step == step && (2 * zero + 1) * step == step)
                by (nonlinear_arith)
                requires
                    zero == 0,
            ;
            lemma_nearest_from_parts(n, d, c, 0, zero, step);
        }
        return 0;
    }
    let w: u128 = power_of_two(shift as u32);
    proof {
        lemma_pow2_pos(shift as nat);
    }
    let f: u128 = m / w;
    let rem: u128 = m % w;
    let half: u128 = w / 2;
    let round_up: bool = rem > half || (rem == half && (sticky || f % 2 == 1));
    proof {
        let sh = shift as nat;
        assert(w == pow2(sh));
        lemma_pow2_unfold(sh);
        assert(w == 2 * half);
        assert(m == f * w + rem) by (nonlinear_arith)
            requires
                f == m / w,
                rem == m % w,
                w > 0,
        ;
        lemma_round_decision(m as nat, w as nat, half as nat, f as nat, rem as nat, a, b);
        // the step of the result, scaled as the ratio is
        let ps = pow2(s as nat);
        let step = ps * d * c;
        if k >= 0 {
            lemma_pow2_adds(sh, k as nat);
        } else {
            lemma_pow2_adds(s as nat, (-k) as nat);
        }
        assert(ps * c == w * up(k as int));
        assert(step == w * a) by (nonlinear_arith)
            requires
                step == ps * d * c,
                ps * c == w * up(k as int),
                a == up(k as int) * d,
        ;
        // bounds on the significand
        let rest = (len - shift) as nat;
        lemma_pow2_adds(sh, rest);
        let pr = pow2(rest);
        assert(f < pr) by (nonlinear_arith)
            requires
                m == f * w + rem,
                m < w * pr,
                w > 0,
        ;
        lemma_pow2_monotonic(rest, 24);
        if s > 0 {
            assert(rest == 24);
            lemma_pow2_adds(sh, 23);
            assert(f >= 0x80_0000) by (nonlinear_arith)
                requires
                    m == f * w + rem,
                    rem < w,
                    m >= w * 0x80_0000,
            ;
        }
        lemma_nearest_from_parts(n, d, c, s as nat, f as nat, step);
    }
    (s as u32) * 0x80_0000 + (f as u32) + if round_up {
        1
    } else {
        0
    }
}

} // verus!
