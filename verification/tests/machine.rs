//! Every function against the same formula evaluated in the machine's own
//! single-precision arithmetic, on edge cases and on a sweep of patterns.

use approxmath::{
    abs, acos, asin, atan2, cbrt, ceil, clamp, cos, cosh, exp, exp2, exp2_refined, floor, fract,
    log2, log2_refined, max, min, modulo, round, rsqrt, rsqrt_refined, sign, sin, sinh, sqrt,
    sqrt_refined, tan, tanh, trunc,
};

fn b(x: u32) -> f32 {
    f32::from_bits(x)
}

const PI: u32 = 0x4049_0fdb;
const HALF_PI: u32 = 0x3fc9_0fdb;
const QUARTER_PI: u32 = 0x3f49_0fdb;
const TAU: u32 = 0x40c9_0fdb;
const INV_PI: u32 = 0x3ea2_f983;

fn m_trunc(x: f32) -> f32 {
    (x as i32) as f32
}

fn m_floor(x: f32) -> f32 {
    let r = x.to_bits() >> 31;
    let x = x - r as f32;
    m_trunc(b(x.to_bits().wrapping_sub(r)))
}

fn m_ceil(x: f32) -> f32 {
    let r = 1 - (x.to_bits() >> 31);
    let x = x + r as f32;
    m_trunc(b(x.to_bits().wrapping_sub(r)))
}

fn m_round(x: f32) -> f32 {
    let x = x + b(0x3eff_ffff);
    let u = x.to_bits() >> 31;
    m_trunc(x - u as f32)
}

fn m_modulo(x: f32, e: f32) -> f32 {
    x - e * m_floor(x / e)
}

fn m_fract(x: f32) -> f32 {
    x - m_floor(x)
}

fn m_abs(x: f32) -> f32 {
    b(x.to_bits() & 0x7fff_ffff)
}

fn m_sign(x: f32) -> f32 {
    b((x.to_bits() & 0x8000_0000) | 0x3f80_0000)
}

fn m_cos(x: f32) -> f32 {
    let x = m_abs(m_modulo(x, b(TAU)) - b(PI)) - b(HALF_PI);
    let x = x + (b(0xbc96_e670) * x) * (x * x);
    x + (b(0xbe17_b083) * x) * (x * x)
}

fn m_sin(x: f32) -> f32 {
    m_cos(x - b(HALF_PI))
}

fn m_sqrt_step(x: f32, s: f32) -> f32 {
    0.5 * (s + x / s)
}

fn m_sqrt(x: f32) -> f32 {
    let s = b(x.to_bits().wrapping_add(0x3f76_9e5c) >> 1);
    m_sqrt_step(x, s)
}

fn m_sqrt_refined(x: f32) -> f32 {
    m_sqrt_step(x, m_sqrt(x))
}

fn m_cbrt(x: f32) -> f32 {
    let s = m_sign(x);
    let x = m_abs(x);
    let y = b(0x548c_2b4b - x.to_bits() / 3);
    let c = x * y * y * y;
    let y = y * (b(0x3fe0_4c03) + c * (b(0x3f02_66d9) * c + b(0xbfa0_1f36)));
    let d = x * y * y;
    let c = d - d * d * y;
    let c = c * b(0x3eaa_aaab) + d;
    s * c
}

fn m_rsqrt_step(h: f32, g: f32) -> f32 {
    g * (1.5 - (h * g * g))
}

fn m_rsqrt(x: f32) -> f32 {
    let h = x * 0.5;
    let g = b(0x5f37_59dfu32.wrapping_sub(x.to_bits() >> 1));
    m_rsqrt_step(h, g)
}

fn m_rsqrt_refined(x: f32) -> f32 {
    m_rsqrt_step(x * 0.5, m_rsqrt(x))
}

fn m_min(a: f32, c: f32) -> f32 {
    if a < c {
        a
    } else {
        c
    }
}

fn m_max(a: f32, c: f32) -> f32 {
    if a > c {
        a
    } else {
        c
    }
}

fn m_clamp(x: f32, a: f32, c: f32) -> f32 {
    m_min(m_max(x, a), c)
}

fn m_atan2(y: f32, x: f32) -> f32 {
    let nx = x.to_bits() >> 31;
    let ny = y.to_bits() & 0x8000_0000;
    let x = m_abs(x);
    let y = m_abs(y);
    let p = (y > x) as u32;
    let y = m_min(x, y) / m_max(x, y);
    let r = y * y;
    let r = ((b(0xbd3e_7316) * r + b(0x3e23_2344)) * r - b(0x3ea7_be2c)) * r * y + y;
    let r = r - b(p * 0x3fc9_0fdb);
    let u = r.to_bits() ^ ((p ^ nx) << 31);
    let r = b(u) + b(nx * 0x4049_0fdb);
    b((r.to_bits() & 0x7fff_ffff) | ny)
}

fn m_asin(x: f32) -> f32 {
    let s = m_sign(x);
    let x = m_abs(x);
    let z = 1.0 - m_sqrt(1.0 - x * x);
    let a = x - 0.35;
    s * (b(QUARTER_PI) * (x + z + 0.12 * z * z) + b(0x3d07_ae14) - b(0x3e98_a3d7) * a * a)
}

fn m_acos(x: f32) -> f32 {
    m_asin(-x) + b(HALF_PI)
}

fn m_exp2(x: f32) -> f32 {
    b(((x + b(0x42fd_e2a9)) * b(0x4b00_0000)) as u32)
}

fn m_exp2_refined(x: f32) -> f32 {
    let n = (x * b(0x4b00_0000)) as u32;
    let l = n & 0xff80_0000;
    let x = (n - l) as f32;
    let x = (b(0x27ac_a418) * x + b(0x33a8_5ada)) * x + b(0x3f80_3884);
    b(l.wrapping_add(x.to_bits()))
}

fn m_exp(x: f32) -> f32 {
    m_exp2(x * b(0x3fb8_aa3b))
}

fn m_sinh(x: f32) -> f32 {
    let a = b(0x3fb8_aa3b) * x - 1.0;
    let c = b(0xbfb8_aa3b) * x - 1.0;
    m_exp2(a) - m_exp2(c)
}

fn m_cosh(x: f32) -> f32 {
    let a = b(0x3fb8_aa3b) * x - 1.0;
    let c = b(0xbfb8_aa3b) * x - 1.0;
    m_exp2(a) + m_exp2(c)
}

fn m_tanh(x: f32) -> f32 {
    let s = m_sign(x);
    let x = m_abs(x);
    if x < 1.0 {
        let z = 0.07 * x * x;
        s * (x + (z * x + b(0xc08d_b6db)) * z)
    } else {
        let x = (1.05 * x - 0.1) * x + 1.09;
        s - s / (x * x)
    }
}

fn m_tan(x: f32) -> f32 {
    let x = x * b(INV_PI);
    let x = 2.0 * (x - m_round(x));
    let y = 1.0 - x * x;
    x * (b(0xbc99_4764) * y + b(0x3ea1_b529) + b(0x3fa3_0738) / y)
}

fn m_log2(x: f32) -> f32 {
    let z = x.to_bits() as f32;
    z * b(0x3400_0000) - b(0x42fd_e2a9)
}

fn m_log2_refined(x: f32) -> f32 {
    let a = x.to_bits();
    let c = ((a >> 23) & 0xff) as i32;
    let d = a & 0x7f_ffff;
    let a = (a >> 22) & 1;
    let x = b(d | ((a ^ 0x7f) << 23)) - 1.0;
    let f = (a as i32 + c - 127) as f32;
    f + x * (x * b(0xbf21_3248) + b(0x3fbb_c593))
}

fn same(got: u32, want: f32) -> bool {
    if want.is_nan() {
        (got & 0x7fff_ffff) > 0x7f80_0000
    } else {
        got == want.to_bits()
    }
}

struct Sweep {
    state: u64,
}

impl Sweep {
    fn next(&mut self) -> u32 {
        self.state = self.state.wrapping_mul(6364136223846793005).wrapping_add(1442695040888963407);
        (self.state >> 32) as u32
    }

    /// A finite pattern of moderate size: magnitude between 2^-20 and 2^20.
    fn moderate(&mut self) -> u32 {
        let e = 107 + self.next() % 40;
        (self.next() & 0x807f_ffff) | (e << 23)
    }
}

fn inputs() -> Vec<u32> {
    let mut all: Vec<u32> = vec![
        0x0000_0000, 0x8000_0000, 0x0000_0001, 0x8000_0001, 0x007f_ffff, 0x0080_0000, 0x3300_0000,
        0xb300_0000, 0x3380_0000, 0xb380_0000, 0x3380_0001, 0xb380_0001, 0x3400_0000, 0xb400_0000,
        0x3eff_ffff, 0x3f00_0000, 0xbf00_0000, 0x3f00_0001, 0x3f7f_ffff, 0xbf7f_ffff, 0x3f80_0000,
        0xbf80_0000, 0x3f80_0001, 0x3fc0_0000, 0xbfc0_0000, 0x4000_0000, 0xc000_0000, 0x4020_0000,
        0xc020_0000, 0x402c_cccd, 0xc02c_cccd, 0x4049_0fdb, 0xc049_0fdb, 0x40c9_0fdb, 0x4100_0000,
        0x41d8_0000, 0xc100_0000, 0x4aff_fffe, 0x4aff_ffff, 0xcaff_ffff, 0x4b00_0000, 0xcb00_0000,
        0x4b00_0001, 0xcb00_0001, 0x4b7f_ffff, 0xcb7f_ffff, 0x4b80_0000, 0xcb80_0000, 0x4b80_0001,
        0x4c00_0000, 0x4eff_ffff, 0x4f00_0000, 0xcf00_0000, 0xcf00_0001, 0x4f80_0000, 0x7f7f_ffff,
        0xff7f_ffff, 0x7f80_0000, 0xff80_0000, 0x7fc0_0000, 0xffc0_0000, 0x7f80_0001, 0xff80_0001,
    ];
    let mut sweep = Sweep { state: 0x5eed_5eed_5eed_5eed };
    for _ in 0..4000 {
        all.push(sweep.next());
    }
    for _ in 0..6000 {
        all.push(sweep.moderate());
    }
    all
}

fn check_one(name: &str, f: fn(u32) -> u32, m: fn(f32) -> f32) {
    for x in inputs() {
        let got = f(x);
        let want = m(b(x));
        assert!(same(got, want), "{}({:#010x}) gave {:#010x}, the machine {:#010x}", name, x, got, want.to_bits());
    }
}

fn check_two(name: &str, f: fn(u32, u32) -> u32, m: fn(f32, f32) -> f32) {
    let all = inputs();
    let n = all.len();
    for i in 0..n {
        let x = all[i];
        let y = all[(i * 7 + 3) % n];
        let got = f(x, y);
        let want = m(b(x), b(y));
        assert!(same(got, want), "{}({:#010x}, {:#010x}) gave {:#010x}, the machine {:#010x}", name, x, y, got, want.to_bits());
    }
    for i in 0..60 {
        for j in 0..60 {
            let (x, y) = (all[i], all[j]);
            let got = f(x, y);
            let want = m(b(x), b(y));
            assert!(same(got, want), "{}({:#010x}, {:#010x}) gave {:#010x}, the machine {:#010x}", name, x, y, got, want.to_bits());
        }
    }
}

#[test]
fn trunc_matches_the_machine() {
    check_one("trunc", trunc, m_trunc);
}

#[test]
fn floor_matches_the_machine() {
    check_one("floor", floor, m_floor);
}

#[test]
fn ceil_matches_the_machine() {
    check_one("ceil", ceil, m_ceil);
}

#[test]
fn round_matches_the_machine() {
    check_one("round", round, m_round);
}

#[test]
fn modulo_matches_the_machine() {
    check_two("modulo", modulo, m_modulo);
}

#[test]
fn fract_matches_the_machine() {
    check_one("fract", fract, m_fract);
}

#[test]
fn abs_matches_the_machine() {
    for x in inputs() {
        assert_eq!(abs(x), m_abs(b(x)).to_bits());
        assert_eq!(abs(x), b(x).abs().to_bits());
    }
}

#[test]
fn sign_matches_the_machine() {
    for x in inputs() {
        assert_eq!(sign(x), m_sign(b(x)).to_bits());
    }
}

#[test]
fn cos_matches_the_machine() {
    check_one("cos", cos, m_cos);
}

#[test]
fn sin_matches_the_machine() {
    check_one("sin", sin, m_sin);
}

#[test]
fn tan_matches_the_machine() {
    check_one("tan", tan, m_tan);
}

#[test]
fn asin_matches_the_machine() {
    check_one("asin", asin, m_asin);
}

#[test]
fn acos_matches_the_machine() {
    check_one("acos", acos, m_acos);
}

#[test]
fn atan2_matches_the_machine() {
    check_two("atan2", atan2, m_atan2);
}

#[test]
fn sqrt_matches_the_machine() {
    check_one("sqrt", sqrt, m_sqrt);
    check_one("sqrt_refined", sqrt_refined, m_sqrt_refined);
}

#[test]
fn rsqrt_matches_the_machine() {
    check_one("rsqrt", rsqrt, m_rsqrt);
    check_one("rsqrt_refined", rsqrt_refined, m_rsqrt_refined);
}

#[test]
fn cbrt_matches_the_machine() {
    check_one("cbrt", cbrt, m_cbrt);
}

#[test]
fn min_max_clamp_match_the_machine() {
    check_two("min", min, m_min);
    check_two("max", max, m_max);
    let all = inputs();
    let n = all.len();
    for i in 0..n {
        let (x, lo, hi) = (all[i], all[(i * 5 + 1) % n], all[(i * 11 + 2) % n]);
        assert!(same(clamp(x, lo, hi), m_clamp(b(x), b(lo), b(hi))));
    }
}

#[test]
fn exp2_matches_the_machine() {
    check_one("exp2", exp2, m_exp2);
    check_one("exp2_refined", exp2_refined, m_exp2_refined);
}

#[test]
fn exp_matches_the_machine() {
    check_one("exp", exp, m_exp);
}

#[test]
fn log2_matches_the_machine() {
    check_one("log2", log2, m_log2);
    check_one("log2_refined", log2_refined, m_log2_refined);
}

#[test]
fn sinh_matches_the_machine() {
    check_one("sinh", sinh, m_sinh);
}

#[test]
fn cosh_matches_the_machine() {
    check_one("cosh", cosh, m_cosh);
}

#[test]
fn tanh_matches_the_machine() {
    check_one("tanh", tanh, m_tanh);
}
