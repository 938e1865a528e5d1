//! The functions on ordinary arguments, held to the accuracy they are meant
//! to have.

use approxmath::{
    acos, asin, atan2, cbrt, ceil, cos, cosh, exp, exp2, exp2_refined, floor, log2, log2_refined,
    modulo, round, rsqrt, rsqrt_refined, sign, sin, sinh, sqrt, sqrt_refined, tan, tanh,
};

fn via(f: fn(u32) -> u32, x: f32) -> f32 {
    f32::from_bits(f(x.to_bits()))
}

fn via2(f: fn(u32, u32) -> u32, x: f32, y: f32) -> f32 {
    f32::from_bits(f(x.to_bits(), y.to_bits()))
}

fn close(got: f32, want: f64, tolerance: f64) -> bool {
    ((got as f64) - want).abs() <= tolerance
}

fn relative(got: f64, want: f64) -> f64 {
    ((got - want) / want).abs()
}

/// Arguments spread over many magnitudes: each power of two from 2^-40 to
/// 2^40 times a few fractions.
fn positive_arguments() -> Vec<f32> {
    let mut all = Vec::new();
    for e in -40..=40 {
        for step in 0..16 {
            all.push(2.0f32.powi(e) * (1.0 + step as f32 / 16.0));
        }
    }
    all
}

#[test]
fn floor_of_two_point_seven_is_two() {
    assert_eq!(via(floor, 2.7), 2.0);
}

#[test]
fn ceil_of_minus_two_point_seven_is_minus_two() {
    assert_eq!(via(ceil, -2.7), -2.0);
}

#[test]
fn round_takes_halves_away_from_zero() {
    assert_eq!(via(round, 2.5), 3.0);
    assert_eq!(via(round, -2.5), -3.0);
    assert_eq!(via(round, 0.5), 1.0);
    assert_eq!(via(round, 1.5), 2.0);
    assert_eq!(via(round, 2.4), 2.0);
}

#[test]
fn cos_of_zero_is_about_one() {
    assert!(close(via(cos, 0.0), 1.0, 1e-3));
}

#[test]
fn sin_of_a_quarter_turn_is_about_one() {
    assert!(close(via(sin, std::f32::consts::FRAC_PI_2), 1.0, 1e-3));
}

#[test]
fn atan2_of_the_diagonal_is_about_an_eighth_turn() {
    assert!(close(via2(atan2, 1.0, 1.0), std::f64::consts::FRAC_PI_4, 1e-3));
}

#[test]
fn sqrt_of_four_is_about_two() {
    assert!(close(via(sqrt, 4.0), 2.0, 1e-3));
    assert!(close(via(sqrt_refined, 4.0), 2.0, 1e-6));
}

#[test]
fn log2_of_eight_is_about_three() {
    // the refined form is within one part in a hundred, and here exact
    assert!(close(via(log2_refined, 8.0), 3.0, 0.03));
    assert_eq!(via(log2_refined, 8.0), 3.0);
    // the one-step form carries its bias of up to 0.0573
    assert!(close(via(log2, 8.0), 3.0, 0.0574));
    assert_eq!(log2(8.0f32.to_bits()), 0x4043_aae0);
}

#[test]
fn sin_and_cos_repeat_after_a_full_turn() {
    let turn = f32::from_bits(0x40c9_0fdb);
    for i in -300..=300 {
        let x = i as f32 / 100.0;
        let s = via(sin, x) as f64;
        let c = via(cos, x) as f64;
        assert!(close(via(sin, x + turn), s, 1e-3), "sin at {}", x);
        assert!(close(via(cos, x + turn), c, 1e-3), "cos at {}", x);
        assert!(close(via(sin, x - turn), s, 1e-3), "sin at {}", x);
    }
}

#[test]
fn sin_and_cos_are_near_the_true_values() {
    for i in -700..=700 {
        let x = i as f32 / 100.0;
        assert!(close(via(sin, x), (x as f64).sin(), 1e-4), "sin at {}", x);
        assert!(close(via(cos, x), (x as f64).cos(), 1e-4), "cos at {}", x);
    }
}

#[test]
fn tan_is_near_the_true_value_away_from_its_poles() {
    for i in -140..=140 {
        let x = i as f32 / 100.0;
        let want = (x as f64).tan();
        assert!(close(via(tan, x), want, 1e-3 * want.abs().max(1.0)), "tan at {}", x);
    }
}

#[test]
fn sqrt_squared_is_about_the_argument() {
    for x in [4.0f32, 3.0, 9.0, 100.0, 0.01, 1e6] {
        let r = via(sqrt, x) as f64;
        assert!(relative(r * r, x as f64) <= 1e-3, "sqrt at {}", x);
    }
    // with one Newton step the worst arguments, such as two, are a little
    // over one part in a thousand off
    let r = via(sqrt, 2.0) as f64;
    assert!(relative(r * r, 2.0) > 1e-3);
    assert!(relative(r * r, 2.0) <= 1.2e-3);
    for x in positive_arguments() {
        let r = via(sqrt, x) as f64;
        assert!(relative(r * r, x as f64) <= 1.3e-3, "sqrt at {}", x);
        let r = via(sqrt_refined, x) as f64;
        assert!(relative(r * r, x as f64) <= 1e-6, "sqrt_refined at {}", x);
    }
}

#[test]
fn rsqrt_is_about_one_over_the_square_root() {
    for x in positive_arguments() {
        let want = 1.0 / (x as f64).sqrt();
        assert!(relative(via(rsqrt, x) as f64, want) <= 2e-3, "rsqrt at {}", x);
        assert!(relative(via(rsqrt_refined, x) as f64, want) <= 5e-6, "rsqrt_refined at {}", x);
        let by_sqrt = 1.0 / (via(sqrt, x) as f64);
        assert!(relative(via(rsqrt, x) as f64, by_sqrt) <= 3e-3, "rsqrt against sqrt at {}", x);
    }
}

#[test]
fn cbrt_cubed_is_about_the_argument_and_keeps_the_sign() {
    for x in positive_arguments() {
        let r = via(cbrt, x);
        assert!(r > 0.0);
        assert!(relative((r as f64).powi(3), x as f64) <= 1e-4, "cbrt at {}", x);
        let n = via(cbrt, -x);
        assert!(n < 0.0);
        assert_eq!(n, -r);
        assert!(relative((n as f64).powi(3), -x as f64) <= 1e-4, "cbrt at {}", -x);
    }
    assert!(close(via(cbrt, 27.0), 3.0, 1e-3));
    assert!(close(via(cbrt, -8.0), -2.0, 1e-3));
}

#[test]
fn exp2_undoes_log2() {
    let mut x = 1e-3f32;
    while x <= 1e3 {
        let back = via(exp2, via(log2, x));
        assert!(relative(back as f64, x as f64) <= 0.01, "at {}", x);
        x *= 1.0371;
    }
}

#[test]
fn exp2_and_log2_are_near_the_true_values() {
    for i in -100..=100 {
        let x = i as f32 / 10.0;
        let want = (x as f64).exp2();
        assert!(relative(via(exp2, x) as f64, want) <= 0.04, "exp2 at {}", x);
        if x >= 0.0 {
            assert!(relative(via(exp2_refined, x) as f64, want) <= 2e-3, "exp2_refined at {}", x);
        }
        assert!(relative(via(exp, x) as f64, (x as f64).exp()) <= 0.04, "exp at {}", x);
    }
    let mut x = 1e-3f32;
    while x <= 1e3 {
        let want = (x as f64).log2();
        assert!(close(via(log2, x), want, 0.0574), "log2 at {}", x);
        assert!(close(via(log2_refined, x), want, 0.009), "log2_refined at {}", x);
        x *= 1.0371;
    }
}

#[test]
fn hyperbolic_functions_are_near_the_true_values() {
    for i in -60..=60 {
        let x = i as f32 / 10.0;
        let want = (x as f64).cosh();
        assert!(relative(via(cosh, x) as f64, want) <= 0.04, "cosh at {}", x);
        assert!(close(via(tanh, x), (x as f64).tanh(), 0.07), "tanh at {}", x);
        if x.abs() >= 1.0 {
            let want = (x as f64).sinh();
            assert!(relative(via(sinh, x) as f64, want) <= 0.06, "sinh at {}", x);
        }
    }
}

#[test]
fn tanh_changes_branch_at_one() {
    // below one the polynomial, from one on the rational correction
    assert_eq!(tanh(0x3f7f_ffff), 0x3f31_e4f8);
    assert_eq!(tanh(0x3f80_0000), 0x3f42_7c36);
    assert_eq!(tanh(0xbf7f_ffff), 0xbf31_e4f8);
    assert_eq!(tanh(0xbf80_0000), 0xbf42_7c36);
}

#[test]
fn asin_and_acos_are_near_the_true_values_on_their_domain() {
    for i in -100..=100 {
        let x = i as f32 / 100.0;
        assert!(close(via(asin, x), (x as f64).asin(), 4e-3), "asin at {}", x);
        assert!(close(via(acos, x), (x as f64).acos(), 4e-3), "acos at {}", x);
    }
}

#[test]
fn atan2_covers_all_four_quadrants() {
    for i in -20..=20 {
        for j in -20..=20 {
            if i == 0 && j == 0 {
                continue;
            }
            let (y, x) = (i as f32 / 4.0, j as f32 / 4.0);
            let want = (y as f64).atan2(x as f64);
            assert!(close(via2(atan2, y, x), want, 3e-4), "atan2({}, {})", y, x);
        }
    }
}

#[test]
fn modulo_takes_the_sign_of_the_divisor() {
    assert_eq!(via2(modulo, 5.5, 2.0), 1.5);
    assert_eq!(via2(modulo, -5.5, 2.0), 0.5);
    assert_eq!(via2(modulo, 5.5, -2.0), -0.5);
    assert_eq!(via2(modulo, -5.5, -2.0), -1.5);
}

#[test]
fn sign_is_never_zero() {
    assert_eq!(via(sign, 0.0), 1.0);
    assert_eq!(via(sign, -0.0), -1.0);
    assert_eq!(via(sign, 3.5), 1.0);
    assert_eq!(via(sign, -3.5), -1.0);
    assert_eq!(via(sign, f32::INFINITY), 1.0);
    assert_eq!(via(sign, f32::NEG_INFINITY), -1.0);
    assert_eq!(sign(0x7fc0_0000), 0x3f80_0000);
    assert_eq!(sign(0xffc0_0000), 0xbf80_0000);
}

#[test]
fn arguments_outside_a_domain_still_give_a_value() {
    // none of these is meaningful; each call returns
    let _ = sqrt((-4.0f32).to_bits());
    let _ = rsqrt((-4.0f32).to_bits());
    let _ = sqrt(0xffff_ffff);
    let _ = rsqrt(0xffff_ffff);
    let _ = log2((-1.0f32).to_bits());
    let _ = log2_refined(0);
    let _ = asin(2.0f32.to_bits());
    let _ = acos((-2.0f32).to_bits());
    let _ = atan2(0, 0);
    let _ = exp2_refined((-1.0f32).to_bits());
    let _ = exp2_refined(300.0f32.to_bits());
    let _ = exp2(0x7fc0_0000);
    let _ = cbrt(0x7f80_0000);
}
