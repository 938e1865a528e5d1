//! Exact results, bit for bit, on chosen arguments.

use approxmath::{
    abs, acos, asin, atan2, cbrt, ceil, clamp, cos, cosh, exp, exp2, exp2_refined, floor, fract, log2, log2_refined, max, min, modulo, round, rsqrt, rsqrt_refined, sign, sin, sinh, sqrt, sqrt_refined, tan, tanh, trunc,
};

#[test]
fn abs_gives_exact_values() {
    // abs(2.700000047683716) = 2.700000047683716
    assert_eq!(abs(0x402c_cccd), 0x402c_cccd);
    // abs(-2.700000047683716) = 2.700000047683716
    assert_eq!(abs(0xc02c_cccd), 0x402c_cccd);
    // abs(0.0) = 0.0
    assert_eq!(abs(0x0000_0000), 0x0000_0000);
    // abs(-0.0) = 0.0
    assert_eq!(abs(0x8000_0000), 0x0000_0000);
}

#[test]
fn acos_gives_exact_values() {
    // acos(0.0) = 1.5743259191513062
    assert_eq!(acos(0x0000_0000), 0x3fc9_8383);
    // acos(0.5) = 1.0448063611984253
    assert_eq!(acos(0x3f00_0000), 0x3f85_bc37);
    // acos(-0.5) = 2.0967864990234375
    assert_eq!(acos(0xbf00_0000), 0x4006_31c0);
    // acos(1.0) = -0.0014148950576782227
    assert_eq!(acos(0x3f80_0000), 0xbab9_7400);
    // acos(-1.0) = 3.143007755279541
    assert_eq!(acos(0xbf80_0000), 0x4049_270a);
    // acos(0.8999999761581421) = 0.4479796886444092
    assert_eq!(acos(0x3f66_6666), 0x3ee5_5d98);
}

#[test]
fn asin_gives_exact_values() {
    // asin(0.0) = -0.0035295747220516205
    assert_eq!(asin(0x0000_0000), 0xbb67_5070);
    // asin(0.5) = 0.5259900093078613
    assert_eq!(asin(0x3f00_0000), 0x3f06_a748);
    // asin(-0.5) = -0.5259900093078613
    assert_eq!(asin(0xbf00_0000), 0xbf06_a748);
    // asin(1.0) = 1.5722112655639648
    assert_eq!(asin(0x3f80_0000), 0x3fc9_3e38);
    // asin(-1.0) = -1.5722112655639648
    assert_eq!(asin(0xbf80_0000), 0xbfc9_3e38);
    // asin(0.3499999940395355) = 0.35795271396636963
    assert_eq!(asin(0x3eb3_3333), 0x3eb7_4594);
    // asin(0.8999999761581421) = 1.1228166818618774
    assert_eq!(asin(0x3f66_6666), 0x3f8f_b875);
}

#[test]
fn cbrt_gives_exact_values() {
    // cbrt(27.0) = 2.999922037124634
    assert_eq!(cbrt(0x41d8_0000), 0x403f_feb9);
    // cbrt(-27.0) = -2.999922037124634
    assert_eq!(cbrt(0xc1d8_0000), 0xc03f_feb9);
    // cbrt(8.0) = 2.000042676925659
    assert_eq!(cbrt(0x4100_0000), 0x4000_00b3);
    // cbrt(-8.0) = -2.000042676925659
    assert_eq!(cbrt(0xc100_0000), 0xc000_00b3);
    // cbrt(1.0) = 1.0000213384628296
    assert_eq!(cbrt(0x3f80_0000), 0x3f80_00b3);
    // cbrt(0.0010000000474974513) = 0.10000161081552505
    assert_eq!(cbrt(0x3a83_126f), 0x3dcc_cda5);
    // cbrt(-1000.0) = -9.999738693237305
    assert_eq!(cbrt(0xc47a_0000), 0xc11f_feee);
    // cbrt(2.0) = 1.2598876953125
    assert_eq!(cbrt(0x4000_0000), 0x3fa1_4400);
}

#[test]
fn ceil_gives_exact_values() {
    // ceil(2.700000047683716) = 3.0
    assert_eq!(ceil(0x402c_cccd), 0x4040_0000);
    // ceil(-2.700000047683716) = -2.0
    assert_eq!(ceil(0xc02c_cccd), 0xc000_0000);
    // ceil(0.5) = 1.0
    assert_eq!(ceil(0x3f00_0000), 0x3f80_0000);
    // ceil(-0.5) = 0.0
    assert_eq!(ceil(0xbf00_0000), 0x0000_0000);
    // ceil(-1.0) = -1.0
    assert_eq!(ceil(0xbf80_0000), 0xbf80_0000);
    // ceil(1.0) = 1.0
    assert_eq!(ceil(0x3f80_0000), 0x3f80_0000);
    // ceil(1.0000000031710769e-30) = 0.0
    assert_eq!(ceil(0x0da2_4260), 0x0000_0000);
    // ceil(-1.0000000031710769e-30) = 0.0
    assert_eq!(ceil(0x8da2_4260), 0x0000_0000);
    // ceil(8388607.5) = 8388607.0
    assert_eq!(ceil(0x4aff_ffff), 0x4aff_fffe);
    // ceil(-8388607.5) = -8388607.0
    assert_eq!(ceil(0xcaff_ffff), 0xcaff_fffe);
    // ceil(16777216.0) = 16777215.0
    assert_eq!(ceil(0x4b80_0000), 0x4b7f_ffff);
}

#[test]
fn cos_gives_exact_values() {
    // cos(0.0) = 1.0000464916229248
    assert_eq!(cos(0x0000_0000), 0x3f80_0186);
    // cos(1.0) = 0.5403151512145996
    assert_eq!(cos(0x3f80_0000), 0x3f0a_5218);
    // cos(-1.0) = 0.5403151512145996
    assert_eq!(cos(0xbf80_0000), 0x3f0a_5218);
    // cos(3.1415927410125732) = -1.0000464916229248
    assert_eq!(cos(0x4049_0fdb), 0xbf80_0186);
    // cos(1.5707963705062866) = 0.0
    assert_eq!(cos(0x3fc9_0fdb), 0x0000_0000);
    // cos(10.0) = -0.8390825986862183
    assert_eq!(cos(0x4120_0000), 0xbf56_ce1e);
    // cos(-10.0) = -0.8390825986862183
    assert_eq!(cos(0xc120_0000), 0xbf56_ce1e);
    // cos(100.0) = 0.8623256087303162
    assert_eq!(cos(0x42c8_0000), 0x3f5c_c15f);
}

#[test]
fn cosh_gives_exact_values() {
    // cosh(0.0) = 0.9713478088378906
    assert_eq!(cosh(0x0000_0000), 0x3f78_aa40);
    // cosh(1.0) = 1.5728912353515625
    assert_eq!(cosh(0x3f80_0000), 0x3fc9_5480);
    // cosh(-1.0) = 1.5728912353515625
    assert_eq!(cosh(0xbf80_0000), 0x3fc9_5480);
    // cosh(2.0) = 3.7222399711608887
    assert_eq!(cosh(0x4000_0000), 0x406e_392e);
    // cosh(0.5) = 1.1373577117919922
    assert_eq!(cosh(0x3f00_0000), 0x3f91_94f0);
}

#[test]
fn exp_gives_exact_values() {
    // exp(0.0) = 0.9713478088378906
    assert_eq!(exp(0x0000_0000), 0x3f78_aa40);
    // exp(1.0) = 2.770782470703125
    assert_eq!(exp(0x3f80_0000), 0x4031_5480);
    // exp(-1.0) = 0.375
    assert_eq!(exp(0xbf80_0000), 0x3ec0_0000);
    // exp(2.0) = 7.31231689453125
    assert_eq!(exp(0x4000_0000), 0x40e9_fe80);
    // exp(5.0) = 147.990234375
    assert_eq!(exp(0x40a0_0000), 0x4313_fd80);
    // exp(-5.0) = 0.006754755973815918
    assert_eq!(exp(0xc0a0_0000), 0x3bdd_5700);
}

#[test]
fn exp2_gives_exact_values() {
    // exp2(0.0) = 0.9713478088378906
    assert_eq!(exp2(0x0000_0000), 0x3f78_aa40);
    // exp2(1.0) = 1.9426956176757812
    assert_eq!(exp2(0x3f80_0000), 0x3ff8_aa40);
    // exp2(3.0) = 7.770751953125
    assert_eq!(exp2(0x4040_0000), 0x40f8_aa00);
    // exp2(-3.0) = 0.12141847610473633
    assert_eq!(exp2(0xc040_0000), 0x3df8_aa40);
    // exp2(0.5) = 1.4426956176757812
    assert_eq!(exp2(0x3f00_0000), 0x3fb8_aa40);
    // exp2(10.0) = 994.65625
    assert_eq!(exp2(0x4120_0000), 0x4478_aa00);
    // exp2(-10.0) = 0.0009485818445682526
    assert_eq!(exp2(0xc120_0000), 0x3a78_aa40);
    // exp2(100.0) = 1.231324797200449e+30
    assert_eq!(exp2(0x42c8_0000), 0x7178_aa00);
    // exp2(-200.0) = 0.0
    assert_eq!(exp2(0xc348_0000), 0x0000_0000);
}

#[test]
fn exp2_refined_gives_exact_values() {
    // exp2_refined(0.0) = 1.0017247200012207
    assert_eq!(exp2_refined(0x0000_0000), 0x3f80_3884);
    // exp2_refined(1.0) = 2.0034494400024414
    assert_eq!(exp2_refined(0x3f80_0000), 0x4000_3884);
    // exp2_refined(3.0) = 8.013797760009766
    assert_eq!(exp2_refined(0x4040_0000), 0x4100_3884);
    // exp2_refined(0.5) = 1.4148402214050293
    assert_eq!(exp2_refined(0x3f00_0000), 0x3fb5_197c);
    // exp2_refined(10.0) = 1025.76611328125
    assert_eq!(exp2_refined(0x4120_0000), 0x4480_3884);
    // exp2_refined(100.0) = 1.2698369425730025e+30
    assert_eq!(exp2_refined(0x42c8_0000), 0x7180_3884);
    // exp2_refined(200.0) = -1.390172310601929e-17
    assert_eq!(exp2_refined(0x4348_0000), 0xa380_3884);
}

#[test]
fn floor_gives_exact_values() {
    // floor(2.700000047683716) = 2.0
    assert_eq!(floor(0x402c_cccd), 0x4000_0000);
    // floor(-2.700000047683716) = -3.0
    assert_eq!(floor(0xc02c_cccd), 0xc040_0000);
    // floor(0.5) = 0.0
    assert_eq!(floor(0x3f00_0000), 0x0000_0000);
    // floor(-0.5) = -1.0
    assert_eq!(floor(0xbf00_0000), 0xbf80_0000);
    // floor(-1.0) = -1.0
    assert_eq!(floor(0xbf80_0000), 0xbf80_0000);
    // floor(1.0) = 1.0
    assert_eq!(floor(0x3f80_0000), 0x3f80_0000);
    // floor(-0.0) = 0.0
    assert_eq!(floor(0x8000_0000), 0x0000_0000);
    // floor(1.0000000031710769e-30) = 0.0
    assert_eq!(floor(0x0da2_4260), 0x0000_0000);
    // floor(-1.0000000031710769e-30) = 0.0
    assert_eq!(floor(0x8da2_4260), 0x0000_0000);
    // floor(8388607.5) = 8388607.0
    assert_eq!(floor(0x4aff_ffff), 0x4aff_fffe);
    // floor(-8388607.5) = -8388607.0
    assert_eq!(floor(0xcaff_ffff), 0xcaff_fffe);
    // floor(-3.000000238418579) = -3.0
    assert_eq!(floor(0xc040_0001), 0xc040_0000);
}

#[test]
fn fract_gives_exact_values() {
    // fract(2.700000047683716) = 0.7000000476837158
    assert_eq!(fract(0x402c_cccd), 0x3f33_3334);
    // fract(-2.700000047683716) = 0.2999999523162842
    assert_eq!(fract(0xc02c_cccd), 0x3e99_9998);
    // fract(0.5) = 0.5
    assert_eq!(fract(0x3f00_0000), 0x3f00_0000);
    // fract(-0.5) = 0.5
    assert_eq!(fract(0xbf00_0000), 0x3f00_0000);
    // fract(123.45600128173828) = 0.45600128173828125
    assert_eq!(fract(0x42f6_e979), 0x3ee9_7900);
    // fract(-123.45600128173828) = 0.5439987182617188
    assert_eq!(fract(0xc2f6_e979), 0x3f0b_4380);
    // fract(1.0000000031710769e-30) = 1.0000000031710769e-30
    assert_eq!(fract(0x0da2_4260), 0x0da2_4260);
    // fract(-1.0000000031710769e-30) = -1.0000000031710769e-30
    assert_eq!(fract(0x8da2_4260), 0x8da2_4260);
    // fract(-3.000000238418579) = -2.384185791015625e-07
    assert_eq!(fract(0xc040_0001), 0xb480_0000);
}

#[test]
fn log2_gives_exact_values() {
    // log2(8.0) = 3.0573043823242188
    assert_eq!(log2(0x4100_0000), 0x4043_aae0);
    // log2(1.0) = 0.05730438232421875
    assert_eq!(log2(0x3f80_0000), 0x3d6a_b800);
    // log2(2.0) = 1.0573043823242188
    assert_eq!(log2(0x4000_0000), 0x3f87_55c0);
    // log2(0.5) = -0.9426956176757812
    assert_eq!(log2(0x3f00_0000), 0xbf71_5480);
    // log2(1000.0) = 10.010429382324219
    assert_eq!(log2(0x447a_0000), 0x4120_2ab8);
    // log2(0.0010000000474974513) = -9.918693542480469
    assert_eq!(log2(0x3a83_126f), 0xc11e_b2f8);
    // log2(3.0) = 1.5573043823242188
    assert_eq!(log2(0x4040_0000), 0x3fc7_55c0);
}

#[test]
fn log2_refined_gives_exact_values() {
    // log2_refined(8.0) = 3.0
    assert_eq!(log2_refined(0x4100_0000), 0x4040_0000);
    // log2_refined(1.0) = 0.0
    assert_eq!(log2_refined(0x3f80_0000), 0x0000_0000);
    // log2_refined(2.0) = 1.0
    assert_eq!(log2_refined(0x4000_0000), 0x3f80_0000);
    // log2_refined(0.5) = -1.0
    assert_eq!(log2_refined(0x3f00_0000), 0xbf80_0000);
    // log2_refined(1000.0) = 9.965271949768066
    assert_eq!(log2_refined(0x447a_0000), 0x411f_71c1);
    // log2_refined(0.0010000000474974513) = -9.965155601501465
    assert_eq!(log2_refined(0x3a83_126f), 0xc11f_7147);
    // log2_refined(3.0) = 1.593903660774231
    assert_eq!(log2_refined(0x4040_0000), 0x3fcc_0509);
    // log2_refined(1.5) = 0.593903660774231
    assert_eq!(log2_refined(0x3fc0_0000), 0x3f18_0a12);
}

#[test]
fn round_gives_exact_values() {
    // round(2.5) = 3.0
    assert_eq!(round(0x4020_0000), 0x4040_0000);
    // round(-2.5) = -3.0
    assert_eq!(round(0xc020_0000), 0xc040_0000);
    // round(2.499999761581421) = 2.0
    assert_eq!(round(0x401f_ffff), 0x4000_0000);
    // round(0.5) = 1.0
    assert_eq!(round(0x3f00_0000), 0x3f80_0000);
    // round(-0.5) = -1.0
    assert_eq!(round(0xbf00_0000), 0xbf80_0000);
    // round(0.4999999701976776) = 0.0
    assert_eq!(round(0x3eff_ffff), 0x0000_0000);
    // round(1.5) = 2.0
    assert_eq!(round(0x3fc0_0000), 0x4000_0000);
    // round(-1.5) = -2.0
    assert_eq!(round(0xbfc0_0000), 0xc000_0000);
    // round(8388607.5) = 8388608.0
    assert_eq!(round(0x4aff_ffff), 0x4b00_0000);
    // round(-8388609.0) = -8388610.0
    assert_eq!(round(0xcb00_0001), 0xcb00_0002);
    // round(1.0000000031710769e-30) = 0.0
    assert_eq!(round(0x0da2_4260), 0x0000_0000);
}

#[test]
fn rsqrt_gives_exact_values() {
    // rsqrt(4.0) = 0.49915358424186707
    assert_eq!(rsqrt(0x4080_0000), 0x3eff_910f);
    // rsqrt(2.0) = 0.7069300413131714
    assert_eq!(rsqrt(0x4000_0000), 0x3f34_f95e);
    // rsqrt(1.0) = 0.9983071684837341
    assert_eq!(rsqrt(0x3f80_0000), 0x3f7f_910f);
    // rsqrt(0.25) = 1.9966143369674683
    assert_eq!(rsqrt(0x3e80_0000), 0x3fff_910f);
    // rsqrt(100.0) = 0.09984488040208817
    assert_eq!(rsqrt(0x42c8_0000), 0x3dcc_7b79);
    // rsqrt(1.000000013351432e-10) = 99852.7734375
    assert_eq!(rsqrt(0x2edb_e6ff), 0x47c3_0663);
    // rsqrt(10000000000.0) = 9.986146324081346e-06
    assert_eq!(rsqrt(0x5015_02f9), 0x3727_8a2c);
    // rsqrt(3.0) = 0.5768468379974365
    assert_eq!(rsqrt(0x4040_0000), 0x3f13_ac3c);
}

#[test]
fn rsqrt_refined_gives_exact_values() {
    // rsqrt_refined(4.0) = 0.4999978244304657
    assert_eq!(rsqrt_refined(0x4080_0000), 0x3eff_ffb7);
    // rsqrt_refined(2.0) = 0.7071066498756409
    assert_eq!(rsqrt_refined(0x4000_0000), 0x3f35_04f1);
    // rsqrt_refined(1.0) = 0.9999956488609314
    assert_eq!(rsqrt_refined(0x3f80_0000), 0x3f7f_ffb7);
    // rsqrt_refined(0.25) = 1.9999912977218628
    assert_eq!(rsqrt_refined(0x3e80_0000), 0x3fff_ffb7);
    // rsqrt_refined(100.0) = 0.09999963641166687
    assert_eq!(rsqrt_refined(0x42c8_0000), 0x3dcc_cc9c);
    // rsqrt_refined(1.000000013351432e-10) = 99999.671875
    assert_eq!(rsqrt_refined(0x2edb_e6ff), 0x47c3_4fd6);
    // rsqrt_refined(10000000000.0) = 9.999970643548295e-06
    assert_eq!(rsqrt_refined(0x5015_02f9), 0x3727_c58c);
    // rsqrt_refined(3.0) = 0.5773496627807617
    assert_eq!(rsqrt_refined(0x4040_0000), 0x3f13_cd30);
}

#[test]
fn sign_gives_exact_values() {
    // sign(2.700000047683716) = 1.0
    assert_eq!(sign(0x402c_cccd), 0x3f80_0000);
    // sign(-2.700000047683716) = -1.0
    assert_eq!(sign(0xc02c_cccd), 0xbf80_0000);
    // sign(0.0) = 1.0
    assert_eq!(sign(0x0000_0000), 0x3f80_0000);
    // sign(-0.0) = -1.0
    assert_eq!(sign(0x8000_0000), 0xbf80_0000);
}

#[test]
fn sin_gives_exact_values() {
    // sin(0.0) = -1.1920928955078125e-07
    assert_eq!(sin(0x0000_0000), 0xb400_0000);
    // sin(1.0) = 0.8414814472198486
    assert_eq!(sin(0x3f80_0000), 0x3f57_6b54);
    // sin(-1.0) = -0.8414815664291382
    assert_eq!(sin(0xbf80_0000), 0xbf57_6b56);
    // sin(1.5707963705062866) = 1.0000464916229248
    assert_eq!(sin(0x3fc9_0fdb), 0x3f80_0186);
    // sin(3.1415927410125732) = 0.0
    assert_eq!(sin(0x4049_0fdb), 0x0000_0000);
    // sin(10.0) = -0.5440342426300049
    assert_eq!(sin(0x4120_0000), 0xbf0b_45d4);
    // sin(-10.0) = 0.5440335869789124
    assert_eq!(sin(0xc120_0000), 0x3f0b_45c9);
    // sin(0.5) = 0.4794352054595947
    assert_eq!(sin(0x3f00_0000), 0x3ef5_7888);
}

#[test]
fn sinh_gives_exact_values() {
    // sinh(0.0) = 0.0
    assert_eq!(sinh(0x0000_0000), 0x0000_0000);
    // sinh(1.0) = 1.1978912353515625
    assert_eq!(sinh(0x3f80_0000), 0x3f99_5480);
    // sinh(-1.0) = -1.1978912353515625
    assert_eq!(sinh(0xbf80_0000), 0xbf99_5480);
    // sinh(2.0) = 3.5900769233703613
    assert_eq!(sinh(0x4000_0000), 0x4065_c3d2);
    // sinh(0.5) = 0.5266819000244141
    assert_eq!(sinh(0x3f00_0000), 0x3f06_d4a0);
}

#[test]
fn sqrt_gives_exact_values() {
    // sqrt(4.0) = 2.0003418922424316
    assert_eq!(sqrt(0x4080_0000), 0x4000_059a);
    // sqrt(2.0) = 1.4150385856628418
    assert_eq!(sqrt(0x4000_0000), 0x3fb5_1ffc);
    // sqrt(1.0) = 1.0001709461212158
    assert_eq!(sqrt(0x3f80_0000), 0x3f80_059a);
    // sqrt(0.25) = 0.5000854730606079
    assert_eq!(sqrt(0x3e80_0000), 0x3f00_059a);
    // sqrt(100.0) = 10.000093460083008
    assert_eq!(sqrt(0x42c8_0000), 0x4120_0062);
    // sqrt(1.000000013351432e-10) = 1.0000389920605812e-05
    assert_eq!(sqrt(0x2edb_e6ff), 0x3727_c759);
    // sqrt(10000000000.0) = 100008.109375
    assert_eq!(sqrt(0x5015_02f9), 0x47c3_540e);
    // sqrt(0.0) = 3.966428618654655e-20
    assert_eq!(sqrt(0x0000_0000), 0x1f3b_4f2e);
    // sqrt(3.0) = 1.7321528196334839
    assert_eq!(sqrt(0x4040_0000), 0x3fdd_b72f);
}

#[test]
fn sqrt_refined_gives_exact_values() {
    // sqrt_refined(4.0) = 2.0
    assert_eq!(sqrt_refined(0x4080_0000), 0x4000_0000);
    // sqrt_refined(2.0) = 1.41421377658844
    assert_eq!(sqrt_refined(0x4000_0000), 0x3fb5_04f5);
    // sqrt_refined(1.0) = 1.0
    assert_eq!(sqrt_refined(0x3f80_0000), 0x3f80_0000);
    // sqrt_refined(0.25) = 0.5
    assert_eq!(sqrt_refined(0x3e80_0000), 0x3f00_0000);
    // sqrt_refined(100.0) = 10.0
    assert_eq!(sqrt_refined(0x42c8_0000), 0x4120_0000);
    // sqrt_refined(1.000000013351432e-10) = 9.999999747378752e-06
    assert_eq!(sqrt_refined(0x2edb_e6ff), 0x3727_c5ac);
    // sqrt_refined(10000000000.0) = 100000.0
    assert_eq!(sqrt_refined(0x5015_02f9), 0x47c3_5000);
    // sqrt_refined(3.0) = 1.732050895690918
    assert_eq!(sqrt_refined(0x4040_0000), 0x3fdd_b3d8);
}

#[test]
fn tan_gives_exact_values() {
    // tan(0.0) = 0.0
    assert_eq!(tan(0x0000_0000), 0x0000_0000);
    // tan(0.5) = 0.5463076233863831
    assert_eq!(tan(0x3f00_0000), 0x3f0b_dad1);
    // tan(-0.5) = -0.5463076233863831
    assert_eq!(tan(0xbf00_0000), 0xbf0b_dad1);
    // tan(1.0) = 1.5573844909667969
    assert_eq!(tan(0x3f80_0000), 0x3fc7_5860);
    // tan(1.5) = 14.103913307189941
    assert_eq!(tan(0x3fc0_0000), 0x4161_a9a1);
    // tan(3.0) = -0.14254580438137054
    assert_eq!(tan(0x4040_0000), 0xbe11_f787);
    // tan(-4.0) = -1.1578214168548584
    assert_eq!(tan(0xc080_0000), 0xbf94_337e);
}

#[test]
fn tanh_gives_exact_values() {
    // tanh(0.0) = 0.0
    assert_eq!(tanh(0x0000_0000), 0x0000_0000);
    // tanh(0.5) = 0.4226531386375427
    assert_eq!(tanh(0x3f00_0000), 0x3ed8_65fe);
    // tanh(-0.5) = -0.4226531386375427
    assert_eq!(tanh(0xbf00_0000), 0xbed8_65fe);
    // tanh(1.0) = 0.7597078084945679
    assert_eq!(tanh(0x3f80_0000), 0x3f42_7c36);
    // tanh(-1.0) = -0.7597078084945679
    assert_eq!(tanh(0xbf80_0000), 0xbf42_7c36);
    // tanh(2.0) = 0.9614020586013794
    assert_eq!(tanh(0x4000_0000), 0x3f76_1e72);
    // tanh(0.9900000095367432) = 0.6908289194107056
    assert_eq!(tanh(0x3f7d_70a4), 0x3f30_da2a);
    // tanh(5.0) = 0.9986118674278259
    assert_eq!(tanh(0x40a0_0000), 0x3f7f_a507);
}

#[test]
fn trunc_gives_exact_values() {
    // trunc(2.700000047683716) = 2.0
    assert_eq!(trunc(0x402c_cccd), 0x4000_0000);
    // trunc(-2.700000047683716) = -2.0
    assert_eq!(trunc(0xc02c_cccd), 0xc000_0000);
    // trunc(0.5) = 0.0
    assert_eq!(trunc(0x3f00_0000), 0x0000_0000);
    // trunc(-0.5) = 0.0
    assert_eq!(trunc(0xbf00_0000), 0x0000_0000);
    // trunc(123456.7890625) = 123456.0
    assert_eq!(trunc(0x47f1_2065), 0x47f1_2000);
    // trunc(-8388607.5) = -8388607.0
    assert_eq!(trunc(0xcaff_ffff), 0xcaff_fffe);
    // trunc(3000000000.0) = 2147483648.0
    assert_eq!(trunc(0x4f32_d05e), 0x4f00_0000);
    // trunc(-3000000000.0) = -2147483648.0
    assert_eq!(trunc(0xcf32_d05e), 0xcf00_0000);
    // trunc(16777216.0) = 16777216.0
    assert_eq!(trunc(0x4b80_0000), 0x4b80_0000);
}

#[test]
fn atan2_gives_exact_values() {
    // atan2(1.0, 1.0) = 0.785194993019104
    assert_eq!(atan2(0x3f80_0000, 0x3f80_0000), 0x3f49_028a);
    // atan2(1.0, -1.0) = 2.3563976287841797
    assert_eq!(atan2(0x3f80_0000, 0xbf80_0000), 0x4016_cf38);
    // atan2(-1.0, -1.0) = -2.3563976287841797
    assert_eq!(atan2(0xbf80_0000, 0xbf80_0000), 0xc016_cf38);
    // atan2(-1.0, 1.0) = -0.785194993019104
    assert_eq!(atan2(0xbf80_0000, 0x3f80_0000), 0xbf49_028a);
    // atan2(0.0, 1.0) = 0.0
    assert_eq!(atan2(0x0000_0000, 0x3f80_0000), 0x0000_0000);
    // atan2(0.0, -1.0) = 3.1415927410125732
    assert_eq!(atan2(0x0000_0000, 0xbf80_0000), 0x4049_0fdb);
    // atan2(1.0, 0.0) = 1.5707963705062866
    assert_eq!(atan2(0x3f80_0000, 0x0000_0000), 0x3fc9_0fdb);
    // atan2(-1.0, 0.0) = -1.5707963705062866
    assert_eq!(atan2(0xbf80_0000, 0x0000_0000), 0xbfc9_0fdb);
    // atan2(2.0, 3.0) = 0.5878515839576721
    assert_eq!(atan2(0x4000_0000, 0x4040_0000), 0x3f16_7d71);
    // atan2(3.0, 2.0) = 0.9829447865486145
    assert_eq!(atan2(0x4040_0000, 0x4000_0000), 0x3f7b_a245);
    // atan2(-0.5, 4.0) = -0.1243649497628212
    assert_eq!(atan2(0xbf00_0000, 0x4080_0000), 0xbdfe_b30d);
}

#[test]
fn max_gives_exact_values() {
    // max(1.0, 2.0) = 2.0
    assert_eq!(max(0x3f80_0000, 0x4000_0000), 0x4000_0000);
    // max(2.0, 1.0) = 2.0
    assert_eq!(max(0x4000_0000, 0x3f80_0000), 0x4000_0000);
    // max(-0.0, 0.0) = 0.0
    assert_eq!(max(0x8000_0000, 0x0000_0000), 0x0000_0000);
    // max(0.0, -0.0) = -0.0
    assert_eq!(max(0x0000_0000, 0x8000_0000), 0x8000_0000);
    // max(-1.0, -2.0) = -1.0
    assert_eq!(max(0xbf80_0000, 0xc000_0000), 0xbf80_0000);
}

#[test]
fn min_gives_exact_values() {
    // min(1.0, 2.0) = 1.0
    assert_eq!(min(0x3f80_0000, 0x4000_0000), 0x3f80_0000);
    // min(2.0, 1.0) = 1.0
    assert_eq!(min(0x4000_0000, 0x3f80_0000), 0x3f80_0000);
    // min(-0.0, 0.0) = 0.0
    assert_eq!(min(0x8000_0000, 0x0000_0000), 0x0000_0000);
    // min(0.0, -0.0) = -0.0
    assert_eq!(min(0x0000_0000, 0x8000_0000), 0x8000_0000);
    // min(-1.0, -2.0) = -2.0
    assert_eq!(min(0xbf80_0000, 0xc000_0000), 0xc000_0000);
}

#[test]
fn modulo_gives_exact_values() {
    // modulo(5.5, 2.0) = 1.5
    assert_eq!(modulo(0x40b0_0000, 0x4000_0000), 0x3fc0_0000);
    // modulo(-5.5, 2.0) = 0.5
    assert_eq!(modulo(0xc0b0_0000, 0x4000_0000), 0x3f00_0000);
    // modulo(5.5, -2.0) = -0.5
    assert_eq!(modulo(0x40b0_0000, 0xc000_0000), 0xbf00_0000);
    // modulo(-5.5, -2.0) = -1.5
    assert_eq!(modulo(0xc0b0_0000, 0xc000_0000), 0xbfc0_0000);
    // modulo(7.0, 6.2831854820251465) = 0.7168145179748535
    assert_eq!(modulo(0x40e0_0000, 0x40c9_0fdb), 0x3f37_8128);
    // modulo(-1.0, 6.2831854820251465) = 5.2831854820251465
    assert_eq!(modulo(0xbf80_0000, 0x40c9_0fdb), 0x40a9_0fdb);
    // modulo(10.0, 3.0) = 1.0
    assert_eq!(modulo(0x4120_0000, 0x4040_0000), 0x3f80_0000);
}

#[test]
fn clamp_gives_exact_values() {
    // clamp(0.5, 0.0, 1.0) = 0.5
    assert_eq!(clamp(0x3f00_0000, 0x0000_0000, 0x3f80_0000), 0x3f00_0000);
    // clamp(-0.5, 0.0, 1.0) = 0.0
    assert_eq!(clamp(0xbf00_0000, 0x0000_0000, 0x3f80_0000), 0x0000_0000);
    // clamp(1.5, 0.0, 1.0) = 1.0
    assert_eq!(clamp(0x3fc0_0000, 0x0000_0000, 0x3f80_0000), 0x3f80_0000);
    // clamp(0.0, 0.0, 1.0) = 0.0
    assert_eq!(clamp(0x0000_0000, 0x0000_0000, 0x3f80_0000), 0x0000_0000);
    // clamp(1.0, 0.0, 1.0) = 1.0
    assert_eq!(clamp(0x3f80_0000, 0x0000_0000, 0x3f80_0000), 0x3f80_0000);
    // clamp(-0.0, 0.0, 1.0) = 0.0
    assert_eq!(clamp(0x8000_0000, 0x0000_0000, 0x3f80_0000), 0x0000_0000);
    // clamp(5.0, -2.0, -1.0) = -1.0
    assert_eq!(clamp(0x40a0_0000, 0xc000_0000, 0xbf80_0000), 0xbf80_0000);
}
