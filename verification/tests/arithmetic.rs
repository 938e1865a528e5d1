//! The software arithmetic against the machine's own single-precision
//! arithmetic, on edge cases and on a pseudo-random sweep of bit patterns.

use approxmath::arith::{
    divide, from_signed, from_unsigned, less, minus, negate, plus, signed, split, times,
    to_signed, to_unsigned,
};
use approxmath::nearest::{bit_length, power_of_two};

const EDGES: [u32; 40] = [
    0x0000_0000, 0x8000_0000, 0x0000_0001, 0x8000_0001, 0x0000_0002, 0x007f_ffff, 0x807f_ffff,
    0x0080_0000, 0x8080_0000, 0x0080_0001, 0x00ff_ffff, 0x0100_0000, 0x3f7f_ffff, 0x3f80_0000,
    0xbf80_0000, 0x3f80_0001, 0x3f00_0000, 0x3eff_ffff, 0x4000_0000, 0x4040_0000, 0x4b00_0000,
    0x4b7f_ffff, 0x4b80_0000, 0xcb80_0000, 0x4b80_0001, 0x4f00_0000, 0xcf00_0000, 0x4f7f_ffff,
    0x4f80_0000, 0x7f7f_ffff, 0xff7f_ffff, 0x7f80_0000, 0xff80_0000, 0x7fc0_0000, 0xffc0_0000,
    0x7f80_0001, 0x3300_0000, 0x3380_0000, 0x3400_0000, 0x7f00_0000,
];

fn same(got: u32, want: f32) -> bool {
    if want.is_nan() {
        (got & 0x7fff_ffff) > 0x7f80_0000
    } else {
        got == want.to_bits()
    }
}

struct Sweep {
    state: u64,
}

impl Sweep {
    fn next(&mut self) -> u32 {
        self.state = self.state.wrapping_mul(6364136223846793005).wrapping_add(1442695040888963407);
        (self.state >> 32) as u32
    }

    /// A pattern whose exponent stays near that of `near`, so that sums and
    /// differences cancel and round.
    fn close_to(&mut self, near: u32) -> u32 {
        let e = ((near >> 23) & 0xff) as i32 + (self.next() % 60) as i32 - 30;
        let e = e.clamp(0, 254) as u32;
        (self.next() & 0x807f_ffff) | (e << 23)
    }
}

fn check_pair(a: u32, b: u32) {
    let x = f32::from_bits(a);
    let y = f32::from_bits(b);
    assert!(same(plus(a, b), x + y), "{:#x} + {:#x} gave {:#x}", a, b, plus(a, b));
    assert!(same(minus(a, b), x - y), "{:#x} - {:#x} gave {:#x}", a, b, minus(a, b));
    assert!(same(times(a, b), x * y), "{:#x} * {:#x} gave {:#x}", a, b, times(a, b));
    assert!(same(divide(a, b), x / y), "{:#x} / {:#x} gave {:#x}", a, b, divide(a, b));
    assert_eq!(less(a, b), x < y, "{:#x} < {:#x}", a, b);
}

#[test]
fn edge_pairs_match_the_machine() {
    for &a in EDGES.iter() {
        for &b in EDGES.iter() {
            check_pair(a, b);
        }
    }
}

#[test]
fn random_pairs_match_the_machine() {
    let mut sweep = Sweep { state: 0x1234_5678_9abc_def0 };
    for _ in 0..60000 {
        let a = sweep.next();
        let b = sweep.next();
        check_pair(a, b);
    }
}

#[test]
fn nearby_pairs_match_the_machine() {
    let mut sweep = Sweep { state: 0x0fed_cba9_8765_4321 };
    for _ in 0..60000 {
        let a = sweep.next();
        let b = sweep.close_to(a);
        check_pair(a, b);
    }
}

#[test]
fn edges_against_random_match_the_machine() {
    let mut sweep = Sweep { state: 42 };
    for &a in EDGES.iter() {
        for _ in 0..500 {
            let b = sweep.next();
            check_pair(a, b);
            check_pair(b, a);
        }
    }
}

#[test]
fn conversions_match_the_machine() {
    let mut sweep = Sweep { state: 7 };
    let mut patterns: Vec<u32> = EDGES.to_vec();
    for _ in 0..100000 {
        patterns.push(sweep.next());
    }
    for &a in patterns.iter() {
        let x = f32::from_bits(a);
        assert_eq!(to_signed(a), x as i32, "{:#x} as i32", a);
        assert_eq!(to_unsigned(a), x as u32, "{:#x} as u32", a);
        assert_eq!(from_unsigned(a), (a as f32).to_bits(), "{} as f32", a);
        assert_eq!(from_signed(a as i32), ((a as i32) as f32).to_bits(), "{} as f32", a as i32);
        assert_eq!(negate(a), (-x).to_bits());
    }
    for i in -70000i32..70000 {
        assert_eq!(from_signed(i), (i as f32).to_bits());
        let near = 0x4b00_0000u32.wrapping_add(i as u32);
        assert_eq!(to_signed(near), f32::from_bits(near) as i32);
    }
}

#[test]
fn sums_round_ties_to_even() {
    // 2^24 + 1 lies halfway between 2^24 and 2^24 + 2
    assert_eq!(plus(0x4b80_0000, 0x3f80_0000), 0x4b80_0000);
    // 2^24 + 2 + 1 lies halfway between 2^24 + 2 and 2^24 + 4
    assert_eq!(plus(0x4b80_0001, 0x3f80_0000), 0x4b80_0002);
    assert_eq!(from_signed(16777217), 0x4b80_0000);
    assert_eq!(from_signed(16777219), 0x4b80_0002);
}

#[test]
fn zero_sums_take_the_sign_of_both() {
    assert_eq!(plus(0x8000_0000, 0x8000_0000), 0x8000_0000);
    assert_eq!(plus(0x8000_0000, 0x0000_0000), 0x0000_0000);
    assert_eq!(minus(0x3f80_0000, 0x3f80_0000), 0x0000_0000);
    assert_eq!(minus(0xbf80_0000, 0xbf80_0000), 0x0000_0000);
}

#[test]
fn what_has_no_number_is_the_canonical_nan() {
    assert_eq!(minus(0x7f80_0000, 0x7f80_0000), 0x7fc0_0000);
    assert_eq!(times(0x7f80_0000, 0), 0x7fc0_0000);
    assert_eq!(divide(0, 0), 0x7fc0_0000);
    assert_eq!(divide(0x7f80_0000, 0xff80_0000), 0x7fc0_0000);
    assert_eq!(plus(0x7f80_0001, 0x3f80_0000), 0x7fc0_0000);
}

#[test]
fn overflow_goes_to_infinity_and_underflow_to_zero() {
    assert_eq!(times(0x7f7f_ffff, 0x4000_0000), 0x7f80_0000);
    assert_eq!(plus(0x7f7f_ffff, 0x7f7f_ffff), 0x7f80_0000);
    assert_eq!(times(0x0000_0001, 0x3f00_0000), 0x0000_0000);
    assert_eq!(times(0x0000_0003, 0x3f00_0000), 0x0000_0002);
    assert_eq!(divide(0x3f80_0000, 0x8000_0000), 0xff80_0000);
}

#[test]
fn bit_lengths_and_powers_of_two() {
    assert_eq!(bit_length(0), 0);
    assert_eq!(bit_length(1), 1);
    assert_eq!(bit_length(0xff_ffff), 24);
    assert_eq!(bit_length(0x100_0000), 25);
    assert_eq!(bit_length(u128::MAX), 128);
    for e in 0..=126u32 {
        assert_eq!(power_of_two(e), 1u128 << e);
        assert_eq!(bit_length(power_of_two(e)), e + 1);
    }
}

#[test]
fn patterns_split_into_significand_and_scale() {
    assert_eq!(split(0), (0, 0));
    assert_eq!(split(1), (1, 0));
    assert_eq!(split(0x007f_ffff), (0x7f_ffff, 0));
    assert_eq!(split(0x0080_0000), (0x80_0000, 0));
    assert_eq!(split(0x3f80_0000), (0x80_0000, 126));
    assert_eq!(split(0x7f7f_ffff), (0xff_ffff, 253));
    assert_eq!(signed(true, 0x3f80_0000), 0xbf80_0000);
    assert_eq!(signed(false, 0x3f80_0000), 0x3f80_0000);
}
