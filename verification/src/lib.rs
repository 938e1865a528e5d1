//! Approximate single-precision mathematics on IEEE-754 binary32 bit patterns.
//!
//! Every value is a `u32` holding the 32 bits of a single-precision number:
//! one sign bit, eight exponent bits and twenty-three fraction bits. A caller
//! with an `f32` passes `to_bits()` and reads the result with `from_bits()`.
//!
//! The functions are quick approximations built from integer arithmetic on
//! the bit pattern, short polynomials and one or two Newton steps. None of
//! them fails: an argument outside a function's domain gives a number of no
//! meaning. The contract of each function names its result exactly, bit for
//! bit, as a composition of correctly rounded operations.
//!
//! - `encoding` says what number a bit pattern stands for.
//! - `nearest` defines rounding to the nearest representable value, ties to
//!   even, and holds the one routine that performs it.
//! - `arith` holds addition, subtraction, multiplication, division,
//!   comparison and the conversions to and from integers, each proved to give
//!   the exact result rounded to nearest.
//! - `bits`, `rounding`, `select`, `roots`, `trig` and `exponential` hold the
//!   functions themselves.
//! - `laws` states what holds of the functions for every argument; `whole`,
//!   `fraction`, `halves`, `mirror` and `roundtrip` hold the proofs.

pub mod encoding;
pub mod nearest;
pub mod arith;
pub mod bits;
pub mod rounding;
pub mod select;
pub mod roots;
pub mod trig;
pub mod exponential;
pub mod whole;
pub mod fraction;
pub mod halves;
pub mod mirror;
pub mod roundtrip;
pub mod laws;

pub use bits::{abs, sign};
pub use exponential::{cosh, exp, exp2, exp2_refined, log2, log2_refined, sinh, tanh};
pub use roots::{cbrt, rsqrt, rsqrt_refined, sqrt, sqrt_refined};
pub use rounding::{ceil, floor, fract, modulo, round, trunc};
pub use select::{clamp, max, min};
pub use trig::{acos, asin, atan2, cos, sin, tan};
