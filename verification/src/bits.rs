//! The two primitives that touch only the sign bit.

use vstd::prelude::*;
use crate::encoding::{is_negative, magnitude, with_sign};

verus! {

/// The pattern with its sign bit cleared.
pub open spec fn spec_abs(x: u32) -> u32 {
    x & 0x7fff_ffff
}

/// The pattern of one with the sign bit of `x` on it.
pub open spec fn spec_sign(x: u32) -> u32 {
    (x & 0x8000_0000) | 0x3f80_0000
}

/// The sign bit as a number: one for a negative pattern, zero otherwise.
pub open spec fn spec_sign_bit(x: u32) -> u32 {
    x >> 31
}

/// What the masks and shifts on the sign bit come to in arithmetic.
pub proof fn lemma_sign_bit_arithmetic(x: u32)
    by (bit_vector)
    ensures
        x & 0x7fff_ffff == x % 0x8000_0000,
        x & 0x7fff_ffff <= 0x7fff_ffff,
        x >> 31 == x / 0x8000_0000,
        x >> 31 <= 1,
        (x >> 31 == 1) <==> x >= 0x8000_0000,
        x >= 0x8000_0000 ==> x & 0x8000_0000 == 0x8000_0000,
        x < 0x8000_0000 ==> x & 0x8000_0000 == 0,
        x >= 0x8000_0000 ==> (x & 0x8000_0000) | 0x3f80_0000 == 0xbf80_0000,
        x < 0x8000_0000 ==> (x & 0x8000_0000) | 0x3f80_0000 == 0x3f80_0000,
{
}

/// The magnitude of a number: the same bits with the sign bit cleared. A NaN
/// stays a NaN and an infinity becomes the positive one.
#[verifier::when_used_as_spec(spec_abs)]
pub fn abs(x: u32) -> (r: u32)
    ensures
        r == spec_abs(x),
        r == magnitude(x),
        magnitude(r) == magnitude(x),
        !is_negative(r),
{
    proof {
        lemma_sign_bit_arithmetic(x);
    }
    x & 0x7fff_ffff
}

/// The sign of a number as plus or minus one: the sign bit of `x` on the
/// pattern of one. It is never zero; a negative zero gives minus one.
#[verifier::when_used_as_spec(spec_sign)]
pub fn sign(x: u32) -> (r: u32)
    ensures
        r == spec_sign(x),
        r == with_sign(is_negative(x), 0x3f80_0000),
        is_negative(r) == is_negative(x),
        magnitude(r) == 0x3f80_0000,
{
    proof {
        lemma_sign_bit_arithmetic(x);
    }
    (x & 0x8000_0000) | 0x3f80_0000
}

/// The sign bit moved to the lowest place.
#[verifier::when_used_as_spec(spec_sign_bit)]
pub fn sign_bit(x: u32) -> (r: u32)
    ensures
        r == spec_sign_bit(x),
        r <= 1,
        r == 1 <==> is_negative(x),
{
    proof {
        lemma_sign_bit_arithmetic(x);
    }
    x >> 31
}

} // verus!
