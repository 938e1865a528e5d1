//! Choosing between numbers by comparison.

use vstd::prelude::*;
use crate::arith::{at_most, less, less_than, same_number};

verus! {

/// The first number where it is less than the second, else the second.
pub open spec fn spec_min(a: u32, b: u32) -> u32 {
    if less_than(a, b) {
        a
    } else {
        b
    }
}

/// The first number where it is greater than the second, else the second.
pub open spec fn spec_max(a: u32, b: u32) -> u32 {
    if less_than(b, a) {
        a
    } else {
        b
    }
}

/// The number held between a lower and an upper bound.
pub open spec fn spec_clamp(x: u32, a: u32, b: u32) -> u32 {
    spec_min(spec_max(x, a), b)
}

/// The smaller of two numbers; the second where they do not compare.
#[verifier::when_used_as_spec(spec_min)]
pub fn min(a: u32, b: u32) -> (r: u32)
    ensures
        r == spec_min(a, b),
        r == a || r == b,
        at_most(a, a) && at_most(b, b) ==> at_most(r, a) && at_most(r, b),
{
    if less(a, b) {
        a
    } else {
        b
    }
}

/// The larger of two numbers; the second where they do not compare.
#[verifier::when_used_as_spec(spec_max)]
pub fn max(a: u32, b: u32) -> (r: u32)
    ensures
        r == spec_max(a, b),
        r == a || r == b,
        at_most(a, a) && at_most(b, b) ==> at_most(a, r) && at_most(b, r),
{
    if less(b, a) {
        a
    } else {
        b
    }
}

/// Holds `x` between `a` and `b`: `min(max(x, a), b)`. Where `a` is not
/// above `b`, the result lies between them whatever `x` is, and it is the
/// number of `x` where that lies between them already.
#[verifier::when_used_as_spec(spec_clamp)]
pub fn clamp(x: u32, a: u32, b: u32) -> (r: u32)
    ensures
        r == spec_clamp(x, a, b),
        r == x || r == a || r == b,
        at_most(a, b) ==> at_most(a, r) && at_most(r, b),
        at_most(a, b) && at_most(a, x) && at_most(x, b) ==> same_number(r, x),
        less_than(a, x) && less_than(x, b) ==> r == x,
{
    min(max(x, a), b)
}

} // verus!
