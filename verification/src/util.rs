//! Integer helpers.

use vstd::prelude::*;

verus! {

/// The midpoint of two integers, rounded towards negative infinity.
pub open spec fn midpoint_spec(a: int, b: int) -> int {
    (a + b) / 2
}

/// The midpoint lies between its two arguments.
pub proof fn lemma_midpoint_between(a: int, b: int)
    requires
        a <= b,
    ensures
        a <= midpoint_spec(a, b) <= b,
{
}

/// Computes the midpoint of `a` and `b`, rounded towards negative infinity.
/// The sum is formed in a wider type, so no pair of arguments overflows.
pub fn midpoint(a: i64, b: i64) -> (m: i64)
    ensures
        m == midpoint_spec(a as int, b as int),
{
    let sum: i128 = a as i128 + b as i128;
    if sum >= 0 {
        (sum / 2) as i64
    } else {
        let half: i128 = (1 - sum) / 2;
        (-half) as i64
    }
}

} // verus!
