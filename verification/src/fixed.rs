//! Attribute values as fixed-point numbers.
//!
//! An attribute value counts ticks of 2^-24. Equality up to rounding is equality up
//! to [`EPSILON`] ticks, which is 2^-23.

use vstd::prelude::*;

verus! {

/// The number of ticks in one unit.
pub const ONE: i64 = 16777216;

/// The distance, in ticks, from which on two values count as different.
pub const EPSILON: i64 = 2;

/// The distance between two values.
pub open spec fn distance(a: i64, b: i64) -> int {
    if a <= b {
        b - a
    } else {
        a - b
    }
}

/// Whether two values are equal up to rounding.
pub open spec fn near(a: i64, b: i64) -> bool {
    distance(a, b) < EPSILON
}

/// Tells whether two values are equal up to rounding.
pub fn is_near(a: i64, b: i64) -> (r: bool)
    ensures
        r == near(a, b),
{
    let gap: i128 = a as i128 - b as i128;
    -(EPSILON as i128) < gap && gap < EPSILON as i128
}

/// Tells whether two values are further apart than rounding explains.
pub fn is_apart(a: i64, b: i64) -> (r: bool)
    ensures
        r == (distance(a, b) > EPSILON),
{
    let gap: i128 = a as i128 - b as i128;
    gap < -(EPSILON as i128) || gap > EPSILON as i128
}

/// The category that a value of a categorical attribute stands for: its whole part,
/// or the first category where the value is negative.
pub open spec fn category_of(value: i64) -> int {
    if value < 0 {
        0
    } else {
        value as int / ONE as int
    }
}

/// Computes the category that a value stands for.
pub fn category(value: i64) -> (r: u64)
    ensures
        r == category_of(value),
{
    if value < 0 {
        0
    } else {
        (value / ONE) as u64
    }
}

} // verus!
