//! What holds of splits.

use super::Split;
use crate::fixed::{category_of, near};
use vstd::prelude::*;

verus! {

/// A numerical split sends a value left that is not above the threshold: the threshold
/// itself goes left, the next value goes right, and what lies below a value that goes left
/// goes left too.
pub proof fn law_threshold_parts_values(attribute_index: u8, threshold: i64, low: i64, high: i64)
    requires
        low <= high,
    ensures
        ({
            let split = Split::Numerical { attribute_index, threshold };
            &&& split.attribute() == attribute_index
            &&& split.decides(low)
            &&& split.left(threshold)
            &&& threshold < i64::MAX ==> !split.left((threshold + 1) as i64)
            &&& split.left(high) ==> split.left(low)
            &&& split.left(low) && !split.left(high) ==> low <= threshold < high
        }),
{
}

/// The values of a category are those from its number up to the next number, in parts of
/// the fixed-point unit; negative values belong to the first category.
pub proof fn law_category_is_whole_part(value: i64, k: int)
    ensures
        value >= 0 ==> (category_of(value) == k <==> k * 16777216 <= value < (k + 1) * 16777216),
        value < 0 ==> category_of(value) == 0,
{
}

/// Values count as equal if they are not further apart than rounding brings them: that does
/// not depend on their order, nor on where they lie.
pub proof fn law_near_is_a_distance(a: i64, b: i64, c: i64, d: i64)
    ensures
        near(a, a),
        near(a, b) == near(b, a),
        a - b == c - d ==> near(a, b) == near(c, d),
        a <= b <= c && near(a, c) ==> near(a, b) && near(b, c),
{
}

/// A categorical split sends a value left whose category is in the subset: with one category
/// in the subset its values alone go left, with the other categories in the subset a value
/// goes the other way, and what goes left with a part of the subset goes left with all of
/// it.
pub proof fn law_subset_parts_categories(attribute_index: u8, subset: u64, value: i64, k: u64)
    requires
        category_of(value) < 64,
        k < 64,
    ensures
        ({
            let split = Split::Categorical { attribute_index, subset };
            let others = Split::Categorical { attribute_index, subset: !subset };
            let one = Split::Categorical { attribute_index, subset: 1u64 << k };
            let both = Split::Categorical { attribute_index, subset: subset | (1u64 << k) };
            &&& split.attribute() == attribute_index
            &&& split.decides(value)
            &&& one.left(value) <==> category_of(value) == k
            &&& others.left(value) <==> !split.left(value)
            &&& both.left(value) <==> split.left(value) || category_of(value) == k
        }),
{
    let c = category_of(value) as u64;
    assert((1u64 << k) & (1u64 << c) != 0 <==> c == k) by (bit_vector)
        requires
            c < 64,
            k < 64,
    ;
    assert((!subset) & (1u64 << c) != 0 <==> !(subset & (1u64 << c) != 0)) by (bit_vector)
        requires
            c < 64,
    ;
    assert((subset | (1u64 << k)) & (1u64 << c) != 0 <==> subset & (1u64 << c) != 0 || c == k)
        by (bit_vector)
        requires
            c < 64,
            k < 64,
    ;
}

/// A split looks at one value of a row alone.
pub proof fn law_split_looks_at_one_value(split: Split, a: Seq<i64>, b: Seq<i64>)
    requires
        split.applies(a),
        split.attribute() < b.len(),
        a[split.attribute() as int] == b[split.attribute() as int],
    ensures
        split.applies(b),
        split.routes_left(a) == split.routes_left(b),
        split.routes_left(a) == split.left(a[split.attribute() as int]),
{
}

} // verus!
