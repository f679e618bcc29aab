//! What is known of a training set as a whole.

use crate::fixed::ONE;
use crate::sample::{count_plus, plus, rows, Sample};
use vstd::prelude::*;

verus! {

/// How an attribute can be split.
#[derive(Clone, Copy, Debug, PartialEq, Eq, Structural)]
pub enum AttributeType {
    /// Values on a scale.
    Numerical,
    /// Values that stand for categories.
    Categorical,
}

/// Facts about a training set.
pub trait Dataset {
    /// The number of samples.
    spec fn records(&self) -> int;

    /// The number of positive samples.
    spec fn positives(&self) -> int;

    /// The smallest and the largest value of each attribute.
    spec fn attribute_ranges(&self) -> Seq<(i64, i64)>;

    /// The type of each attribute.
    spec fn attribute_types(&self) -> Seq<AttributeType>;

    /// The number of samples.
    fn num_records(&self) -> (r: usize)
        ensures
            r == self.records(),
    ;

    /// The number of positive samples.
    fn num_plus(&self) -> (r: usize)
        ensures
            r == self.positives(),
    ;

    /// The number of attributes, as an 8-bit number.
    fn num_attributes(&self) -> (r: u8)
        ensures
            r == self.attribute_ranges().len() as u8,
    ;

    /// The smallest and the largest value of an attribute.
    fn attribute_range(&self, index: u8) -> (r: (i64, i64))
        requires
            index < self.attribute_ranges().len(),
        ensures
            r == self.attribute_ranges()[index as int],
    ;

    /// The type of an attribute.
    fn attribute_type(&self, index: u8) -> (r: AttributeType)
        requires
            index < self.attribute_types().len(),
        ensures
            r == self.attribute_types()[index as int],
    ;

    /// The number of negative samples.
    fn num_minus(&self) -> (r: usize)
        requires
            self.positives() <= self.records(),
        ensures
            r == self.records() - self.positives(),
    {
        self.num_records() - self.num_plus()
    }
}

/// Facts about a training set, kept in vectors.
#[derive(Clone, Debug)]
pub struct ArrayDataset {
    num_records: usize,
    num_plus: usize,
    ranges: Vec<(i64, i64)>,
    types: Vec<AttributeType>,
}

/// Whether a pair holds the smallest and the largest value of an attribute. Without
/// samples the smallest value stays at the top of the scale and the largest at the
/// bottom.
pub open spec fn is_range<S: Sample>(samples: Seq<S>, attribute: int, range: (i64, i64)) -> bool {
    &&& forall|i: int|
        0 <= i < samples.len() ==> range.0 <= (#[trigger] samples[i].data()).values[attribute]
            <= range.1
    &&& if samples.len() == 0 {
        range == (i64::MAX, i64::MIN)
    } else {
        &&& exists|i: int|
            0 <= i < samples.len() && (#[trigger] samples[i].data()).values[attribute] == range.0
        &&& exists|i: int|
            0 <= i < samples.len() && (#[trigger] samples[i].data()).values[attribute] == range.1
    }
}

/// Finds the smallest and the largest value of an attribute.
pub fn range_of<S: Sample>(samples: &[S], attribute: u8) -> (r: (i64, i64))
    requires
        forall|i: int|
            0 <= i < samples@.len() ==> attribute < (#[trigger] samples@[i].data()).values.len(),
    ensures
        is_range(samples@, attribute as int, r),
{
    let mut low: i64 = i64::MAX;
    let mut high: i64 = i64::MIN;
    let mut i: usize = 0;
    while i < samples.len()
        invariant
            i <= samples@.len(),
            forall|i: int|
                0 <= i < samples@.len() ==> attribute < (
                #[trigger] samples@[i].data()).values.len(),
            i == 0 ==> low == i64::MAX && high == i64::MIN,
            forall|j: int|
                0 <= j < i ==> low <= (#[trigger] samples@[j].data()).values[attribute as int]
                    <= high,
            i > 0 ==> exists|j: int|
                0 <= j < i && (#[trigger] samples@[j].data()).values[attribute as int] == low,
            i > 0 ==> exists|j: int|
                0 <= j < i && (#[trigger] samples@[j].data()).values[attribute as int] == high,
        decreases samples@.len() - i,
    {
        let v: i64 = samples[i].attribute_value(attribute);
        let ghost old_low = low;
        let ghost old_high = high;
        if v < low {
            low = v;
        }
        if v > high {
            high = v;
        }
        proof {
            assert(samples@[i as int].data().values[attribute as int] == v);
            if i > 0 {
                let a = choose|j: int|
                    0 <= j < i && (#[trigger] samples@[j].data()).values[attribute as int]
                        == old_low;
                let b = choose|j: int|
                    0 <= j < i && (#[trigger] samples@[j].data()).values[attribute as int]
                        == old_high;
                assert(samples@[a].data().values[attribute as int] == old_low);
                assert(samples@[b].data().values[attribute as int] == old_high);
                assert(exists|j: int|
                    0 <= j < i + 1 && (#[trigger] samples@[j].data()).values[attribute as int]
                        == low);
                assert(exists|j: int|
                    0 <= j < i + 1 && (#[trigger] samples@[j].data()).values[attribute as int]
                        == high);
            } else {
                assert(low == v && high == v);
            }
        }
        i = i + 1;
    }
    (low, high)
}

impl ArrayDataset {
    /// Facts that are known beforehand.
    pub fn new(
        num_records: usize,
        num_plus: usize,
        ranges: Vec<(i64, i64)>,
        types: Vec<AttributeType>,
    ) -> (r: Self)
        requires
            ranges@.len() == types@.len(),
        ensures
            r.records() == num_records,
            r.positives() == num_plus,
            r.attribute_ranges() == ranges@,
            r.attribute_types() == types@,
    {
        ArrayDataset { num_records, num_plus, ranges, types }
    }

    /// Facts that are read off the samples. Every attribute counts as numerical;
    /// without samples every attribute ranges from zero to one.
    pub fn from_samples<S: Sample>(samples: &[S], num_attributes: u8) -> (r: Self)
        requires
            forall|i: int|
                0 <= i < samples@.len() ==> num_attributes <= (
                #[trigger] samples@[i].data()).values.len(),
        ensures
            r.records() == samples@.len(),
            r.positives() == plus(rows(samples@)).len(),
            r.attribute_types() == Seq::new(
                num_attributes as nat,
                |i: int| AttributeType::Numerical,
            ),
            r.attribute_ranges().len() == num_attributes,
            forall|a: int|
                0 <= a < num_attributes ==> if samples@.len() == 0 {
                    #[trigger] r.attribute_ranges()[a] == (0i64, ONE)
                } else {
                    is_range(samples@, a, r.attribute_ranges()[a])
                },
    {
        let num_plus: usize = count_plus(samples);
        let mut ranges: Vec<(i64, i64)> = Vec::new();
        let mut types: Vec<AttributeType> = Vec::new();
        let mut a: u8 = 0;
        while a < num_attributes
            invariant
                a <= num_attributes,
                forall|i: int|
                    0 <= i < samples@.len() ==> num_attributes <= (
                    #[trigger] samples@[i].data()).values.len(),
                ranges@.len() == a,
                types@ == Seq::new(a as nat, |i: int| AttributeType::Numerical),
                forall|b: int|
                    0 <= b < a ==> if samples@.len() == 0 {
                        #[trigger] ranges@[b] == (0i64, ONE)
                    } else {
                        is_range(samples@, b, ranges@[b])
                    },
            decreases num_attributes - a,
        {
            let range = if samples.len() == 0 {
                (0, ONE)
            } else {
                range_of(samples, a)
            };
            ranges.push(range);
            types.push(AttributeType::Numerical);
            assert(types@ =~= Seq::new((a + 1) as nat, |i: int| AttributeType::Numerical));
            a = a + 1;
        }
        ArrayDataset { num_records: samples.len(), num_plus, ranges, types }
    }

    /// Changes the type of an attribute.
    pub fn set_attribute_type(&mut self, index: u8, attr_type: AttributeType)
        requires
            index < old(self).attribute_types().len(),
        ensures
            final(self).attribute_types() == old(self).attribute_types().update(
                index as int,
                attr_type,
            ),
            final(self).attribute_ranges() == old(self).attribute_ranges(),
            final(self).records() == old(self).records(),
            final(self).positives() == old(self).positives(),
    {
        self.types[index as usize] = attr_type;
    }
}

impl Dataset for ArrayDataset {
    closed spec fn records(&self) -> int {
        self.num_records as int
    }

    closed spec fn positives(&self) -> int {
        self.num_plus as int
    }

    closed spec fn attribute_ranges(&self) -> Seq<(i64, i64)> {
        self.ranges@
    }

    closed spec fn attribute_types(&self) -> Seq<AttributeType> {
        self.types@
    }

    fn num_records(&self) -> (r: usize) {
        self.num_records
    }

    fn num_plus(&self) -> (r: usize) {
        self.num_plus
    }

    #[verifier::truncate]
    fn num_attributes(&self) -> (r: u8) {
        self.ranges.len() as u8
    }

    fn attribute_range(&self, index: u8) -> (r: (i64, i64)) {
        self.ranges[index as usize]
    }

    fn attribute_type(&self, index: u8) -> (r: AttributeType) {
        self.types[index as usize]
    }
}

} // verus!
