//! The question that an inner node asks of a sample.

use crate::fixed::{category, category_of};
use vstd::prelude::*;

pub mod laws;
pub mod text;

verus! {

/// Which samples go to the left child; all others go to the right one.
#[derive(Clone, Copy, Debug, PartialEq, Eq, Structural)]
pub enum Split {
    /// Values up to the threshold go left.
    Numerical { attribute_index: u8, threshold: i64 },
    /// Values whose category is in the subset go left.
    Categorical {
        attribute_index: u8,
        /// One bit for each of up to 64 categories.
        subset: u64,
    },
}

impl Split {
    /// The attribute that the split looks at.
    pub open spec fn attribute(&self) -> u8 {
        match *self {
            Split::Numerical { attribute_index, .. } => attribute_index,
            Split::Categorical { attribute_index, .. } => attribute_index,
        }
    }

    /// Whether the split can decide about a value: a category needs a bit.
    pub open spec fn decides(&self, value: i64) -> bool {
        *self is Categorical ==> category_of(value) < 64
    }

    /// Whether a value goes left.
    pub open spec fn left(&self, value: i64) -> bool {
        match *self {
            Split::Numerical { threshold, .. } => value <= threshold,
            Split::Categorical { subset, .. } => subset & (1u64 << (category_of(value) as u64)) != 0,
        }
    }

    /// Whether the split can decide about a row of values.
    pub open spec fn applies(&self, values: Seq<i64>) -> bool {
        self.attribute() < values.len() && self.decides(values[self.attribute() as int])
    }

    /// Whether a row of values goes left.
    pub open spec fn routes_left(&self, values: Seq<i64>) -> bool {
        self.left(values[self.attribute() as int])
    }

    /// A split at a threshold.
    pub fn numerical(attribute_index: u8, threshold: i64) -> (r: Self)
        ensures
            r == (Split::Numerical { attribute_index, threshold }),
    {
        Split::Numerical { attribute_index, threshold }
    }

    /// A split by category.
    pub fn categorical(attribute_index: u8, subset: u64) -> (r: Self)
        ensures
            r == (Split::Categorical { attribute_index, subset }),
    {
        Split::Categorical { attribute_index, subset }
    }

    /// The attribute that the split looks at.
    pub fn attribute_index(&self) -> (r: u8)
        ensures
            r == self.attribute(),
    {
        match self {
            Split::Numerical { attribute_index, .. } => *attribute_index,
            Split::Categorical { attribute_index, .. } => *attribute_index,
        }
    }

    /// Tells whether a value goes left.
    pub fn goes_left(&self, value: i64) -> (r: bool)
        requires
            self.decides(value),
        ensures
            r == self.left(value),
    {
        match self {
            Split::Numerical { threshold, .. } => value <= *threshold,
            Split::Categorical { subset, .. } => {
                let bit: u64 = category(value);
                (*subset & (1u64 << bit)) != 0
            },
        }
    }
}

} // verus!
