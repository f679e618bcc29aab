//! Splits as text.

use super::Split;
use crate::text::{decimal, digits, push_decimal, push_digits};
use vstd::prelude::*;

verus! {

impl Split {
    /// The split as text.
    pub open spec fn shown(&self) -> Seq<char> {
        match *self {
            Split::Numerical { attribute_index, threshold } => "X["@ + digits(
                attribute_index as int,
                10,
            ) + "] < "@ + decimal(threshold),
            Split::Categorical { attribute_index, subset } => "X["@ + digits(
                attribute_index as int,
                10,
            ) + "] in "@ + digits(subset as int, 2),
        }
    }

    /// Writes the split as text: the attribute, and the threshold with four decimals or the
    /// subset in binary.
    pub fn to_text(&self) -> (r: String)
        ensures
            r@ == self.shown(),
    {
        let mut out = String::from_str("X[");
        match *self {
            Split::Numerical { attribute_index, threshold } => {
                push_digits(&mut out, attribute_index as u64, 10);
                out.append("] < ");
                push_decimal(&mut out, threshold);
            },
            Split::Categorical { attribute_index, subset } => {
                push_digits(&mut out, attribute_index as u64, 10);
                out.append("] in ");
                push_digits(&mut out, subset, 2);
            },
        }
        assert(out@ =~= self.shown());
        out
    }
}

} // verus!
