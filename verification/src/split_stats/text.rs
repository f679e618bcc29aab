//! Counts of splits as text.

use super::SplitStats;
use crate::text::{digits, push_digits};
use vstd::prelude::*;

verus! {

impl SplitStats {
    /// The counts as text.
    pub open spec fn shown(&self) -> Seq<char> {
        "(+L:"@ + digits(self.num_plus_left as int, 10) + ", -L:"@ + digits(
            self.num_minus_left as int,
            10,
        ) + ", +R:"@ + digits(self.num_plus_right as int, 10) + ", -R:"@ + digits(
            self.num_minus_right as int,
            10,
        ) + ")"@
    }

    /// Writes the counts as text: positive and negative ones, left and right.
    pub fn fmt(&self) -> (r: String)
        ensures
            r@ == self.shown(),
    {
        let mut out = String::from_str("(+L:");
        push_digits(&mut out, self.num_plus_left as u64, 10);
        out.append(", -L:");
        push_digits(&mut out, self.num_minus_left as u64, 10);
        out.append(", +R:");
        push_digits(&mut out, self.num_plus_right as u64, 10);
        out.append(", -R:");
        push_digits(&mut out, self.num_minus_right as u64, 10);
        out.append(")");
        out
    }
}

} // verus!
