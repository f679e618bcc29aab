//! What holds of the counts of nodes.

use super::NodeView;
use vstd::prelude::*;

verus! {

/// A node votes for the class with more samples, and with equally many for the negative
/// one.
pub proof fn law_majority_has_more_samples(n: NodeView, minus: int)
    requires
        n.plus() + minus == n.samples(),
    ensures
        n.majority() <==> n.plus() > minus,
{
}

/// A sample that comes is counted, and as a positive one if it is; a leaf names it, and
/// nothing else of the node changes.
pub proof fn law_sample_is_counted(n: NodeView, id: u64, positive: bool)
    requires
        n.samples() < u32::MAX,
        n.plus() < u32::MAX,
    ensures
        ({
            let m = n.with_sample(id, positive);
            &&& m.samples() == n.samples() + 1
            &&& m.plus() == n.plus() + (if positive {
                1int
            } else {
                0
            })
            &&& m.tag() == n.tag()
            &&& n is Leaf ==> m is Leaf && forall|x: u64| #[trigger]
                m->sample_ids.contains(x) <==> x == id || n->sample_ids.contains(x)
            &&& n is Internal ==> m is Internal && m->split == n->split && m->created_at
                == n->created_at && m->split_gini == n->split_gini
        }),
{
}

/// A sample that goes is no longer counted, nor named by a leaf; a leaf that did not name
/// it stays as it is.
pub proof fn law_sample_is_no_longer_counted(n: NodeView, id: u64, positive: bool)
    requires
        n.samples() > 0,
        positive ==> n.plus() > 0,
    ensures
        ({
            let m = n.without_sample(id, positive);
            &&& n is Leaf && !n->sample_ids.contains(id) ==> m == n
            &&& !(n is Leaf && !n->sample_ids.contains(id)) ==> {
                &&& m.samples() == n.samples() - 1
                &&& m.plus() == n.plus() - (if positive {
                    1int
                } else {
                    0
                })
            }
            &&& m.tag() == n.tag()
            &&& n is Leaf ==> m is Leaf && forall|x: u64| #[trigger]
                m->sample_ids.contains(x) <==> x != id && n->sample_ids.contains(x)
            &&& n is Internal ==> m is Internal && m->split == n->split && m->created_at
                == n->created_at && m->split_gini == n->split_gini
        }),
{
}

} // verus!
