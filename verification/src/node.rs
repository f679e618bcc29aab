//! The nodes of a tree.

use crate::fraction::Fraction;
use crate::split::Split;
use crate::table::IdSet;
use vstd::prelude::*;

pub mod laws;
pub mod node_id;

verus! {

/// Whether the split of a node still has to be looked at.
#[derive(Clone, Copy, Debug, PartialEq, Eq, Structural)]
pub enum LazyTag {
    /// The node is up to date.
    Clean,
    /// Samples have come or gone; the split may no longer be the best one.
    Dirty,
    /// The node needs a new split.
    Rebuild,
}

impl Default for LazyTag {
    fn default() -> (r: Self)
        ensures
            r == LazyTag::Clean,
    {
        LazyTag::Clean
    }
}

/// A node of a tree.
pub enum Node {
    /// A node with two children.
    Internal {
        split: Split,
        lazy_tag: LazyTag,
        /// The samples that pass through the node.
        num_samples: u32,
        /// The positive ones among them.
        num_plus: u32,
        /// The place in the stream at which the split was made.
        created_at: u64,
        /// The impurity that the split left when it was made.
        split_gini: Fraction,
    },
    /// A node without children.
    Leaf {
        /// The samples in the leaf.
        num_samples: u32,
        /// The positive ones among them.
        num_plus: u32,
        /// The identifiers of the samples.
        sample_ids: IdSet,
    },
}

/// What a node is.
#[verifier::ext_equal]
pub enum NodeView {
    Internal {
        split: Split,
        lazy_tag: LazyTag,
        num_samples: u32,
        num_plus: u32,
        created_at: u64,
        split_gini: Fraction,
    },
    Leaf { num_samples: u32, num_plus: u32, sample_ids: Set<u64> },
}

impl NodeView {
    /// The number of samples.
    pub open spec fn samples(&self) -> u32 {
        match *self {
            NodeView::Internal { num_samples, .. } => num_samples,
            NodeView::Leaf { num_samples, .. } => num_samples,
        }
    }

    /// The number of positive samples.
    pub open spec fn plus(&self) -> u32 {
        match *self {
            NodeView::Internal { num_plus, .. } => num_plus,
            NodeView::Leaf { num_plus, .. } => num_plus,
        }
    }

    /// The tag of an inner node.
    pub open spec fn tag(&self) -> Option<LazyTag> {
        match *self {
            NodeView::Internal { lazy_tag, .. } => Some(lazy_tag),
            NodeView::Leaf { .. } => None,
        }
    }

    /// Whether the node is an inner one whose split has to be looked at.
    pub open spec fn pending(&self) -> bool {
        *self is Internal && self->lazy_tag != LazyTag::Clean
    }

    /// The majority among the samples; a tie is negative.
    pub open spec fn majority(&self) -> bool {
        2 * self.plus() > self.samples()
    }

    /// The node with another tag, if it has one at all.
    pub open spec fn with_tag(&self, tag: LazyTag) -> NodeView {
        match *self {
            NodeView::Internal { split, num_samples, num_plus, created_at, split_gini, .. } =>
                NodeView::Internal {
                    split,
                    lazy_tag: tag,
                    num_samples,
                    num_plus,
                    created_at,
                    split_gini,
                },
            NodeView::Leaf { num_samples, num_plus, sample_ids } => NodeView::Leaf {
                num_samples,
                num_plus,
                sample_ids,
            },
        }
    }

    /// The node with other counts.
    pub open spec fn with_counts(&self, samples: u32, plus: u32) -> NodeView {
        match *self {
            NodeView::Internal { split, lazy_tag, created_at, split_gini, .. } =>
                NodeView::Internal {
                    split,
                    lazy_tag,
                    num_samples: samples,
                    num_plus: plus,
                    created_at,
                    split_gini,
                },
            NodeView::Leaf { sample_ids, .. } => NodeView::Leaf {
                num_samples: samples,
                num_plus: plus,
                sample_ids,
            },
        }
    }

    /// The node after a sample has come. Counts stop at their upper bound.
    pub open spec fn with_sample(&self, id: u64, positive: bool) -> NodeView {
        let counted = self.with_counts(
            raised(self.samples(), true),
            raised(self.plus(), positive),
        );
        match counted {
            NodeView::Leaf { num_samples, num_plus, sample_ids } => NodeView::Leaf {
                num_samples,
                num_plus,
                sample_ids: sample_ids.insert(id),
            },
            NodeView::Internal { .. } => counted,
        }
    }

    /// The node after a sample has gone. Counts stop at zero.
    pub open spec fn without_sample(&self, id: u64, positive: bool) -> NodeView {
        let counted = self.with_counts(
            lowered(self.samples(), true),
            lowered(self.plus(), positive),
        );
        match counted {
            NodeView::Leaf { num_samples, num_plus, sample_ids } => if sample_ids.contains(id) {
                NodeView::Leaf { num_samples, num_plus, sample_ids: sample_ids.remove(id) }
            } else {
                *self
            },
            NodeView::Internal { .. } => counted,
        }
    }
}

/// A count after one more, if there is one more.
pub open spec fn raised(n: u32, more: bool) -> u32 {
    if more && n < u32::MAX {
        (n + 1) as u32
    } else {
        n
    }
}

/// A count after one less, if there is one less.
pub open spec fn lowered(n: u32, less: bool) -> u32 {
    if less && n > 0 {
        (n - 1) as u32
    } else {
        n
    }
}

/// Raises a count.
pub fn raise(n: u32, more: bool) -> (r: u32)
    ensures
        r == raised(n, more),
{
    if more && n < u32::MAX {
        n + 1
    } else {
        n
    }
}

/// Lowers a count.
pub fn lower(n: u32, less: bool) -> (r: u32)
    ensures
        r == lowered(n, less),
{
    if less && n > 0 {
        n - 1
    } else {
        n
    }
}

impl View for Node {
    type V = NodeView;

    open spec fn view(&self) -> NodeView {
        match *self {
            Node::Internal { split, lazy_tag, num_samples, num_plus, created_at, split_gini } =>
                NodeView::Internal {
                    split,
                    lazy_tag,
                    num_samples,
                    num_plus,
                    created_at,
                    split_gini,
                },
            Node::Leaf { num_samples, num_plus, sample_ids } => NodeView::Leaf {
                num_samples,
                num_plus,
                sample_ids: sample_ids@,
            },
        }
    }
}

impl Node {
    /// An inner node that is up to date.
    pub fn internal(split: Split, num_samples: u32, num_plus: u32) -> (r: Self)
        ensures
            r@ == (NodeView::Internal {
                split,
                lazy_tag: LazyTag::Clean,
                num_samples,
                num_plus,
                created_at: 0,
                split_gini: Fraction { num: 0, den: 1 },
            }),
    {
        Node::Internal {
            split,
            lazy_tag: LazyTag::Clean,
            num_samples,
            num_plus,
            created_at: 0,
            split_gini: Fraction { num: 0, den: 1 },
        }
    }

    /// An inner node that is up to date, with the impurity that its split left.
    pub fn internal_full(
        split: Split,
        num_samples: u32,
        num_plus: u32,
        split_gini: Fraction,
    ) -> (r: Self)
        ensures
            r@ == (NodeView::Internal {
                split,
                lazy_tag: LazyTag::Clean,
                num_samples,
                num_plus,
                created_at: 0,
                split_gini,
            }),
    {
        Self::internal_at(split, num_samples, num_plus, 0, split_gini)
    }

    /// An inner node that is up to date, with the place in the stream at which its split
    /// was made and the impurity that it left.
    pub fn internal_at(
        split: Split,
        num_samples: u32,
        num_plus: u32,
        created_at: u64,
        split_gini: Fraction,
    ) -> (r: Self)
        ensures
            r@ == (NodeView::Internal {
                split,
                lazy_tag: LazyTag::Clean,
                num_samples,
                num_plus,
                created_at,
                split_gini,
            }),
    {
        Node::Internal {
            split,
            lazy_tag: LazyTag::Clean,
            num_samples,
            num_plus,
            created_at,
            split_gini,
        }
    }

    /// A leaf that names no samples.
    pub fn leaf(num_samples: u32, num_plus: u32) -> (r: Self)
        ensures
            r@ == (NodeView::Leaf { num_samples, num_plus, sample_ids: Set::empty() }),
    {
        Node::Leaf { num_samples, num_plus, sample_ids: IdSet::new() }
    }

    /// A leaf.
    pub fn leaf_with_samples(num_samples: u32, num_plus: u32, sample_ids: IdSet) -> (r: Self)
        ensures
            r@ == (NodeView::Leaf { num_samples, num_plus, sample_ids: sample_ids@ }),
    {
        Node::Leaf { num_samples, num_plus, sample_ids }
    }

    /// Whether this is an inner node.
    pub fn is_internal(&self) -> (r: bool)
        ensures
            r == (self@ is Internal),
    {
        matches!(self, Node::Internal { .. })
    }

    /// Whether this is a leaf.
    pub fn is_leaf(&self) -> (r: bool)
        ensures
            r == (self@ is Leaf),
    {
        matches!(self, Node::Leaf { .. })
    }

    /// The number of samples.
    pub fn num_samples(&self) -> (r: u32)
        ensures
            r == self@.samples(),
    {
        match self {
            Node::Internal { num_samples, .. } => *num_samples,
            Node::Leaf { num_samples, .. } => *num_samples,
        }
    }

    /// The number of positive samples.
    pub fn num_plus(&self) -> (r: u32)
        ensures
            r == self@.plus(),
    {
        match self {
            Node::Internal { num_plus, .. } => *num_plus,
            Node::Leaf { num_plus, .. } => *num_plus,
        }
    }

    /// The majority among the samples; a tie is negative.
    pub fn predict(&self) -> (r: bool)
        ensures
            r == self@.majority(),
    {
        2 * self.num_plus() as u64 > self.num_samples() as u64
    }

    /// The split of an inner node.
    pub fn split(&self) -> (r: Option<&Split>)
        ensures
            match r {
                Some(s) => self@ is Internal && *s == self@->split,
                None => self@ is Leaf,
            },
    {
        match self {
            Node::Internal { split, .. } => Some(split),
            Node::Leaf { .. } => None,
        }
    }

    /// The tag of an inner node.
    pub fn lazy_tag(&self) -> (r: Option<LazyTag>)
        ensures
            r == self@.tag(),
    {
        match self {
            Node::Internal { lazy_tag, .. } => Some(*lazy_tag),
            Node::Leaf { .. } => None,
        }
    }

    /// The impurity that the split of an inner node left.
    pub fn split_gini(&self) -> (r: Option<Fraction>)
        ensures
            r == (if self@ is Internal {
                Some(self@->split_gini)
            } else {
                None
            }),
    {
        match self {
            Node::Internal { split_gini, .. } => Some(*split_gini),
            Node::Leaf { .. } => None,
        }
    }

    /// Changes the tag of an inner node; a leaf stays as it is.
    pub fn set_lazy_tag(&mut self, tag: LazyTag)
        ensures
            final(self)@ == old(self)@.with_tag(tag),
    {
        if let Node::Internal { lazy_tag, .. } = self {
            *lazy_tag = tag;
        }
    }

    /// Whether this is an inner node whose split has to be looked at.
    pub fn needs_rebuild(&self) -> (r: bool)
        ensures
            r == self@.pending(),
    {
        match self {
            Node::Internal { lazy_tag, .. } => match lazy_tag {
                LazyTag::Clean => false,
                LazyTag::Dirty => true,
                LazyTag::Rebuild => true,
            },
            Node::Leaf { .. } => false,
        }
    }

    /// Takes a sample out of the counts. A leaf does so only if it names the sample;
    /// says whether the counts were touched.
    pub fn remove_sample(&mut self, sample_id: u64, was_positive: bool) -> (r: bool)
        ensures
            final(self)@ == old(self)@.without_sample(sample_id, was_positive),
            r == (old(self)@ is Leaf ==> old(self)@->sample_ids.contains(sample_id)),
    {
        match self {
            Node::Leaf { num_samples, num_plus, sample_ids } => {
                if sample_ids.remove(sample_id) {
                    *num_samples = lower(*num_samples, true);
                    *num_plus = lower(*num_plus, was_positive);
                    true
                } else {
                    assert(sample_ids@ =~= old(self)@->sample_ids);
                    false
                }
            },
            Node::Internal { num_samples, num_plus, .. } => {
                *num_samples = lower(*num_samples, true);
                *num_plus = lower(*num_plus, was_positive);
                true
            },
        }
    }

    /// Adds a sample to the counts; a leaf also keeps its identifier.
    pub fn add_sample(&mut self, sample_id: u64, is_positive: bool)
        ensures
            final(self)@ == old(self)@.with_sample(sample_id, is_positive),
    {
        match self {
            Node::Leaf { num_samples, num_plus, sample_ids } => {
                sample_ids.insert(sample_id);
                *num_samples = raise(*num_samples, true);
                *num_plus = raise(*num_plus, is_positive);
            },
            Node::Internal { num_samples, num_plus, .. } => {
                *num_samples = raise(*num_samples, true);
                *num_plus = raise(*num_plus, is_positive);
            },
        }
    }
}

/// Taking out the sample that was added last gives the node back, as long as the
/// counts were not at their upper bound and a leaf did not name the sample before.
pub proof fn law_remove_undoes_add(n: NodeView, id: u64, positive: bool)
    requires
        n.samples() < u32::MAX,
        n.plus() < u32::MAX,
        n is Leaf ==> !n->sample_ids.contains(id),
    ensures
        n.with_sample(id, positive).without_sample(id, positive) == n,
{
    if n is Leaf {
        assert(n->sample_ids.insert(id).remove(id) =~= n->sample_ids);
    }
}

} // verus!
