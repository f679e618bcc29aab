//! Looking at a forest.

use super::learn::all_full;
use super::DynFrsForest;
use crate::fraction::Fraction;
use crate::node::node_id::level;
use crate::sample::VecSample;
use crate::tree::DynFrsTree;
use vstd::prelude::*;

verus! {

/// How much streaming keeps.
#[derive(Clone, Copy, Debug)]
pub struct StreamingStats {
    /// The trees with streaming turned on.
    pub streaming_trees: usize,
    /// The nodes that statistics are kept of, in all trees.
    pub total_streaming_states: u64,
}

/// How large the trees are. Without trees there are no averages.
#[derive(Clone, Copy, Debug)]
pub struct TreeStats {
    pub num_trees: usize,
    pub min_depth: u32,
    pub max_depth: u32,
    pub avg_depth: Option<Fraction>,
    pub min_nodes: usize,
    pub max_nodes: usize,
    pub avg_nodes: Option<Fraction>,
}

/// Whether a number is the largest number of steps from the root to a node of a tree.
pub open spec fn is_depth(tree: DynFrsTree, d: int) -> bool {
    &&& forall|id: u64| #[trigger] tree.structure().contains_key(id) ==> level(id) <= d
    &&& if tree.structure().dom().is_empty() {
        d == 0
    } else {
        exists|id: u64| #[trigger] tree.structure().contains_key(id) && level(id) == d
    }
}

/// The smallest, the largest and the sum of some numbers.
pub open spec fn summed(list: Seq<u64>, n: int) -> int
    decreases n,
{
    if n <= 0 {
        0
    } else {
        summed(list, n - 1) + list[n - 1]
    }
}

/// The smallest of some numbers, or zero without numbers.
pub open spec fn least(list: Seq<u64>, r: int) -> bool {
    if list.len() == 0 {
        r == 0
    } else {
        list.contains(r as u64) && r <= u64::MAX && forall|i: int|
            0 <= i < list.len() ==> r <= #[trigger] list[i]
    }
}

/// The largest of some numbers, or zero without numbers.
pub open spec fn greatest(list: Seq<u64>, r: int) -> bool {
    if list.len() == 0 {
        r == 0
    } else {
        list.contains(r as u64) && 0 <= r <= u64::MAX && forall|i: int|
            0 <= i < list.len() ==> #[trigger] list[i] <= r
    }
}

/// The average of some numbers, if there are any.
pub open spec fn mean(list: Seq<u64>) -> Option<Fraction> {
    if list.len() == 0 {
        None
    } else {
        Some(Fraction { num: summed(list, list.len() as int) as i128, den: list.len() as u128 })
    }
}

/// A sum is no larger than the number of summands allows.
proof fn lemma_summed(list: Seq<u64>, n: int)
    requires
        0 <= n <= list.len(),
    ensures
        0 <= summed(list, n) <= n * u64::MAX,
    decreases n,
{
    if n > 0 {
        lemma_summed(list, n - 1);
        assert(n * u64::MAX == (n - 1) * u64::MAX + u64::MAX) by (nonlinear_arith);
    }
}

/// Finds the smallest, the largest and the average number.
fn summarize(list: &Vec<u64>) -> (r: (u64, u64, Option<Fraction>))
    ensures
        least(list@, r.0 as int),
        greatest(list@, r.1 as int),
        r.2 == mean(list@),
{
    if list.len() == 0 {
        return (0, 0, None);
    }
    let mut low: u64 = list[0];
    let mut high: u64 = list[0];
    let mut sum: u128 = 0;
    let mut i: usize = 0;
    while i < list.len()
        invariant
            i <= list@.len(),
            list@.len() > 0,
            list@.contains(low),
            list@.contains(high),
            forall|j: int| 0 <= j < i ==> low <= #[trigger] list@[j] <= high,
            sum == summed(list@, i as int),
            sum <= i * u64::MAX,
        decreases list@.len() - i,
    {
        let x: u64 = list[i];
        assert(list@.contains(list@[i as int]));
        assert(sum + x <= (i + 1) * u64::MAX <= u64::MAX * u64::MAX) by (nonlinear_arith)
            requires
                sum <= i * u64::MAX,
                x <= u64::MAX,
                i + 1 <= u64::MAX,
        ;
        if x < low {
            low = x;
        }
        if x > high {
            high = x;
        }
        sum = sum + x as u128;
        i = i + 1;
    }
    proof {
        lemma_summed(list@, list@.len() as int);
        assert(i * u64::MAX <= u64::MAX * u64::MAX) by (nonlinear_arith)
            requires
                i <= u64::MAX,
        ;
    }
    (low, high, Some(Fraction { num: sum as i128, den: list.len() as u128 }))
}

impl DynFrsForest {
    /// How often samples have asked for work: when they came, and when they went.
    pub fn rebuild_mark_counts(&self) -> (r: (u64, u64))
        ensures
            r == self.marks(),
    {
        (self.add_rebuild_marks, self.forget_rebuild_marks)
    }

    /// The number of trees.
    pub fn num_trees(&self) -> (r: usize)
        ensures
            r == self.forest().len(),
    {
        self.trees.len()
    }

    /// A tree.
    pub fn tree(&self, idx: usize) -> (r: Option<&DynFrsTree>)
        ensures
            match r {
                Some(tree) => idx < self.forest().len() && *tree == self.forest()[idx as int],
                None => idx >= self.forest().len(),
            },
    {
        if idx < self.trees.len() {
            Some(&self.trees[idx])
        } else {
            None
        }
    }

    /// A tree, to be changed in place.
    pub fn tree_mut(&mut self, idx: usize) -> (r: Option<&mut DynFrsTree>)
        ensures
            match r {
                Some(tree) => {
                    &&& idx < old(self).forest().len()
                    &&& *tree == old(self).forest()[idx as int]
                    &&& final(self).forest() == old(self).forest().update(
                        idx as int,
                        *final(tree),
                    )
                    &&& final(self).same_setting(old(self))
                    &&& final(self).members() == old(self).members()
                    &&& final(self).classes() == old(self).classes()
                    &&& final(self).marks() == old(self).marks()
                    &&& final(self).tuning() == old(self).tuning()
                },
                None => idx >= old(self).forest().len() && *final(self) == *old(self),
            },
    {
        if idx < self.trees.len() {
            Some(&mut self.trees[idx])
        } else {
            None
        }
    }

    /// Tells whether every sample has a value for each attribute, and there are no more
    /// samples than can be counted.
    pub fn accepts(&self, samples: &[VecSample]) -> (r: bool)
        ensures
            r == (samples@.len() <= u32::MAX && all_full(samples@, self.width())),
    {
        if samples.len() > 0xffff_ffff {
            return false;
        }
        let mut i: usize = 0;
        while i < samples.len()
            invariant
                i <= samples@.len(),
                forall|j: int|
                    0 <= j < i ==> (#[trigger] samples@[j]).values@.len() >= self.width(),
            decreases samples@.len() - i,
        {
            if samples[i].values.len() < self.num_attributes as usize {
                assert(samples@[i as int].values@.len() < self.width());
                return false;
            }
            i = i + 1;
        }
        true
    }

    /// How many trees a sample is put into.
    pub fn k(&self) -> (r: usize)
        ensures
            r == self.settings().k,
    {
        self.config.k
    }

    /// The number of samples.
    pub fn num_samples(&self) -> (r: usize)
        ensures
            r == self.members().len(),
    {
        assert(self.members().dom() =~= self.sample_tree_map@.dom());
        self.sample_tree_map.len()
    }

    /// Whether the forest has learnt a sample and not forgotten it.
    pub fn contains_sample(&self, sample_id: u64) -> (r: bool)
        ensures
            r == self.members().contains_key(sample_id),
    {
        self.sample_tree_map.contains_key(sample_id)
    }

    /// The class of a sample.
    pub fn get_sample_label(&self, sample_id: u64) -> (r: Option<bool>)
        ensures
            r == (if self.classes().contains_key(sample_id) {
                Some(self.classes()[sample_id])
            } else {
                None
            }),
    {
        match self.sample_labels.get(sample_id) {
            Some(label) => Some(*label),
            None => None,
        }
    }

    /// The identifiers of the samples, in any order.
    pub fn get_all_sample_ids(&self) -> (r: Vec<u64>)
        ensures
            r@.no_duplicates(),
            r@.to_set() == self.members().dom(),
    {
        let n: usize = self.sample_tree_map.len();
        let mut list: Vec<u64> = Vec::new();
        while list.len() < n
            invariant
                list@.len() <= n == self.sample_tree_map.order().len(),
                list@ == self.sample_tree_map.order().take(list@.len() as int),
            decreases n - list@.len(),
        {
            let ghost before = list@;
            list.push(self.sample_tree_map.key_at(list.len()));
            assert(list@ =~= self.sample_tree_map.order().take(list@.len() as int));
        }
        assert(list@ =~= self.sample_tree_map.order());
        assert(self.members().dom() =~= self.sample_tree_map@.dom());
        list
    }

    /// How large the trees are.
    pub fn tree_stats(&self) -> (r: TreeStats)
        requires
            self.wf(),
        ensures
            r.num_trees == self.forest().len(),
            exists|depths: Seq<u64>, sizes: Seq<u64>|
                {
                    &&& depths.len() == self.forest().len()
                    &&& sizes.len() == self.forest().len()
                    &&& forall|t: int|
                        0 <= t < depths.len() ==> is_depth(
                            self.forest()[t],
                            #[trigger] depths[t] as int,
                        )
                    &&& forall|t: int|
                        0 <= t < sizes.len() ==> #[trigger] sizes[t]
                            == self.forest()[t].structure().len()
                    &&& least(depths, r.min_depth as int)
                    &&& greatest(depths, r.max_depth as int)
                    &&& r.avg_depth == #[trigger] mean(depths)
                    &&& least(sizes, r.min_nodes as int)
                    &&& greatest(sizes, r.max_nodes as int)
                    &&& r.avg_nodes == #[trigger] mean(sizes)
                },
    {
        let mut depths: Vec<u64> = Vec::new();
        let mut sizes: Vec<u64> = Vec::new();
        while depths.len() < self.trees.len()
            invariant
                self.wf(),
                depths@.len() <= self.trees@.len(),
                sizes@.len() == depths@.len(),
                forall|t: int|
                    0 <= t < depths@.len() ==> is_depth(
                        self.forest()[t],
                        #[trigger] depths@[t] as int,
                    ),
                forall|t: int| 0 <= t < depths@.len() ==> #[trigger] depths@[t] <= u32::MAX,
                forall|t: int|
                    0 <= t < sizes@.len() ==> #[trigger] sizes@[t]
                        == self.forest()[t].structure().len(),
                forall|t: int| 0 <= t < sizes@.len() ==> #[trigger] sizes@[t] <= usize::MAX,
            decreases self.trees@.len() - depths@.len(),
        {
            let tree = &self.trees[depths.len()];
            assert(self.fits_in(self.forest()[depths@.len() as int], depths@.len() as int));
            let d: u32 = tree.depth();
            let n: usize = tree.num_nodes();
            depths.push(d as u64);
            sizes.push(n as u64);
        }
        let (min_depth, max_depth, avg_depth) = summarize(&depths);
        let (min_nodes, max_nodes, avg_nodes) = summarize(&sizes);
        proof {
            if depths@.len() > 0 {
                let i = depths@.index_of(min_depth);
                let j = depths@.index_of(max_depth);
                assert(depths@[i] <= u32::MAX && depths@[j] <= u32::MAX);
                let k = sizes@.index_of(min_nodes);
                let l = sizes@.index_of(max_nodes);
                assert(sizes@[k] <= usize::MAX && sizes@[l] <= usize::MAX);
            }
            assert(mean(depths@) == avg_depth && mean(sizes@) == avg_nodes);
        }
        TreeStats {
            num_trees: self.trees.len(),
            min_depth: min_depth as u32,
            max_depth: max_depth as u32,
            avg_depth,
            min_nodes: min_nodes as usize,
            max_nodes: max_nodes as usize,
            avg_nodes,
        }
    }

    /// Whether streaming is on in some tree.
    pub fn is_streaming(&self) -> (r: bool)
        ensures
            r == exists|t: int| 0 <= t < self.forest().len() && (#[trigger] self.forest()[t]).streams(),
    {
        let mut t: usize = 0;
        while t < self.trees.len()
            invariant
                t <= self.trees@.len(),
                forall|u: int| 0 <= u < t ==> !(#[trigger] self.trees@[u]).streams(),
            decreases self.trees@.len() - t,
        {
            if self.trees[t].is_streaming() {
                assert(self.forest()[t as int].streams());
                return true;
            }
            t = t + 1;
        }
        false
    }

    /// How much streaming keeps. The number of statistics stops at its upper bound.
    pub fn streaming_stats(&self) -> (r: StreamingStats)
        ensures
            r.streaming_trees == streaming_count(self.forest(), self.forest().len() as int),
            r.total_streaming_states == capped_sum(
                state_count(self.forest(), self.forest().len() as int),
            ),
    {
        let mut streaming_trees: usize = 0;
        let mut total: u64 = 0;
        let mut t: usize = 0;
        while t < self.trees.len()
            invariant
                t <= self.trees@.len(),
                streaming_trees <= t,
                streaming_trees == streaming_count(self.forest(), t as int),
                total == capped_sum(state_count(self.forest(), t as int)),
            decreases self.trees@.len() - t,
        {
            if self.trees[t].is_streaming() {
                streaming_trees = streaming_trees + 1;
            }
            let n: usize = self.trees[t].num_streaming_states();
            total = total.saturating_add(n as u64);
            t = t + 1;
        }
        StreamingStats { streaming_trees, total_streaming_states: total }
    }
}

/// How many of the first trees stream.
pub open spec fn streaming_count(trees: Seq<DynFrsTree>, n: int) -> nat
    decreases n,
{
    if n <= 0 {
        0
    } else {
        streaming_count(trees, n - 1) + if trees[n - 1].streams() {
            1nat
        } else {
            0nat
        }
    }
}

/// How many statistics the first trees keep.
pub open spec fn state_count(trees: Seq<DynFrsTree>, n: int) -> nat
    decreases n,
{
    if n <= 0 {
        0
    } else {
        state_count(trees, n - 1) + trees[n - 1].states().len()
    }
}

/// A sum that stops at its upper bound.
pub open spec fn capped_sum(n: nat) -> u64 {
    if n <= u64::MAX {
        n as u64
    } else {
        u64::MAX
    }
}

} // verus!
