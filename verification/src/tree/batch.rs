//! Learning and forgetting many samples at once.

use super::grow::{fitted, lemma_admits_each, Plan};
use super::lazy::unchanged;
use super::shape::{end_of, is_inner, routable, same_splits, Nodes};
use super::stream::{change_of, nodes_added, single_leaf};
use super::unlearn::{lemma_same_splits_linked, lemma_without_same_splits, nodes_without};
use super::{DynFrsTree, TreeConfig};
use crate::dataset::Dataset;
use crate::node::node_id::ROOT;
use crate::sample::{lemma_rows_empty, lemma_rows_push, listed, rows, Rows, Sample, SampleData};
use crate::streaming::StateView;
use crate::table::IdSet;
use vstd::multiset::Multiset;
use vstd::prelude::*;

verus! {

/// The share of its samples beyond which a tree is grown anew instead of forgetting them
/// one by one, in percent.
pub const REBUILD_PERCENT: usize = 33;

/// The nodes and the placement after some samples have been forgotten, one by one.
pub open spec fn all_without(
    nodes: Nodes,
    leaves: Map<u64, u64>,
    config: TreeConfig,
    list: Seq<(u64, bool)>,
) -> (Nodes, Map<u64, u64>)
    decreases list.len(),
{
    if list.len() == 0 {
        (nodes, leaves)
    } else {
        let (n, l) = all_without(nodes, leaves, config, list.drop_last());
        let (sid, positive) = list.last();
        (nodes_without(n, l, config, sid, positive), l.remove(sid))
    }
}

/// How many of some samples are there to be forgotten, each once.
pub open spec fn taken(leaves: Map<u64, u64>, list: Seq<(u64, bool)>) -> int
    decreases list.len(),
{
    if list.len() == 0 {
        0
    } else {
        let sid = list.last().0;
        taken(leaves, list.drop_last()) + if leaves.contains_key(sid) && !names(
            list.drop_last(),
            sid,
        ) {
            1int
        } else {
            0
        }
    }
}

/// Whether a list names a sample.
pub open spec fn names(list: Seq<(u64, bool)>, sid: u64) -> bool {
    exists|i: int| 0 <= i < list.len() && (#[trigger] list[i]).0 == sid
}

/// How many entries of a list name samples that are there.
pub open spec fn present(leaves: Map<u64, u64>, list: Seq<(u64, bool)>) -> int {
    list.filter(|e: (u64, bool)| leaves.contains_key(e.0)).len() as int
}

/// The samples that a tree has and a list does not name.
pub open spec fn spared(m: Rows, leaves: Map<u64, u64>, list: Seq<(u64, bool)>) -> Rows {
    m.filter(|d: SampleData| leaves.contains_key(d.id) && !names(list, d.id))
}

/// Whether a tree has been grown anew from the samples that it had and a list does not
/// name. If the list names none of them, nothing has changed.
pub open spec fn regrown_without(
    before: DynFrsTree,
    after: DynFrsTree,
    plan: Plan,
    m: Rows,
    list: Seq<(u64, bool)>,
) -> bool {
    if present(before.placement(), list) == 0 {
        unchanged(before, after)
    } else {
        &&& fitted(after, after, plan, spared(m, before.placement(), list))
        &&& after.states() == Map::<u64, StateView>::empty()
    }
}

/// What is left of the placement once some samples have been forgotten.
pub proof fn lemma_placement_without(
    nodes: Nodes,
    leaves: Map<u64, u64>,
    config: TreeConfig,
    list: Seq<(u64, bool)>,
)
    ensures
        forall|sid: u64| #[trigger]
            all_without(nodes, leaves, config, list).1.contains_key(sid) == (leaves.contains_key(
                sid,
            ) && !names(list, sid)),
    decreases list.len(),
{
    if list.len() > 0 {
        let rest = list.drop_last();
        lemma_placement_without(nodes, leaves, config, rest);
        let l = all_without(nodes, leaves, config, rest).1;
        assert forall|sid: u64| #[trigger]
            all_without(nodes, leaves, config, list).1.contains_key(sid) == (leaves.contains_key(
                sid,
            ) && !names(list, sid)) by {
            assert(l.contains_key(sid) == (leaves.contains_key(sid) && !names(rest, sid)));
            if names(rest, sid) {
                let i = choose|i: int| 0 <= i < rest.len() && (#[trigger] rest[i]).0 == sid;
                assert(list[i].0 == sid);
            }
            if sid == list.last().0 {
                assert(list[list.len() - 1].0 == sid);
            }
            if names(list, sid) && sid != list.last().0 {
                let i = choose|i: int| 0 <= i < list.len() && (#[trigger] list[i]).0 == sid;
                assert(rest[i].0 == sid);
            }
        }
    }
}

/// What learning a sample without streaming does to the nodes and the placement, and the
/// leaf where the sample ends.
pub open spec fn came(nodes: Nodes, leaves: Map<u64, u64>, states: Map<u64, StateView>, d: SampleData) -> (
    Nodes,
    Map<u64, u64>,
    Option<u64>,
) {
    if nodes.dom().is_empty() {
        (single_leaf(d), leaves.insert(d.id, ROOT), Some(ROOT))
    } else {
        let c = change_of(d, false);
        let end = end_of(nodes, d.values, ROOT);
        let after = nodes_added(nodes, states, false, c);
        if nodes.contains_key(end) {
            (after, leaves.insert(d.id, end), Some(end))
        } else {
            (after, leaves, None)
        }
    }
}

/// What learning some samples one by one does to the nodes and the placement, and the
/// leaves where they end.
pub open spec fn all_came(
    nodes: Nodes,
    leaves: Map<u64, u64>,
    states: Map<u64, StateView>,
    list: Seq<SampleData>,
) -> (Nodes, Map<u64, u64>, Seq<u64>)
    decreases list.len(),
{
    if list.len() == 0 {
        (nodes, leaves, Seq::empty())
    } else {
        let (n, l, ends) = all_came(nodes, leaves, states, list.drop_last());
        let (n1, l1, end) = came(n, l, states, list.last());
        (
            n1,
            l1,
            match end {
                Some(e) => ends.push(e),
                None => ends,
            },
        )
    }
}

/// Learning samples keeps every row routable.
proof fn lemma_came_routable(
    nodes: Nodes,
    leaves: Map<u64, u64>,
    states: Map<u64, StateView>,
    list: Seq<SampleData>,
    values: Seq<i64>,
)
    requires
        routable(nodes, values),
    ensures
        routable(all_came(nodes, leaves, states, list).0, values),
    decreases list.len(),
{
    if list.len() > 0 {
        lemma_came_routable(nodes, leaves, states, list.drop_last(), values);
        let n = all_came(nodes, leaves, states, list.drop_last()).0;
        let after = all_came(nodes, leaves, states, list).0;
        assert forall|id: u64| #[trigger] is_inner(after, id) implies after[id]->split.applies(
            values,
        ) by {
            if !n.dom().is_empty() {
                assert(is_inner(n, id));
            }
        }
    }
}

/// Forgetting samples one by one changes no split.
pub proof fn lemma_all_without_same_splits(
    nodes: Nodes,
    leaves: Map<u64, u64>,
    config: TreeConfig,
    list: Seq<(u64, bool)>,
)
    ensures
        same_splits(nodes, all_without(nodes, leaves, config, list).0),
    decreases list.len(),
{
    if list.len() > 0 {
        let rest = list.drop_last();
        lemma_all_without_same_splits(nodes, leaves, config, rest);
        let (n, l) = all_without(nodes, leaves, config, rest);
        let (sid, positive) = list.last();
        lemma_without_same_splits(n, l, config, sid, positive);
        let after = nodes_without(n, l, config, sid, positive);
        assert forall|id: u64| #[trigger] nodes.contains_key(id) implies (nodes[id] is Internal
            <==> after[id] is Internal) && (nodes[id] is Internal ==> nodes[id]->split
            == after[id]->split) by {
            assert(nodes.dom().contains(id));
            assert(n.contains_key(id));
        }
    }
}

impl DynFrsTree {
    /// Forgets some samples, one by one.
    pub fn forget_batch(&mut self, sample_ids: &[(u64, bool)])
        requires
            old(self).wf(),
        ensures
            final(self).wf(),
            final(self).same_setting(old(self)),
            final(self).source() == old(self).source(),
            final(self).states() == old(self).states(),
            (final(self).structure(), final(self).placement()) == all_without(
                old(self).structure(),
                old(self).placement(),
                old(self).limits(),
                sample_ids@,
            ),
    {
        self.forget_each(sample_ids);
    }

    /// Forgets some samples, one by one, and counts those that were there.
    fn forget_each(&mut self, sample_ids: &[(u64, bool)]) -> (r: usize)
        requires
            old(self).wf(),
        ensures
            final(self).wf(),
            final(self).same_setting(old(self)),
            final(self).source() == old(self).source(),
            final(self).states() == old(self).states(),
            (final(self).structure(), final(self).placement()) == all_without(
                old(self).structure(),
                old(self).placement(),
                old(self).limits(),
                sample_ids@,
            ),
            r == taken(old(self).placement(), sample_ids@),
    {
        let ghost nodes = self.structure();
        let ghost leaves = self.placement();
        let ghost config = self.limits();
        let mut count: usize = 0;
        let mut i: usize = 0;
        while i < sample_ids.len()
            invariant
                i <= sample_ids@.len(),
                self.wf(),
                self.same_setting(old(self)),
                self.source() == old(self).source(),
                self.states() == old(self).states(),
                config == old(self).limits(),
                (self.structure(), self.placement()) == all_without(
                    nodes,
                    leaves,
                    config,
                    sample_ids@.take(i as int),
                ),
                count == taken(leaves, sample_ids@.take(i as int)),
                count <= i,
            decreases sample_ids@.len() - i,
        {
            let (sid, positive) = sample_ids[i];
            proof {
                lemma_placement_without(nodes, leaves, config, sample_ids@.take(i as int));
                assert(sample_ids@.take(i as int + 1).drop_last() =~= sample_ids@.take(i as int));
                assert(all_without(nodes, leaves, config, sample_ids@.take(i as int)).1.contains_key(
                    sid,
                ) == self.placement().contains_key(sid));
            }
            if self.forget(sid, positive) {
                count = count + 1;
            }
            i = i + 1;
        }
        assert(sample_ids@.take(i as int) =~= sample_ids@);
        count
    }

    /// Forgets some samples, in the way that is faster: one by one, or, if they are more
    /// than a third of what the tree has, by growing the tree anew from the others. Says
    /// how many entries named samples that the tree had.
    pub fn forget_batch_optimized<D: Dataset, S: Sample>(
        &mut self,
        sample_ids: &[(u64, bool)],
        dataset: &D,
        all_samples: &[S],
    ) -> (r: usize)
        requires
            old(self).wf(),
            all_samples@.len() <= u32::MAX,
            old(self).width() <= dataset.attribute_types().len(),
            old(self).plan(dataset.attribute_types()).admits_each(all_samples@),
        ensures
            final(self).wf(),
            final(self).same_setting(old(self)),
            old(self).plan(dataset.attribute_types()).suits_all(old(self).structure()) ==> old(
                self,
            ).plan(dataset.attribute_types()).suits_all(final(self).structure()),
            forgot_many(
                *old(self),
                *final(self),
                old(self).plan(dataset.attribute_types()),
                rows(all_samples@),
                sample_ids@,
                r as int,
            ),
    {
        proof {
            lemma_admits_each(self.plan(dataset.attribute_types()), all_samples@);
        }
        if sample_ids.len() == 0 {
            return 0;
        }
        let current_samples: usize = self.sample_leaf_map.len();
        if current_samples == 0 {
            return 0;
        }
        if sample_ids.len() as u128 * 100 > current_samples as u128 * REBUILD_PERCENT as u128 {
            self.rebuild_without_samples(sample_ids, dataset, all_samples)
        } else {
            proof {
                lemma_all_without_same_splits(
                    self.structure(),
                    self.placement(),
                    self.limits(),
                    sample_ids@,
                );
            }
            let count: usize = self.forget_each(sample_ids);
            proof {
                lemma_same_splits_linked(
                    old(self).structure(),
                    self.structure(),
                    self.config.max_depth as int,
                    self.width(),
                );
            }
            count
        }
    }

    /// Grows the tree anew from the samples that it has and a list does not name. Says how
    /// many entries of the list named samples that the tree had.
    fn rebuild_without_samples<D: Dataset, S: Sample>(
        &mut self,
        samples_to_remove: &[(u64, bool)],
        dataset: &D,
        all_samples: &[S],
    ) -> (r: usize)
        requires
            old(self).wf(),
            all_samples@.len() <= u32::MAX,
            old(self).width() <= dataset.attribute_types().len(),
            old(self).plan(dataset.attribute_types()).admits_all(rows(all_samples@)),
        ensures
            final(self).wf(),
            final(self).same_setting(old(self)),
            r == present(old(self).placement(), samples_to_remove@),
            old(self).plan(dataset.attribute_types()).suits_all(old(self).structure()) ==> old(
                self,
            ).plan(dataset.attribute_types()).suits_all(final(self).structure()),
            regrown_without(
                *old(self),
                *final(self),
                old(self).plan(dataset.attribute_types()),
                rows(all_samples@),
                samples_to_remove@,
            ),
    {
        let ghost leaves = self.placement();
        let ghost plan = self.plan(dataset.attribute_types());
        let ghost list = samples_to_remove@;
        let ghost there = |e: (u64, bool)| leaves.contains_key(e.0);
        let mut exclude = IdSet::new();
        let mut removed_count: usize = 0;
        let mut i: usize = 0;
        assert(list.take(0).filter(there) =~= Seq::<(u64, bool)>::empty()) by {
            reveal(Seq::filter);
        }
        while i < samples_to_remove.len()
            invariant
                i <= samples_to_remove@.len(),
                list == samples_to_remove@,
                leaves == self.placement(),
                there == (|e: (u64, bool)| leaves.contains_key(e.0)),
                forall|sid: u64| #[trigger]
                    exclude@.contains(sid) == names(list.take(i as int), sid),
                removed_count == list.take(i as int).filter(there).len(),
                removed_count <= i,
            decreases samples_to_remove@.len() - i,
        {
            let sid: u64 = samples_to_remove[i].0;
            let ghost a = list.take(i as int);
            let ghost b = list.take(i as int + 1);
            let ghost was = exclude@;
            exclude.insert(sid);
            if self.sample_leaf_map.contains_key(sid) {
                removed_count = removed_count + 1;
            }
            proof {
                assert(b.drop_last() =~= a);
                reveal(Seq::filter);
                assert forall|x: u64| #[trigger] exclude@.contains(x) == names(b, x) by {
                    assert(was.contains(x) == names(a, x));
                    if names(a, x) {
                        let j = choose|j: int| 0 <= j < a.len() && (#[trigger] a[j]).0 == x;
                        assert(b[j].0 == x);
                    }
                    if x == sid {
                        assert(b[i as int].0 == x);
                    }
                    if names(b, x) && x != sid {
                        let j = choose|j: int| 0 <= j < b.len() && (#[trigger] b[j]).0 == x;
                        assert(a[j].0 == x);
                    }
                }
            }
            i = i + 1;
        }
        assert(list.take(i as int) =~= list);
        if removed_count == 0 {
            return 0;
        }
        let mut remaining: Vec<&S> = Vec::new();
        let ghost kept = |d: SampleData| leaves.contains_key(d.id) && !names(list, d.id);
        let mut j: usize = 0;
        proof {
            lemma_rows_empty(all_samples@.take(0));
            lemma_rows_empty(remaining@);
            assert(Multiset::<SampleData>::empty().filter(kept) =~= Multiset::empty());
        }
        while j < all_samples.len()
            invariant
                j <= all_samples@.len() <= u32::MAX,
                leaves == self.placement(),
                forall|sid: u64| #[trigger] exclude@.contains(sid) == names(list, sid),
                kept == (|d: SampleData| leaves.contains_key(d.id) && !names(list, d.id)),
                remaining@.len() <= j,
                rows(remaining@) == rows(all_samples@.take(j as int)).filter(kept),
            decreases all_samples@.len() - j,
        {
            let id: u64 = all_samples[j].id();
            let ghost before = remaining@;
            let ghost d = all_samples@[j as int].data();
            let ghost seen = rows(all_samples@.take(j as int));
            proof {
                lemma_rows_push(all_samples@, j as int);
                assert(seen.insert(d).filter(kept) =~= (if kept(d) {
                    seen.filter(kept).insert(d)
                } else {
                    seen.filter(kept)
                }));
            }
            if self.sample_leaf_map.contains_key(id) && !exclude.contains(id) {
                remaining.push(&all_samples[j]);
                proof {
                    lemma_rows_push(remaining@, before.len() as int);
                    assert(remaining@.take(before.len() as int) =~= before);
                    assert(remaining@.take(before.len() as int + 1) =~= remaining@);
                }
            }
            j = j + 1;
        }
        let ghost m = rows(all_samples@);
        assert(all_samples@.take(j as int) =~= all_samples@);
        assert(rows(remaining@) == spared(m, leaves, list));
        self.streaming_states.clear();
        assert(self.states() =~= Map::<u64, StateView>::empty());
        assert forall|d: SampleData| #[trigger] rows(remaining@).count(d) > 0 implies plan.admits(
            d.values,
        ) by {
            assert(m.count(d) > 0);
        }
        proof {
            lemma_admits_each(plan, remaining@);
        }
        self.fit(dataset, remaining.as_mut_slice());
        removed_count
    }

    /// Learns some samples one by one, and lists the leaves where they end.
    pub fn add_samples_incremental<S: Sample>(&mut self, samples: &[S]) -> (r: Vec<u64>)
        requires
            old(self).wf(),
            forall|i: int|
                0 <= i < samples@.len() ==> routable(
                    old(self).structure(),
                    #[trigger] samples@[i].data().values,
                ),
        ensures
            final(self).wf(),
            final(self).same_setting(old(self)),
            final(self).states() == old(self).states(),
            (final(self).structure(), final(self).placement(), r@) == all_came(
                old(self).structure(),
                old(self).placement(),
                old(self).states(),
                listed(samples@),
            ),
    {
        let ghost list = listed(samples@);
        let ghost nodes = self.structure();
        let ghost leaves = self.placement();
        let ghost states = self.states();
        let mut leaf_ids: Vec<u64> = Vec::new();
        let mut i: usize = 0;
        while i < samples.len()
            invariant
                i <= samples@.len(),
                list == listed(samples@),
                self.wf(),
                self.same_setting(old(self)),
                self.states() == states,
                forall|i: int|
                    0 <= i < samples@.len() ==> routable(
                        nodes,
                        #[trigger] samples@[i].data().values,
                    ),
                (self.structure(), self.placement(), leaf_ids@) == all_came(
                    nodes,
                    leaves,
                    states,
                    list.take(i as int),
                ),
            decreases samples@.len() - i,
        {
            proof {
                lemma_came_routable(
                    nodes,
                    leaves,
                    states,
                    list.take(i as int),
                    samples@[i as int].data().values,
                );
                assert(list.take(i as int + 1).drop_last() =~= list.take(i as int));
                assert(list.take(i as int + 1).last() == samples@[i as int].data());
            }
            match self.add_sample_incremental(&samples[i]) {
                Some(leaf_id) => {
                    leaf_ids.push(leaf_id);
                },
                None => {},
            }
            i = i + 1;
        }
        assert(list.take(i as int) =~= list);
        leaf_ids
    }
}

/// What forgetting many samples does to a tree, and what it answers.
pub open spec fn forgot_many(
    before: DynFrsTree,
    after: DynFrsTree,
    plan: Plan,
    m: Rows,
    list: Seq<(u64, bool)>,
    r: int,
) -> bool {
    let leaves = before.placement();
    if list.len() == 0 || leaves.len() == 0 {
        &&& r == 0
        &&& unchanged(before, after)
    } else if list.len() * 100 > leaves.len() * REBUILD_PERCENT {
        &&& r == present(leaves, list)
        &&& regrown_without(before, after, plan, m, list)
    } else {
        &&& r == taken(leaves, list)
        &&& after.states() == before.states()
        &&& (after.structure(), after.placement()) == all_without(
            before.structure(),
            leaves,
            before.limits(),
            list,
        )
    }
}

} // verus!
