//! Working on marked nodes in every tree, and looking at single trees.

use super::learn::{all_full, lemma_forest_routes};
use super::{all_numerical, DynFrsForest};
use crate::dataset::{ArrayDataset, Dataset};
use crate::node::node_id::ROOT;
use crate::order::{lemma_reordered, ordered, sort_keyed, Keyed};
use crate::sample::{lemma_rows, rows, Sample, SampleData, VecSample};
use crate::tree::collect::{by_id, index_samples};
use crate::tree::develop::{developed, lemma_indexed_admitted};
use crate::tree::grow::Plan;
use crate::tree::lazy::all_admitted;
use crate::tree::shape::vote;
use vstd::prelude::*;

verus! {

/// What the growth of the trees of a forest goes by at a place in the stream.
pub open spec fn plan_at(forest: DynFrsForest, position: u64) -> Plan {
    Plan { position, ..forest.plan() }
}

/// Whether in every tree of a forest the nodes that were due have been grown anew.
/// Without samples nothing happens.
pub open spec fn forest_developed(
    before: DynFrsForest,
    after: DynFrsForest,
    samples: Seq<VecSample>,
    position: u64,
    max_age: Option<u64>,
) -> bool {
    &&& after.same_setting(&before)
    &&& after.members() == before.members()
    &&& after.classes() == before.classes()
    &&& after.marks() == before.marks()
    &&& after.tuning() == before.tuning()
    &&& after.forest().len() == before.forest().len()
    &&& if samples.len() == 0 {
        after.forest() == before.forest()
    } else {
        exists|known: Map<u64, &VecSample>| #[trigger]
            by_id(samples, known) && trees_developed(
                before,
                after,
                known,
                position,
                max_age,
                before.forest().len() as int,
            )
    }
}

/// Whether in the first trees of a forest the nodes that were due have been grown anew.
pub open spec fn trees_developed(
    before: DynFrsForest,
    after: DynFrsForest,
    known: Map<u64, &VecSample>,
    position: u64,
    max_age: Option<u64>,
    n: int,
) -> bool {
    forall|t: int|
        0 <= t < n ==> {
            &&& developed(
                before.forest()[t],
                #[trigger] after.forest()[t],
                plan_at(before, position),
                known,
                ROOT,
                max_age,
            )
            &&& after.forest()[t].same_setting(&before.forest()[t])
        }
}

/// Whether a list gives for each sample the number of its trees, once.
pub open spec fn counts_trees(members: Map<u64, Seq<usize>>, list: Seq<(u64, usize)>) -> bool {
    &&& forall|i: int|
        0 <= i < list.len() ==> members.contains_key((#[trigger] list[i]).0) && list[i].1
            == members[list[i].0].len()
    &&& forall|id: u64| #[trigger]
        members.contains_key(id) ==> exists|i: int|
            0 <= i < list.len() && (#[trigger] list[i]).0 == id
    &&& forall|i: int, j: int|
        0 <= i < j < list.len() ==> (#[trigger] list[i]).0 != (#[trigger] list[j]).0
}

/// Whether a list goes from many trees to few, equal numbers by identifier.
pub open spec fn from_many(list: Seq<(u64, usize)>) -> bool {
    forall|i: int, j: int|
        0 <= i < j < list.len() ==> (#[trigger] list[i]).1 > (#[trigger] list[j]).1 || (list[i].1
            == list[j].1 && list[i].0 < list[j].0)
}

impl DynFrsForest {
    /// Grows the marked nodes of every tree anew.
    pub fn develop(&mut self, samples: &[VecSample])
        requires
            old(self).wf(),
            all_full(samples@, old(self).width()),
        ensures
            final(self).wf(),
            forest_developed(*old(self), *final(self), samples@, 0, None),
    {
        self.develop_streaming_with_age(samples, 0, None);
    }

    /// Grows the marked nodes of every tree anew.
    pub fn develop_streaming(&mut self, samples: &[VecSample])
        requires
            old(self).wf(),
            all_full(samples@, old(self).width()),
        ensures
            final(self).wf(),
            forest_developed(*old(self), *final(self), samples@, 0, None),
    {
        self.develop_streaming_with_age(samples, 0, None);
    }

    /// Grows the nodes of every tree anew that are marked, or whose splits were made too
    /// long ago.
    pub fn develop_streaming_with_age(
        &mut self,
        samples: &[VecSample],
        current_position: u64,
        max_split_age: Option<u64>,
    )
        requires
            old(self).wf(),
            all_full(samples@, old(self).width()),
        ensures
            final(self).wf(),
            forest_developed(
                *old(self),
                *final(self),
                samples@,
                current_position,
                max_split_age,
            ),
    {
        if samples.len() == 0 {
            return;
        }
        let ghost start = *self;
        let ghost plan = start.plan();
        proof {
            assert forall|x: int| 0 <= x < samples@.len() implies self.num_attributes <= (
            #[trigger] samples@[x].data()).values.len() by {
                assert(samples@[x].values@.len() >= start.width());
            }
            lemma_rows(samples@);
            assert forall|d: SampleData| #[trigger]
                rows(samples@).count(d) > 0 implies plan.admits(d.values) by {
                let x = choose|x: int| 0 <= x < samples@.len() && samples@[x].data() == d;
                assert(samples@[x].data().values.len() >= start.width());
            }
        }
        let dataset = ArrayDataset::from_samples(samples, self.num_attributes);
        assert(dataset.attribute_types() =~= all_numerical(self.num_attributes));
        let sample_map = index_samples(samples);
        let ghost known = sample_map@;
        proof {
            lemma_indexed_admitted(plan, samples@, known);
        }
        let n: usize = self.trees.len();
        let mut t: usize = 0;
        while t < n
            invariant
                t <= n == self.trees@.len() == start.trees@.len(),
                start.wf(),
                plan == start.plan(),
                known == sample_map@,
                all_admitted(plan, known),
                dataset.attribute_types() == all_numerical(start.num_attributes),
                self.sample_tree_map == start.sample_tree_map,
                self.sample_labels == start.sample_labels,
                self.config == start.config,
                self.num_attributes == start.num_attributes,
                self.add_rebuild_marks == start.add_rebuild_marks,
                self.forget_rebuild_marks == start.forget_rebuild_marks,
                self.tuning == start.tuning,
                forall|u: int|
                    t <= u < n ==> #[trigger] self.trees@[u] == start.trees@[u],
                trees_developed(start, *self, known, current_position, max_split_age, t as int),
                forall|u: int| 0 <= u < t ==> start.fits_in(#[trigger] self.trees@[u], u),
            decreases n - t,
        {
            let ghost prior = *self;
            proof {
                assert(start.fits_in(start.forest()[t as int], t as int));
                assert(self.trees@[t as int] == start.trees@[t as int]);
                assert(start.trees@[t as int].plan(dataset.attribute_types()) == plan);
            }
            self.trees[t].develop_with_age(
                &dataset,
                &sample_map,
                current_position,
                max_split_age,
            );
            proof {
                assert(self.trees@ =~= prior.trees@.update(t as int, self.trees@[t as int]));
                assert forall|u: int| 0 <= u < t + 1 implies developed(
                    start.forest()[u],
                    #[trigger] self.forest()[u],
                    plan_at(start, current_position),
                    known,
                    ROOT,
                    max_split_age,
                ) && self.forest()[u].same_setting(&start.forest()[u]) by {
                    if u < t {
                        assert(self.forest()[u] == prior.forest()[u]);
                    }
                }
                assert forall|u: int| 0 <= u < t + 1 implies start.fits_in(
                    #[trigger] self.trees@[u],
                    u,
                ) by {
                    if u < t {
                        assert(start.fits_in(prior.trees@[u], u));
                    }
                }
            }
            t = t + 1;
        }
        proof {
            assert forall|u: int| 0 <= u < self.forest().len() implies self.fits_in(
                #[trigger] self.forest()[u],
                u,
            ) by {
                assert(start.fits_in(self.trees@[u], u));
            }
            assert(by_id(samples@, known));
        }
    }

    /// Predicts the class of a sample with one tree only. A tree that there is not votes
    /// for the negative class.
    pub fn predict_with_tree(&self, tree_idx: usize, sample: &VecSample) -> (r: bool)
        requires
            self.wf(),
            sample.values@.len() >= self.width(),
        ensures
            r == (tree_idx < self.forest().len() && vote(
                self.forest()[tree_idx as int].structure(),
                sample.values@,
            )),
    {
        if tree_idx < self.trees.len() {
            proof {
                assert(self.fits_in(self.forest()[tree_idx as int], tree_idx as int));
                lemma_forest_routes(*self, tree_idx as int, sample.values@);
            }
            self.trees[tree_idx].predict(sample)
        } else {
            false
        }
    }

    /// The number of trees that have learnt a sample.
    pub fn get_sample_tree_count(&self, sample_id: u64) -> (r: usize)
        ensures
            r == (if self.members().contains_key(sample_id) {
                self.members()[sample_id].len()
            } else {
                0
            }),
    {
        match self.sample_tree_map.get(sample_id) {
            Some(list) => list.len(),
            None => 0,
        }
    }

    /// The numbers of trees that have learnt each sample, in no particular order.
    pub fn get_all_sample_tree_counts(&self) -> (r: Vec<(u64, usize)>)
        ensures
            counts_trees(self.members(), r@),
    {
        let count: usize = self.sample_tree_map.len();
        let ghost order = self.sample_tree_map.order();
        let mut list: Vec<(u64, usize)> = Vec::new();
        while list.len() < count
            invariant
                list@.len() <= count == order.len(),
                order == self.sample_tree_map.order(),
                order.to_set() == self.sample_tree_map@.dom(),
                forall|i: int|
                    0 <= i < list@.len() ==> (#[trigger] list@[i]).0 == order[i]
                        && self.members().contains_key(list@[i].0) && list@[i].1
                        == self.members()[list@[i].0].len(),
            decreases count - list@.len(),
        {
            let id: u64 = self.sample_tree_map.key_at(list.len());
            let n: usize = self.sample_tree_map.value_at(list.len()).len();
            list.push((id, n));
        }
        assert forall|id: u64| #[trigger] self.members().contains_key(id) implies exists|i: int|
            0 <= i < list@.len() && (#[trigger] list@[i]).0 == id by {
            assert(order.to_set().contains(id));
            let i = order.index_of(id);
            assert(list@[i].0 == id);
        }
        list
    }

    /// The samples by the number of trees that have learnt them, those of most trees
    /// first, all of them or as many as asked for.
    pub fn get_samples_by_influence(&self, top_k: Option<usize>) -> (r: Vec<(u64, usize)>)
        ensures
            exists|all: Seq<(u64, usize)>| #[trigger]
                counts_trees(self.members(), all) && from_many(all) && r@ == (match top_k {
                    Some(k) => if k <= all.len() {
                        all.take(k as int)
                    } else {
                        all
                    },
                    None => all,
                }),
    {
        let counts = self.get_all_sample_tree_counts();
        let mut keyed: Vec<Keyed> = Vec::new();
        let mut i: usize = 0;
        while i < counts.len()
            invariant
                i <= counts@.len(),
                keyed@ == Seq::new(i as nat, |j: int| ((-(counts@[j].1 as int)) as i128, counts@[j].0)),
            decreases counts@.len() - i,
        {
            keyed.push((-(counts[i].1 as i128), counts[i].0));
            i = i + 1;
            assert(keyed@ =~= Seq::new(
                i as nat,
                |j: int| ((-(counts@[j].1 as int)) as i128, counts@[j].0),
            ));
        }
        let ghost gathered = keyed@;
        let list = sort_keyed(keyed);
        proof {
            lemma_reordered(gathered, list@);
            assert forall|x: Keyed| #[trigger] list@.contains(x) implies self.members().contains_key(
                x.1,
            ) && -x.0 == self.members()[x.1].len() && x.0 >= -(usize::MAX as int) by {
                assert(gathered.contains(x));
                let j = gathered.index_of(x);
                assert(counts@[j].0 == x.1);
            }
        }
        let mut r: Vec<(u64, usize)> = Vec::new();
        let mut j: usize = 0;
        while j < list.len()
            invariant
                j <= list@.len(),
                forall|x: Keyed| #[trigger]
                    list@.contains(x) ==> self.members().contains_key(x.1) && -x.0
                        == self.members()[x.1].len() && x.0 >= -(usize::MAX as int),
                r@ == Seq::new(j as nat, |i: int| (list@[i].1, (-list@[i].0) as usize)),
            decreases list@.len() - j,
        {
            assert(list@.contains(list@[j as int]));
            r.push((list[j].1, (-list[j].0) as usize));
            j = j + 1;
            assert(r@ =~= Seq::new(j as nat, |i: int| (list@[i].1, (-list@[i].0) as usize)));
        }
        let ghost all = r@;
        proof {
            assert forall|i: int| 0 <= i < all.len() implies self.members().contains_key(
                (#[trigger] all[i]).0,
            ) && all[i].1 == self.members()[all[i].0].len() by {
                assert(list@.contains(list@[i]));
            }
            assert forall|id: u64| #[trigger] self.members().contains_key(id) implies exists|
                i: int,
            |
                0 <= i < all.len() && (#[trigger] all[i]).0 == id by {
                let k = choose|k: int| 0 <= k < counts@.len() && (#[trigger] counts@[k]).0 == id;
                assert(gathered.contains(gathered[k]));
                let i = list@.index_of(gathered[k]);
                assert(all[i].0 == id);
            }
            assert(gathered.no_duplicates()) by {
                assert forall|a: int, b: int|
                    0 <= a < gathered.len() && 0 <= b < gathered.len() && a != b implies gathered[a]
                    != gathered[b] by {
                    if a < b {
                        assert(counts@[a].0 != counts@[b].0);
                    } else {
                        assert(counts@[b].0 != counts@[a].0);
                    }
                }
            }
            assert forall|i: int, j: int| 0 <= i < j < all.len() implies (#[trigger] all[i]).0 != (
            #[trigger] all[j]).0 && (all[i].1 > all[j].1 || (all[i].1 == all[j].1 && all[i].0
                < all[j].0)) by {
                assert(list@.contains(list@[i]));
                assert(list@.contains(list@[j]));
                assert(ordered(list@[i], list@[j]));
                assert(list@[i] != list@[j]);
            }
        }
        match top_k {
            Some(k) => {
                if k <= r.len() {
                    r.truncate(k);
                }
            },
            None => {},
        }
        assert(counts_trees(self.members(), all));
        r
    }
}

} // verus!
