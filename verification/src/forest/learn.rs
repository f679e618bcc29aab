//! Putting samples into a forest and taking them out again.

use super::occ::{are_answers, is_answer, is_selection};
use super::{all_numerical, in_forest, DynFrsForest};
use crate::dataset::{ArrayDataset, Dataset};
use crate::random::{put_since, Question};
use crate::sample::{
    lemma_rows, lemma_rows_empty, lemma_rows_push, rows, Rows, Sample, SampleData, VecSample,
};
use crate::tree::grow::{fitted, lemma_admits_each, lemma_suits_applies, Plan};
use crate::tree::shape::{is_inner, routable};
use crate::tree::stream::{add_answer, added_to, remove_answer, removed_from};
use crate::tree::DynFrsTree;
use vstd::multiset::Multiset;
use vstd::prelude::*;

verus! {

/// The trees of each sample, the last of those with the same identifier.
pub open spec fn members_of(
    samples: Seq<VecSample>,
    choice: Seq<Seq<usize>>,
    n: int,
) -> Map<u64, Seq<usize>>
    decreases n,
{
    if n <= 0 {
        Map::empty()
    } else {
        members_of(samples, choice, n - 1).insert(samples[n - 1].id, choice[n - 1])
    }
}

/// The class of each sample, the last of those with the same identifier.
pub open spec fn classes_of(samples: Seq<VecSample>, n: int) -> Map<u64, bool>
    decreases n,
{
    if n <= 0 {
        Map::empty()
    } else {
        classes_of(samples, n - 1).insert(samples[n - 1].id, samples[n - 1].label)
    }
}

/// The samples that are put into a tree.
pub open spec fn part_of(
    samples: Seq<VecSample>,
    choice: Seq<Seq<usize>>,
    tree: usize,
    n: int,
) -> Rows
    decreases n,
{
    if n <= 0 {
        Multiset::empty()
    } else {
        let before = part_of(samples, choice, tree, n - 1);
        if choice[n - 1].contains(tree) {
            before.insert(samples[n - 1].data())
        } else {
            before
        }
    }
}

/// Whether a forest has been grown anew from samples, where each is put into the trees
/// that are chosen for it. A tree that gets no samples stays as it is.
pub open spec fn fitted_with(
    before: DynFrsForest,
    after: DynFrsForest,
    samples: Seq<VecSample>,
    ks: Seq<usize>,
    choice: Seq<Seq<usize>>,
) -> bool {
    let n = samples.len() as int;
    &&& choice.len() == n
    &&& forall|i: int|
        0 <= i < n ==> is_selection(
            before.settings().num_trees as int,
            ks[i] as int,
            #[trigger] choice[i],
        )
    &&& are_answers(
        before.settings().num_trees as int,
        ks,
        before.asked(),
        after.asked(),
        choice,
    )
    &&& after.members() == members_of(samples, choice, n)
    &&& after.classes() == classes_of(samples, n)
    &&& forall|t: usize|
        t < before.settings().num_trees ==> tree_fitted(
            before.forest()[t as int],
            #[trigger] after.forest()[t as int],
            before.plan(),
            part_of(samples, choice, t, n),
        )
}

/// Whether a tree has been grown anew from its samples, if it has any.
pub open spec fn tree_fitted(before: DynFrsTree, after: DynFrsTree, plan: Plan, m: Rows) -> bool {
    if m.len() == 0 {
        after == before
    } else {
        fitted(before, after, plan, m) && after.same_setting(&before)
    }
}

/// Whether a forest has been grown anew from samples, each of which has been put into as
/// many randomly chosen trees as is asked for. Without samples nothing happens.
pub open spec fn forest_fitted(
    before: DynFrsForest,
    after: DynFrsForest,
    samples: Seq<VecSample>,
    ks: Seq<usize>,
) -> bool {
    &&& after.same_setting(&before)
    &&& after.marks() == before.marks()
    &&& after.tuning() == before.tuning()
    &&& if samples.len() == 0 {
        &&& after.forest() == before.forest()
        &&& after.members() == before.members()
        &&& after.classes() == before.classes()
        &&& after.asked() == before.asked()
    } else {
        exists|choice: Seq<Seq<usize>>| #[trigger]
            fitted_with(before, after, samples, ks, choice)
    }
}

/// Whether every sample has a value for each attribute.
pub open spec fn all_full(samples: Seq<VecSample>, width: u8) -> bool {
    forall|i: int| 0 <= i < samples.len() ==> (#[trigger] samples[i]).values@.len() >= width
}

/// What a forest becomes when a sample is forgotten: its trees forget it, and nothing is
/// kept of it.
pub open spec fn forgot(
    before: DynFrsForest,
    after: DynFrsForest,
    id: u64,
    features: Seq<i64>,
    lazy: bool,
) -> bool {
    &&& after.same_setting(&before)
    &&& after.forest().len() == before.forest().len()
    &&& if before.members().contains_key(id) {
        &&& after.members() == before.members().remove(id)
        &&& after.classes() == before.classes().remove(id)
        &&& after.tuning() == before.tuning().uncounted(before.classes()[id])
        &&& forall|t: usize|
            t < before.forest().len() ==> if before.members()[id].contains(t) {
                removed_from(
                    before.forest()[t as int],
                    #[trigger] after.forest()[t as int],
                    id,
                    features,
                    before.classes()[id],
                    lazy,
                    remove_answer(
                        before.forest()[t as int],
                        id,
                        features,
                        before.classes()[id],
                        lazy,
                    ),
                )
            } else {
                after.forest()[t as int] == before.forest()[t as int]
            }
    } else {
        &&& after.members() == before.members()
        &&& after.classes() == before.classes()
        &&& after.forest() == before.forest()
        &&& after.tuning() == before.tuning()
    }
}

/// Whether a tree asks for work when a sample is forgotten.
pub open spec fn asks(
    tree: DynFrsTree,
    id: u64,
    features: Seq<i64>,
    label: bool,
    lazy: bool,
) -> bool {
    remove_answer(tree, id, features, label, lazy).1
}

/// How many of the first trees of a list ask for work when a sample is forgotten.
pub open spec fn asking(
    trees: Seq<DynFrsTree>,
    list: Seq<usize>,
    n: int,
    id: u64,
    features: Seq<i64>,
    label: bool,
    lazy: bool,
) -> nat
    decreases n,
{
    if n <= 0 {
        0
    } else {
        asking(trees, list, n - 1, id, features, label, lazy) + if asks(
            trees[list[n - 1] as int],
            id,
            features,
            label,
            lazy,
        ) {
            1nat
        } else {
            0nat
        }
    }
}

/// A sum of marks, which stops at its upper bound.
pub open spec fn marked(marks: u64, more: nat) -> u64 {
    if marks + more <= u64::MAX {
        (marks + more) as u64
    } else {
        u64::MAX
    }
}

/// What a forest becomes when a sample is learnt: some randomly chosen trees learn it. A
/// sample that the forest has already changes nothing.
pub open spec fn learnt(
    before: DynFrsForest,
    after: DynFrsForest,
    sample: VecSample,
    lazy: bool,
    r: (bool, bool),
) -> bool {
    &&& after.same_setting(&before)
    &&& after.marks() == before.marks()
    &&& after.forest().len() == before.forest().len()
    &&& if before.members().contains_key(sample.id) {
        &&& r == (false, false)
        &&& after.tuning() == before.tuning()
        &&& after.members() == before.members()
        &&& after.classes() == before.classes()
        &&& after.forest() == before.forest()
        &&& after.asked() == before.asked()
    } else {
        exists|chosen: Seq<usize>| #[trigger]
            learnt_by(before, after, sample, lazy, r, chosen)
    }
}

/// What a forest becomes when a sample is learnt by chosen trees.
pub open spec fn learnt_by(
    before: DynFrsForest,
    after: DynFrsForest,
    sample: VecSample,
    lazy: bool,
    r: (bool, bool),
    chosen: Seq<usize>,
) -> bool {
    &&& is_selection(
        before.settings().num_trees as int,
        before.k_now(sample.label) as int,
        chosen,
    )
    &&& before.asked().is_prefix_of(after.asked())
    &&& is_answer(
        before.settings().num_trees as int,
        before.k_now(sample.label) as int,
        put_since(before.asked(), after.asked()),
        chosen,
    )
    &&& after.tuning() == before.tuning().counted(sample.label)
    &&& after.members() == before.members().insert(sample.id, chosen)
    &&& after.classes() == before.classes().insert(sample.id, sample.label)
    &&& forall|t: usize|
        t < before.forest().len() ==> if chosen.contains(t) {
            added_to(
                before.forest()[t as int],
                #[trigger] after.forest()[t as int],
                sample.data(),
                sample.values@,
                lazy,
                add_answer(before.forest()[t as int], sample.data(), sample.values@, lazy),
            )
        } else {
            after.forest()[t as int] == before.forest()[t as int]
        }
    &&& r.0
    &&& r.1 == exists|i: int|
        0 <= i < chosen.len() && add_answer(
            before.forest()[#[trigger] chosen[i] as int],
            sample.data(),
            sample.values@,
            lazy,
        ).1
}

/// Copies a list.
pub(super) fn copy_places(list: &Vec<usize>) -> (r: Vec<usize>)
    ensures
        r@ == list@,
{
    let mut copy: Vec<usize> = Vec::new();
    let mut i: usize = 0;
    while i < list.len()
        invariant
            i <= list@.len(),
            copy@ == list@.take(i as int),
        decreases list@.len() - i,
    {
        copy.push(list[i]);
        assert(copy@ =~= list@.take(i as int + 1));
        i = i + 1;
    }
    assert(copy@ =~= list@);
    copy
}

/// A part has no more samples than there are.
proof fn lemma_part_len(samples: Seq<VecSample>, choice: Seq<Seq<usize>>, tree: usize, n: int)
    requires
        0 <= n,
    ensures
        part_of(samples, choice, tree, n).len() <= n,
    decreases n,
{
    if n > 0 {
        lemma_part_len(samples, choice, tree, n - 1);
    }
}

/// A part rests on the choices that have been made.
proof fn lemma_part_prefix(
    samples: Seq<VecSample>,
    a: Seq<Seq<usize>>,
    b: Seq<Seq<usize>>,
    tree: usize,
    n: int,
)
    requires
        0 <= n <= a.len(),
        n <= b.len(),
        forall|i: int| 0 <= i < n ==> a[i] == b[i],
    ensures
        part_of(samples, a, tree, n) == part_of(samples, b, tree, n),
        members_of(samples, a, n) == members_of(samples, b, n),
    decreases n,
{
    if n > 0 {
        lemma_part_prefix(samples, a, b, tree, n - 1);
    }
}

/// Every sample of a part is one of the samples.
proof fn lemma_part_full(
    samples: Seq<VecSample>,
    choice: Seq<Seq<usize>>,
    tree: usize,
    n: int,
    plan: Plan,
)
    requires
        0 <= n <= samples.len(),
        all_full(samples, plan.width),
        plan.types == all_numerical(plan.width),
    ensures
        plan.admits_all(part_of(samples, choice, tree, n)),
    decreases n,
{
    if n > 0 {
        lemma_part_full(samples, choice, tree, n - 1, plan);
        let before = part_of(samples, choice, tree, n - 1);
        let m = part_of(samples, choice, tree, n);
        assert forall|d: SampleData| #[trigger] m.count(d) > 0 implies plan.admits(d.values) by {
            if before.count(d) == 0 {
                assert(d == samples[n - 1].data());
                assert(samples[n - 1].values@.len() >= plan.width);
            }
        }
    }
}

/// A forest can lead every row that is long enough.
pub proof fn lemma_forest_routes(forest: DynFrsForest, i: int, values: Seq<i64>)
    requires
        forest.wf(),
        0 <= i < forest.forest().len(),
        values.len() >= forest.width(),
    ensures
        forest.plan().admits(values),
        routable(forest.forest()[i].structure(), values),
{
    let plan = forest.plan();
    let nodes = forest.forest()[i].structure();
    assert(forest.fits_in(forest.forest()[i], i));
    assert forall|id: u64| #[trigger] is_inner(nodes, id) implies nodes[id]->split.applies(
        values,
    ) by {
        lemma_suits_applies(plan, nodes[id]->split, values);
    }
}

/// A forest that has been grown anew from samples has those samples and no others.
pub proof fn lemma_fitted_members(
    before: DynFrsForest,
    after: DynFrsForest,
    samples: Seq<VecSample>,
    ks: Seq<usize>,
)
    requires
        forest_fitted(before, after, samples, ks),
        samples.len() > 0,
    ensures
        forall|id: u64| #[trigger]
            after.members().contains_key(id) <==> exists|i: int|
                0 <= i < samples.len() && (#[trigger] samples[i]).id == id,
{
    let choice = choose|choice: Seq<Seq<usize>>| #[trigger]
        fitted_with(before, after, samples, ks, choice);
    lemma_members_of(samples, choice, samples.len() as int);
}

/// The trees are noted for the samples and for nothing else.
proof fn lemma_members_of(samples: Seq<VecSample>, choice: Seq<Seq<usize>>, n: int)
    requires
        0 <= n <= samples.len(),
    ensures
        forall|id: u64| #[trigger]
            members_of(samples, choice, n).contains_key(id) <==> exists|i: int|
                0 <= i < n && (#[trigger] samples[i]).id == id,
    decreases n,
{
    if n > 0 {
        lemma_members_of(samples, choice, n - 1);
        assert forall|id: u64| #[trigger]
            members_of(samples, choice, n).contains_key(id) <==> exists|i: int|
                0 <= i < n && (#[trigger] samples[i]).id == id by {
            if members_of(samples, choice, n).contains_key(id) && samples[n - 1].id != id {
                assert(members_of(samples, choice, n - 1).contains_key(id));
                let i = choose|i: int| 0 <= i < n - 1 && (#[trigger] samples[i]).id == id;
                assert(samples[i].id == id);
            }
            if exists|i: int| 0 <= i < n && (#[trigger] samples[i]).id == id {
                let i = choose|i: int| 0 <= i < n && (#[trigger] samples[i]).id == id;
                if i < n - 1 {
                    assert(members_of(samples, choice, n - 1).contains_key(id));
                }
            }
        }
    }
}

/// The samples and the classes are known by the same identifiers.
proof fn lemma_same_ids(samples: Seq<VecSample>, choice: Seq<Seq<usize>>, num_trees: int, ks: Seq<usize>, n: int)
    requires
        0 <= n <= choice.len(),
        forall|i: int| 0 <= i < n ==> is_selection(num_trees, ks[i] as int, #[trigger] choice[i]),
    ensures
        members_of(samples, choice, n).dom() == classes_of(samples, n).dom(),
        forall|id: u64| #[trigger]
            members_of(samples, choice, n).contains_key(id) ==> in_forest(
                members_of(samples, choice, n)[id],
                num_trees,
            ),
    decreases n,
{
    if n > 0 {
        lemma_same_ids(samples, choice, num_trees, ks, n - 1);
        assert(is_selection(num_trees, ks[n - 1] as int, choice[n - 1]));
        assert(members_of(samples, choice, n).dom() =~= classes_of(samples, n).dom());
    } else {
        assert(members_of(samples, choice, n).dom() =~= classes_of(samples, n).dom());
    }
}

impl DynFrsForest {
    /// Grows the forest anew from samples, each in as many trees as its class asks for.
    pub fn fit(&mut self, samples: &[VecSample])
        requires
            old(self).wf(),
            samples@.len() <= u32::MAX,
            all_full(samples@, old(self).width()),
        ensures
            final(self).wf(),
            forest_fitted(
                *old(self),
                *final(self),
                samples@,
                Seq::new(
                    samples@.len(),
                    |i: int| old(self).settings().k_of(samples@[i].label),
                ),
            ),
    {
        let mut ks: Vec<usize> = Vec::new();
        let mut i: usize = 0;
        while i < samples.len()
            invariant
                i <= samples@.len(),
                ks@ == Seq::new(i as nat, |j: int| self.settings().k_of(samples@[j].label)),
            decreases samples@.len() - i,
        {
            ks.push(self.k_for_label(samples[i].label));
            i = i + 1;
            assert(ks@ =~= Seq::new(i as nat, |j: int| self.settings().k_of(samples@[j].label)));
        }
        self.fit_internal(samples, ks.as_slice());
        assert(ks@ =~= Seq::new(
            samples@.len(),
            |i: int| old(self).settings().k_of(samples@[i].label),
        ));
    }

    /// Grows the forest anew from samples, each in as many trees as is given for it.
    pub fn fit_with_k_values(&mut self, samples: &[VecSample], k_values: &[usize])
        requires
            old(self).wf(),
            samples@.len() == k_values@.len(),
            samples@.len() <= u32::MAX,
            all_full(samples@, old(self).width()),
        ensures
            final(self).wf(),
            forest_fitted(*old(self), *final(self), samples@, k_values@),
    {
        self.fit_internal(samples, k_values);
    }

    /// Grows the forest anew from samples.
    pub(super) fn fit_internal(&mut self, samples: &[VecSample], ks: &[usize])
        requires
            old(self).wf(),
            samples@.len() == ks@.len(),
            samples@.len() <= u32::MAX,
            all_full(samples@, old(self).width()),
        ensures
            final(self).wf(),
            forest_fitted(*old(self), *final(self), samples@, ks@),
    {
        if samples.len() == 0 {
            return;
        }
        let n: usize = self.config.num_trees;
        let ghost start = *self;
        let ghost plan = self.plan();
        self.sample_tree_map.clear();
        self.sample_labels.clear();
        assert(self.members() =~= Map::<u64, Seq<usize>>::empty());
        let mut parts: Vec<Vec<&VecSample>> = Vec::new();
        while parts.len() < n
            invariant
                parts@.len() <= n,
                forall|t: int| 0 <= t < parts@.len() ==> (#[trigger] parts@[t])@.len() == 0,
            decreases n - parts@.len(),
        {
            parts.push(Vec::new());
        }
        let ghost mut choice: Seq<Seq<usize>> = Seq::empty();
        let ghost mut logs: Seq<Seq<Question>> = Seq::empty();
        assert(self.log@ =~= start.log@ + logs.flatten_alt());
        proof {
            assert forall|t: usize| t < n implies rows(#[trigger] parts@[t as int]@) == part_of(
                samples@,
                choice,
                t,
                0,
            ) by {
                assert(parts@[t as int]@.len() == 0);
                lemma_rows_empty(parts@[t as int]@);
            }
        }
        let mut i: usize = 0;
        while i < samples.len()
            invariant
                i <= samples@.len() == ks@.len(),
                n == self.config.num_trees,
                self.trees == start.trees,
                self.config == start.config,
                self.num_attributes == start.num_attributes,
                self.add_rebuild_marks == start.add_rebuild_marks,
                self.forget_rebuild_marks == start.forget_rebuild_marks,
                self.tuning == start.tuning,
                choice.len() == i,
                logs.len() == i,
                forall|j: int|
                    0 <= j < i ==> is_answer(
                        n as int,
                        ks@[j] as int,
                        #[trigger] logs[j],
                        choice[j],
                    ),
                self.log@ == start.log@ + logs.flatten_alt(),
                forall|j: int|
                    0 <= j < i ==> is_selection(n as int, ks@[j] as int, #[trigger] choice[j]),
                self.members() == members_of(samples@, choice, i as int),
                self.classes() == classes_of(samples@, i as int),
                parts@.len() == n,
                forall|t: usize|
                    t < n ==> rows(#[trigger] parts@[t as int]@) == part_of(
                        samples@,
                        choice,
                        t,
                        i as int,
                    ),
            decreases samples@.len() - i,
        {
            let sample = &samples[i];
            let ghost put = self.log@;
            let chosen = self.choose_trees(ks[i]);
            let ghost asked = put_since(put, self.log@);
            let ghost earlier = choice;
            let ghost before = parts@;
            let ghost old_members = self.members();
            let kept = copy_places(&chosen);
            self.sample_tree_map.insert(sample.id, kept);
            self.sample_labels.insert(sample.id, sample.label);
            assert(self.members() =~= old_members.insert(sample.id, chosen@));
            let mut j: usize = 0;
            while j < chosen.len()
                invariant
                    j <= chosen@.len(),
                    is_selection(n as int, ks@[i as int] as int, chosen@),
                    sample.data() == samples@[i as int].data(),
                    before.len() == n,
                    parts@.len() == n,
                    forall|t: usize|
                        t < n ==> rows(#[trigger] parts@[t as int]@) == (if chosen@.take(
                            j as int,
                        ).contains(t) {
                            rows(before[t as int]@).insert(sample.data())
                        } else {
                            rows(before[t as int]@)
                        }),
                decreases chosen@.len() - j,
            {
                let t: usize = chosen[j];
                let ghost prior = parts@;
                proof {
                    assert(chosen@[j as int] < n);
                    assert(!chosen@.take(j as int).contains(t)) by {
                        if chosen@.take(j as int).contains(t) {
                            let x = chosen@.take(j as int).index_of(t);
                            assert(chosen@[x] < chosen@[j as int]);
                        }
                    }
                }
                parts[t].push(sample);
                proof {
                    let grown = parts@[t as int]@;
                    let old_part = prior[t as int]@;
                    assert(grown == old_part.push(sample));
                    lemma_rows_push(grown, old_part.len() as int);
                    assert(grown.take(old_part.len() as int) =~= old_part);
                    assert(grown.take(old_part.len() as int + 1) =~= grown);
                    let a = chosen@.take(j as int);
                    let b = chosen@.take(j as int + 1);
                    assert forall|u: usize| b.contains(u) == (a.contains(u) || u == t) by {
                        if a.contains(u) {
                            assert(b[a.index_of(u)] == u);
                        }
                        assert(b[j as int] == t);
                        if b.contains(u) && u != t {
                            assert(a[b.index_of(u)] == u);
                        }
                    }
                    assert forall|u: usize| u < n implies rows(#[trigger] parts@[u as int]@) == (
                    if b.contains(u) {
                        rows(before[u as int]@).insert(sample.data())
                    } else {
                        rows(before[u as int]@)
                    }) by {
                        assert(rows(prior[u as int]@) == (if a.contains(u) {
                            rows(before[u as int]@).insert(sample.data())
                        } else {
                            rows(before[u as int]@)
                        }));
                        assert(b.contains(u) == (a.contains(u) || u == t));
                    }
                }
                j = j + 1;
            }
            proof {
                assert(chosen@.take(j as int) =~= chosen@);
                choice = choice.push(chosen@);
                let told = logs;
                logs = logs.push(asked);
                assert(logs.drop_last() =~= told);
                assert(logs.flatten_alt() == told.flatten_alt() + asked);
                assert(self.log@ =~= put + asked);
                assert(self.log@ =~= start.log@ + logs.flatten_alt());
                assert forall|x: int| 0 <= x < i + 1 implies is_answer(
                    n as int,
                    ks@[x] as int,
                    #[trigger] logs[x],
                    choice[x],
                ) by {
                    if x < i {
                        assert(logs[x] == told[x]);
                        assert(choice[x] == earlier[x]);
                    }
                }
                assert forall|t: usize| t < n implies rows(#[trigger] parts@[t as int]@) == part_of(
                    samples@,
                    choice,
                    t,
                    i as int + 1,
                ) by {
                    lemma_part_prefix(samples@, earlier, choice, t, i as int);
                    assert(rows(before[t as int]@) == part_of(samples@, earlier, t, i as int));
                }
                lemma_part_prefix(samples@, earlier, choice, 0, i as int);
                assert forall|x: int| 0 <= x < i + 1 implies is_selection(
                    n as int,
                    ks@[x] as int,
                    #[trigger] choice[x],
                ) by {
                    if x < i {
                        assert(choice[x] == earlier[x]);
                    }
                }
            }
            i = i + 1;
        }
        proof {
            assert forall|x: int| 0 <= x < samples@.len() implies self.num_attributes <= (
            #[trigger] samples@[x].data()).values.len() by {
                assert(samples@[x].values@.len() >= start.width());
            }
        }
        let dataset = ArrayDataset::from_samples(samples, self.num_attributes);
        assert(dataset.attribute_types() =~= all_numerical(self.num_attributes));
        let ghost total = samples@.len() as int;
        let ghost asked = self.log@;
        assert(asked == start.log@ + logs.flatten_alt());
        assert(are_answers(n as int, ks@, start.log@, asked, choice));
        let mut t: usize = 0;
        while t < n
            invariant
                t <= n == self.trees@.len(),
                n == parts@.len(),
                self.log@ == asked,
                start.wf(),
                n == start.config.num_trees,
                start.trees@.len() == n,
                plan == start.plan(),
                dataset.attribute_types() == all_numerical(start.num_attributes),
                total == samples@.len() <= u32::MAX,
                all_full(samples@, start.width()),
                self.config == start.config,
                self.num_attributes == start.num_attributes,
                self.add_rebuild_marks == start.add_rebuild_marks,
                self.forget_rebuild_marks == start.forget_rebuild_marks,
                self.tuning == start.tuning,
                self.members() == members_of(samples@, choice, total),
                self.classes() == classes_of(samples@, total),
                forall|u: usize|
                    t <= u < n ==> rows(#[trigger] parts@[u as int]@) == part_of(
                        samples@,
                        choice,
                        u,
                        total,
                    ),
                forall|u: usize|
                    t <= u < n ==> #[trigger] self.trees@[u as int] == start.trees@[u as int],
                forall|u: usize|
                    u < t ==> tree_fitted(
                        start.trees@[u as int],
                        #[trigger] self.trees@[u as int],
                        plan,
                        part_of(samples@, choice, u, total),
                    ),
                forall|u: usize|
                    u < t ==> start.fits_in(#[trigger] self.trees@[u as int], u as int),
            decreases n - t,
        {
            let ghost prior = self.trees@;
            let ghost m = part_of(samples@, choice, t, total);
            proof {
                lemma_part_len(samples@, choice, t, total);
                lemma_part_full(samples@, choice, t, total, plan);
                assert(rows(parts@[t as int]@) == m);
                lemma_rows(parts@[t as int]@);
                lemma_admits_each(plan, parts@[t as int]@);
                assert(start.fits_in(start.forest()[t as int], t as int));
                assert(self.trees@[t as int] == start.trees@[t as int]);
            }
            if parts[t].len() > 0 {
                self.trees[t].fit(&dataset, parts[t].as_mut_slice());
                assert(self.trees@ =~= prior.update(t as int, self.trees@[t as int]));
            }
            t = t + 1;
        }
        proof {
            assert(fitted_with(start, *self, samples@, ks@, choice));
            lemma_same_ids(samples@, choice, n as int, ks@, total);
            assert forall|u: int| 0 <= u < self.forest().len() implies self.fits_in(
                #[trigger] self.forest()[u],
                u,
            ) by {
                assert(start.fits_in(self.trees@[(u as usize) as int], u));
            }
        }
    }
}

} // verus!
