//! Forgetting samples of which the features may not be known, and forgetting many at once.

use super::learn::all_full;
use super::{all_numerical, in_forest, DynFrsForest};
use crate::dataset::{ArrayDataset, Dataset};
use crate::sample::{lemma_rows, rows, Rows, Sample, SampleData, VecSample};
use crate::table::IdTable;
use crate::tree::batch::forgot_many;
use crate::tree::grow::{lemma_admits_each, Plan};
use crate::tree::stream::{lemma_answers, lemma_removed_suits, remove_answer, removed_from};
use crate::tree::unlearn::{forgot_by_id, lemma_forgot_by_id_suits};
use crate::tree::DynFrsTree;
use vstd::prelude::*;

use super::stream::feature_views;

verus! {

/// What a tree becomes when it forgets a sample: if it streams and the features of the
/// sample are known, its statistics are kept up; otherwise the sample is only taken out
/// of the counts.
pub open spec fn tree_forgot(
    before: DynFrsTree,
    after: DynFrsTree,
    id: u64,
    features: Option<Seq<i64>>,
    label: bool,
) -> bool {
    if features is Some && before.streams() {
        removed_from(
            before,
            after,
            id,
            features->0,
            label,
            true,
            remove_answer(before, id, features->0, label, true),
        )
    } else {
        forgot_by_id(before, after, id, label)
    }
}

/// What a forest becomes when a sample is forgotten of which the features may not be
/// known.
pub open spec fn forgot_known(
    before: DynFrsForest,
    after: DynFrsForest,
    id: u64,
    features: Option<Seq<i64>>,
) -> bool {
    &&& after.same_setting(&before)
    &&& after.marks() == before.marks()
    &&& after.forest().len() == before.forest().len()
    &&& if before.members().contains_key(id) {
        &&& after.members() == before.members().remove(id)
        &&& after.classes() == before.classes().remove(id)
        &&& after.tuning() == before.tuning().uncounted(before.classes()[id])
        &&& forall|t: usize|
            t < before.forest().len() ==> if before.members()[id].contains(t) {
                tree_forgot(
                    before.forest()[t as int],
                    #[trigger] after.forest()[t as int],
                    id,
                    features,
                    before.classes()[id],
                )
            } else {
                after.forest()[t as int] == before.forest()[t as int]
            }
    } else {
        &&& after.members() == before.members()
        &&& after.classes() == before.classes()
        &&& after.forest() == before.forest()
        &&& after.tuning() == before.tuning()
    }
}

/// What is known of the features of a sample.
pub open spec fn features_of(features: Map<u64, Seq<i64>>, id: u64) -> Option<Seq<i64>> {
    if features.contains_key(id) {
        Some(features[id])
    } else {
        None
    }
}

/// Whether each of some forests comes from the one before by forgetting a sample of which
/// the features may not be known.
pub open spec fn forgot_known_each(
    steps: Seq<DynFrsForest>,
    ids: Seq<u64>,
    features: Map<u64, Seq<i64>>,
) -> bool {
    &&& steps.len() == ids.len() + 1
    &&& forall|i: int|
        0 <= i < ids.len() ==> forgot_known(
            steps[i],
            steps[i + 1],
            #[trigger] ids[i],
            features_of(features, ids[i]),
        )
}

/// What a forest becomes when samples are forgotten one after the other, with their
/// features where they are known.
pub open spec fn forgot_known_all(
    before: DynFrsForest,
    after: DynFrsForest,
    ids: Seq<u64>,
    features: Map<u64, Seq<i64>>,
) -> bool {
    &&& after.wf()
    &&& after.same_setting(&before)
    &&& after.members() == before.members().remove_keys(ids.to_set())
    &&& exists|steps: Seq<DynFrsForest>|
        {
            &&& #[trigger] forgot_known_each(steps, ids, features)
            &&& steps[0] == before
            &&& steps.last() == after
        }
}

/// How many of the first entries of a list name samples that are there, each once.
pub open spec fn there_count(members: Map<u64, Seq<usize>>, ids: Seq<u64>, n: int) -> nat
    decreases n,
{
    if n <= 0 {
        0
    } else {
        there_count(members, ids, n - 1) + if members.contains_key(ids[n - 1]) && !ids.take(
            n - 1,
        ).contains(ids[n - 1]) {
            1nat
        } else {
            0nat
        }
    }
}

/// What a tree has to forget of the first entries of a list, with the classes.
pub open spec fn to_forget(
    members: Map<u64, Seq<usize>>,
    classes: Map<u64, bool>,
    ids: Seq<u64>,
    tree: usize,
    n: int,
) -> Seq<(u64, bool)>
    decreases n,
{
    if n <= 0 {
        Seq::empty()
    } else {
        let before = to_forget(members, classes, ids, tree, n - 1);
        let id = ids[n - 1];
        if members.contains_key(id) && !ids.take(n - 1).contains(id) && members[id].contains(tree) {
            before.push((id, classes[id]))
        } else {
            before
        }
    }
}

/// Whether a tree has forgotten what it had to.
pub open spec fn tree_forgot_many(
    before: DynFrsTree,
    after: DynFrsTree,
    plan: Plan,
    m: Rows,
    list: Seq<(u64, bool)>,
) -> bool {
    if list.len() == 0 {
        after == before
    } else {
        &&& after.same_setting(&before)
        &&& exists|r: int| forgot_many(before, after, plan, m, list, r)
    }
}

/// Lists that have one more entry, and whether they contain something.
proof fn lemma_one_more<T>(list: Seq<T>, i: int, x: T)
    requires
        0 <= i < list.len(),
    ensures
        list.take(i + 1).contains(x) == (list.take(i).contains(x) || list[i] == x),
{
    let a = list.take(i);
    let b = list.take(i + 1);
    if a.contains(x) {
        assert(b[a.index_of(x)] == x);
    }
    assert(b[i] == list[i]);
    if b.contains(x) && list[i] != x {
        assert(a[b.index_of(x)] == x);
    }
}

impl DynFrsForest {
    /// Makes listed trees forget a sample.
    fn forget_in_trees(
        &mut self,
        list: &Vec<usize>,
        sample_id: u64,
        features: Option<&[i64]>,
        was_positive: bool,
    )
        requires
            old(self).wf(),
            in_forest(list@, old(self).trees@.len() as int),
        ensures
            final(self).sample_tree_map == old(self).sample_tree_map,
            final(self).sample_labels == old(self).sample_labels,
            final(self).config == old(self).config,
            final(self).num_attributes == old(self).num_attributes,
            final(self).add_rebuild_marks == old(self).add_rebuild_marks,
            final(self).forget_rebuild_marks == old(self).forget_rebuild_marks,
            final(self).tuning == old(self).tuning,
            final(self).trees@.len() == old(self).trees@.len(),
            forall|i: int|
                0 <= i < final(self).trees@.len() ==> final(self).fits_in(
                    #[trigger] final(self).trees@[i],
                    i,
                ),
            forall|t: usize|
                t < old(self).trees@.len() ==> if list@.contains(t) {
                    tree_forgot(
                        old(self).trees@[t as int],
                        #[trigger] final(self).trees@[t as int],
                        sample_id,
                        match features {
                            Some(f) => Some(f@),
                            None => None,
                        },
                        was_positive,
                    )
                } else {
                    final(self).trees@[t as int] == old(self).trees@[t as int]
                },
    {
        let ghost start = *self;
        let ghost known: Option<Seq<i64>> = match features {
            Some(f) => Some(f@),
            None => None,
        };
        let mut j: usize = 0;
        proof {
            assert forall|i: int| 0 <= i < self.trees@.len() implies self.fits_in(
                #[trigger] self.trees@[i],
                i,
            ) by {
                assert(self.fits_in(self.forest()[i], i));
            }
        }
        while j < list.len()
            invariant
                j <= list@.len(),
                in_forest(list@, start.trees@.len() as int),
                known == (match features {
                    Some(f) => Some(f@),
                    None => None,
                }),
                self.sample_tree_map == start.sample_tree_map,
                self.sample_labels == start.sample_labels,
                self.config == start.config,
                self.num_attributes == start.num_attributes,
                self.add_rebuild_marks == start.add_rebuild_marks,
                self.forget_rebuild_marks == start.forget_rebuild_marks,
                self.tuning == start.tuning,
                self.trees@.len() == start.trees@.len(),
                forall|i: int|
                    0 <= i < self.trees@.len() ==> self.fits_in(#[trigger] self.trees@[i], i),
                forall|t: usize|
                    t < start.trees@.len() ==> if list@.take(j as int).contains(t) {
                        tree_forgot(
                            start.trees@[t as int],
                            #[trigger] self.trees@[t as int],
                            sample_id,
                            known,
                            was_positive,
                        )
                    } else {
                        self.trees@[t as int] == start.trees@[t as int]
                    },
            decreases list@.len() - j,
        {
            let t: usize = list[j];
            let ghost before = *self;
            let ghost prior = self.trees@;
            let ghost a = list@.take(j as int);
            let ghost b = list@.take(j as int + 1);
            proof {
                assert(list@[j as int] < start.trees@.len());
                assert(self.fits_in(self.trees@[t as int], t as int));
                assert(!a.contains(t)) by {
                    if a.contains(t) {
                        let x = a.index_of(t);
                        assert(list@[x] < list@[j as int]);
                    }
                }
                assert(prior[t as int] == start.trees@[t as int]);
            }
            let streams: bool = self.trees[t].is_streaming();
            match features {
                Some(values) => {
                    if streams {
                        let _ = self.trees[t].remove_sample_streaming(
                            sample_id,
                            values,
                            was_positive,
                            true,
                        );
                        proof {
                            let after = self.trees@[t as int];
                            lemma_answers(prior[t as int], after);
                            lemma_removed_suits(
                                prior[t as int],
                                after,
                                start.plan(),
                                sample_id,
                                values@,
                                was_positive,
                                true,
                                remove_answer(
                                    prior[t as int],
                                    sample_id,
                                    values@,
                                    was_positive,
                                    true,
                                ),
                            );
                        }
                    } else {
                        let _ = self.trees[t].forget(sample_id, was_positive);
                        proof {
                            lemma_forgot_by_id_suits(
                                prior[t as int],
                                self.trees@[t as int],
                                sample_id,
                                was_positive,
                                start.plan(),
                            );
                        }
                    }
                },
                None => {
                    let _ = self.trees[t].forget(sample_id, was_positive);
                    proof {
                        lemma_forgot_by_id_suits(
                            prior[t as int],
                            self.trees@[t as int],
                            sample_id,
                            was_positive,
                            start.plan(),
                        );
                    }
                },
            }
            proof {
                let after = self.trees@[t as int];
                assert(self.trees@ =~= prior.update(t as int, after));
                assert(tree_forgot(prior[t as int], after, sample_id, known, was_positive));
                assert forall|i: int| 0 <= i < self.trees@.len() implies self.fits_in(
                    #[trigger] self.trees@[i],
                    i,
                ) by {
                    assert(before.fits_in(prior[i], i));
                }
                assert forall|u: usize| u < start.trees@.len() implies if b.contains(u) {
                    tree_forgot(
                        start.trees@[u as int],
                        #[trigger] self.trees@[u as int],
                        sample_id,
                        known,
                        was_positive,
                    )
                } else {
                    self.trees@[u as int] == start.trees@[u as int]
                } by {
                    lemma_one_more(list@, j as int, u);
                    if u != t {
                        assert(self.trees@[u as int] == prior[u as int]);
                    }
                }
            }
            j = j + 1;
        }
        assert(list@.take(j as int) =~= list@);
    }

    /// Forgets a sample of which the features may not be known.
    fn forget_impl(&mut self, sample_id: u64, features: Option<&[i64]>) -> (r: bool)
        requires
            old(self).wf(),
        ensures
            final(self).wf(),
            r == old(self).members().contains_key(sample_id),
            forgot_known(
                *old(self),
                *final(self),
                sample_id,
                match features {
                    Some(f) => Some(f@),
                    None => None,
                },
            ),
    {
        let (was_positive, list) = match self.release(sample_id) {
            Some(kept) => kept,
            None => {
                return false;
            },
        };
        self.forget_in_trees(&list, sample_id, features, was_positive);
        proof {
            assert forall|i: int| 0 <= i < self.forest().len() implies self.fits_in(
                #[trigger] self.forest()[i],
                i,
            ) by {}
        }
        true
    }

    /// Forgets a sample by its identifier alone. Says whether the forest had it. The
    /// statistics of trees that stream are not kept up.
    pub fn forget_by_id(&mut self, sample_id: u64) -> (r: bool)
        requires
            old(self).wf(),
        ensures
            final(self).wf(),
            r == old(self).members().contains_key(sample_id),
            forgot_known(*old(self), *final(self), sample_id, None),
    {
        self.forget_impl(sample_id, None)
    }

    /// Forgets a sample. Says whether the forest had it. The statistics of trees that
    /// stream are kept up.
    pub fn forget_with_features(&mut self, sample_id: u64, features: &[i64]) -> (r: bool)
        requires
            old(self).wf(),
        ensures
            final(self).wf(),
            r == old(self).members().contains_key(sample_id),
            forgot_known(*old(self), *final(self), sample_id, Some(features@)),
    {
        self.forget_impl(sample_id, Some(features))
    }

    /// Forgets samples one after the other, with their features where they are known.
    /// Says how many the forest had.
    pub fn forget_batch_with_features(
        &mut self,
        sample_ids: &[u64],
        feature_map: &IdTable<Vec<i64>>,
    ) -> (r: usize)
        requires
            old(self).wf(),
        ensures
            final(self).wf(),
            r == there_count(old(self).members(), sample_ids@, sample_ids@.len() as int),
            forgot_known_all(
                *old(self),
                *final(self),
                sample_ids@,
                feature_views(feature_map@),
            ),
    {
        let ghost features = feature_views(feature_map@);
        let ghost members = self.members();
        let ghost mut steps: Seq<DynFrsForest> = seq![*self];
        let mut count: usize = 0;
        let mut i: usize = 0;
        assert(self.members() =~= members.remove_keys(sample_ids@.take(0).to_set()));
        while i < sample_ids.len()
            invariant
                i <= sample_ids@.len(),
                self.wf(),
                features == feature_views(feature_map@),
                self.same_setting(old(self)),
                forgot_known_each(steps, sample_ids@.take(i as int), features),
                steps[0] == *old(self),
                steps.last() == *self,
                count <= i,
                count == there_count(members, sample_ids@, i as int),
                self.members() == members.remove_keys(sample_ids@.take(i as int).to_set()),
            decreases sample_ids@.len() - i,
        {
            let id: u64 = sample_ids[i];
            let ghost a = sample_ids@.take(i as int);
            let ghost b = sample_ids@.take(i as int + 1);
            let ghost earlier = steps;
            let gone: bool = match feature_map.get(id) {
                Some(values) => self.forget_impl(id, Some(values.as_slice())),
                None => self.forget_impl(id, None),
            };
            if gone {
                count = count + 1;
            }
            proof {
                steps = steps.push(*self);
                assert forall|j: int| 0 <= j < b.len() implies forgot_known(
                    steps[j],
                    steps[j + 1],
                    #[trigger] b[j],
                    features_of(features, b[j]),
                ) by {
                    if j < i {
                        assert(b[j] == a[j]);
                    }
                }
                assert forall|x: u64| b.contains(x) == (a.contains(x) || x == id) by {
                    lemma_one_more(sample_ids@, i as int, x);
                }
                assert(self.members() =~= members.remove_keys(b.to_set()));
            }
            i = i + 1;
        }
        assert(sample_ids@.take(i as int) =~= sample_ids@);
        count
    }

    /// Forgets many samples at once: each tree forgets those that it has, in the way that
    /// is faster for it. Says how many the forest had.
    pub fn forget_batch_optimized(&mut self, sample_ids: &[u64], samples: &[VecSample]) -> (r:
        usize)
        requires
            old(self).wf(),
            samples@.len() <= u32::MAX,
            all_full(samples@, old(self).width()),
        ensures
            final(self).wf(),
            final(self).same_setting(old(self)),
            final(self).marks() == old(self).marks(),
            final(self).tuning() == old(self).tuning(),
            final(self).members() == old(self).members().remove_keys(sample_ids@.to_set()),
            final(self).classes() == old(self).classes().remove_keys(sample_ids@.to_set()),
            r == there_count(old(self).members(), sample_ids@, sample_ids@.len() as int),
            final(self).forest().len() == old(self).forest().len(),
            forall|t: usize|
                t < old(self).forest().len() ==> tree_forgot_many(
                    old(self).forest()[t as int],
                    #[trigger] final(self).forest()[t as int],
                    old(self).plan(),
                    rows(samples@),
                    to_forget(
                        old(self).members(),
                        old(self).classes(),
                        sample_ids@,
                        t,
                        sample_ids@.len() as int,
                    ),
                ),
    {
        let ghost start = *self;
        let ghost members = self.members();
        let ghost classes = self.classes();
        let n: usize = self.trees.len();
        let tuning = self.tuning;
        let mut lists: Vec<Vec<(u64, bool)>> = Vec::new();
        while lists.len() < n
            invariant
                lists@.len() <= n,
                forall|t: int|
                    0 <= t < lists@.len() ==> (#[trigger] lists@[t])@ == Seq::<
                        (u64, bool),
                    >::empty(),
            decreases n - lists@.len(),
        {
            let none: Vec<(u64, bool)> = Vec::new();
            assert(none@ =~= Seq::<(u64, bool)>::empty());
            lists.push(none);
        }
        let mut count: usize = 0;
        let mut i: usize = 0;
        assert(self.members() =~= members.remove_keys(sample_ids@.take(0).to_set()));
        assert(self.classes() =~= classes.remove_keys(sample_ids@.take(0).to_set()));
        while i < sample_ids.len()
            invariant
                i <= sample_ids@.len(),
                self.wf(),
                start.wf(),
                members == start.members(),
                classes == start.classes(),
                n == start.trees@.len(),
                self.trees == start.trees,
                self.config == start.config,
                self.num_attributes == start.num_attributes,
                self.add_rebuild_marks == start.add_rebuild_marks,
                self.forget_rebuild_marks == start.forget_rebuild_marks,
                count <= i,
                count == there_count(members, sample_ids@, i as int),
                self.members() == members.remove_keys(sample_ids@.take(i as int).to_set()),
                self.classes() == classes.remove_keys(sample_ids@.take(i as int).to_set()),
                lists@.len() == n,
                forall|t: usize|
                    t < n ==> (#[trigger] lists@[t as int])@ == to_forget(
                        members,
                        classes,
                        sample_ids@,
                        t,
                        i as int,
                    ),
            decreases sample_ids@.len() - i,
        {
            let id: u64 = sample_ids[i];
            let ghost a = sample_ids@.take(i as int);
            let ghost b = sample_ids@.take(i as int + 1);
            let ghost before = lists@;
            proof {
                assert(self.members().contains_key(id) == (members.contains_key(id) && !a.contains(
                    id,
                )));
                assert(members.dom() == classes.dom());
                assert(members.dom().contains(id) == classes.dom().contains(id));
            }
            match self.release(id) {
                Some((label, list)) => {
                    count = count + 1;
                    proof {
                        assert(start.members().contains_key(id));
                        assert(in_forest(list@, n as int));
                        assert(label == classes[id]);
                    }
                    note_for_trees(&mut lists, &list, id, label);
                },
                None => {},
            }
            proof {
                assert forall|x: u64| b.contains(x) == (a.contains(x) || x == id) by {
                    lemma_one_more(sample_ids@, i as int, x);
                }
                assert(self.members() =~= members.remove_keys(b.to_set()));
                assert forall|x: u64| !members.contains_key(x) implies !classes.contains_key(x) by {
                    assert(members.dom().contains(x) == classes.dom().contains(x));
                }
                assert(self.classes() =~= classes.remove_keys(b.to_set()));
                assert forall|t: usize| t < n implies (#[trigger] lists@[t as int])@ == to_forget(
                    members,
                    classes,
                    sample_ids@,
                    t,
                    i as int + 1,
                ) by {
                    assert(before[t as int]@ == to_forget(
                        members,
                        classes,
                        sample_ids@,
                        t,
                        i as int,
                    ));
                }
            }
            i = i + 1;
        }
        assert(sample_ids@.take(i as int) =~= sample_ids@);
        self.tuning = tuning;
        proof {
            assert forall|x: int| 0 <= x < samples@.len() implies self.num_attributes <= (
            #[trigger] samples@[x].data()).values.len() by {
                assert(samples@[x].values@.len() >= start.width());
            }
        }
        let dataset = ArrayDataset::from_samples(samples, self.num_attributes);
        assert(dataset.attribute_types() =~= all_numerical(self.num_attributes));
        let ghost m = rows(samples@);
        let ghost plan = start.plan();
        let ghost total = sample_ids@.len() as int;
        let ghost released = *self;
        proof {
            lemma_rows(samples@);
            assert forall|d: SampleData| #[trigger] m.count(d) > 0 implies plan.admits(d.values) by {
                let x = choose|x: int| 0 <= x < samples@.len() && samples@[x].data() == d;
                assert(samples@[x].data().values.len() >= start.width());
            }
        }
        proof {
            lemma_admits_each(plan, samples@);
        }
        let mut t: usize = 0;
        while t < n
            invariant
                t <= n == self.trees@.len() == start.trees@.len() == lists@.len(),
                start.wf(),
                plan == start.plan(),
                m == rows(samples@),
                samples@.len() <= u32::MAX,
                total == sample_ids@.len(),
                members == start.members(),
                classes == start.classes(),
                dataset.attribute_types() == all_numerical(start.num_attributes),
                plan.admits_each(samples@),
                self.sample_tree_map == released.sample_tree_map,
                self.sample_labels == released.sample_labels,
                self.config == start.config,
                self.num_attributes == start.num_attributes,
                self.add_rebuild_marks == start.add_rebuild_marks,
                self.forget_rebuild_marks == start.forget_rebuild_marks,
                self.tuning == start.tuning,
                forall|u: usize|
                    u < n ==> (#[trigger] lists@[u as int])@ == to_forget(
                        members,
                        classes,
                        sample_ids@,
                        u,
                        total,
                    ),
                forall|u: int|
                    t <= u < n ==> #[trigger] self.trees@[u] == start.trees@[u],
                forall|u: usize|
                    u < t ==> tree_forgot_many(
                        start.trees@[u as int],
                        #[trigger] self.trees@[u as int],
                        plan,
                        m,
                        to_forget(members, classes, sample_ids@, u, total),
                    ),
                forall|u: int| 0 <= u < t ==> start.fits_in(#[trigger] self.trees@[u], u),
            decreases n - t,
        {
            let ghost prior = self.trees@;
            proof {
                assert(start.fits_in(start.forest()[t as int], t as int));
                assert(self.trees@[t as int] == start.trees@[t as int]);
                assert(lists@[t as int]@ == to_forget(members, classes, sample_ids@, t, total));
            }
            if lists[t].len() > 0 {
                let _ = self.trees[t].forget_batch_optimized(
                    lists[t].as_slice(),
                    &dataset,
                    samples,
                );
                assert(self.trees@ =~= prior.update(t as int, self.trees@[t as int]));
            }
            t = t + 1;
        }
        proof {
            assert forall|u: int| 0 <= u < self.forest().len() implies self.fits_in(
                #[trigger] self.forest()[u],
                u,
            ) by {
                assert(start.fits_in(self.trees@[u], u));
            }
        }
        count
    }
}

/// Notes for listed trees that they have to forget a sample.
fn note_for_trees(
    lists: &mut Vec<Vec<(u64, bool)>>,
    trees: &Vec<usize>,
    id: u64,
    label: bool,
)
    requires
        in_forest(trees@, old(lists)@.len() as int),
    ensures
        final(lists)@.len() == old(lists)@.len(),
        forall|t: usize|
            t < old(lists)@.len() ==> (#[trigger] final(lists)@[t as int])@ == (
            if trees@.contains(t) {
                old(lists)@[t as int]@.push((id, label))
            } else {
                old(lists)@[t as int]@
            }),
{
    let ghost start = lists@;
    let mut j: usize = 0;
    while j < trees.len()
        invariant
            j <= trees@.len(),
            lists@.len() == start.len(),
            in_forest(trees@, start.len() as int),
            forall|t: usize|
                t < start.len() ==> (#[trigger] lists@[t as int])@ == (if trees@.take(
                    j as int,
                ).contains(t) {
                    start[t as int]@.push((id, label))
                } else {
                    start[t as int]@
                }),
        decreases trees@.len() - j,
    {
        let t: usize = trees[j];
        let ghost prior = lists@;
        let ghost a = trees@.take(j as int);
        proof {
            assert(trees@[j as int] < start.len());
            assert(!a.contains(t)) by {
                if a.contains(t) {
                    let x = a.index_of(t);
                    assert(trees@[x] < trees@[j as int]);
                }
            }
        }
        lists[t].push((id, label));
        proof {
            assert forall|u: usize| u < start.len() implies (#[trigger] lists@[u as int])@ == (
            if trees@.take(j as int + 1).contains(u) {
                start[u as int]@.push((id, label))
            } else {
                start[u as int]@
            }) by {
                lemma_one_more(trees@, j as int, u);
                assert(prior[u as int]@ == (if a.contains(u) {
                    start[u as int]@.push((id, label))
                } else {
                    start[u as int]@
                }));
            }
        }
        j = j + 1;
    }
    assert(trees@.take(j as int) =~= trees@);
}

} // verus!
