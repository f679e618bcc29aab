//! Learning and forgetting one sample at a time.

use super::learn::{all_full, asking, forgot, learnt, learnt_by, lemma_forest_routes, marked};
use super::{in_forest, DynFrsForest};
use crate::sample::{Sample, VecSample};
use crate::table::IdTable;
use crate::tree::collect::{by_id, states_made};
use crate::tree::stream::{
    add_answer, added_to, lemma_added_suits, lemma_answers, lemma_removed_suits, remove_answer,
    removed_from, Change,
};
use crate::tree::DynFrsTree;
use crate::streaming::StateView;
use crate::node::node_id::ROOT;
use vstd::prelude::*;

verus! {

/// What features are kept of samples.
pub open spec fn feature_views(features: Map<u64, Vec<i64>>) -> Map<u64, Seq<i64>> {
    features.map_values(|v: Vec<i64>| v@)
}

/// Whether each of some forests comes from the one before by forgetting a sample whose
/// features are kept; a sample without features is passed over.
pub open spec fn forgot_each(
    steps: Seq<DynFrsForest>,
    ids: Seq<u64>,
    features: Map<u64, Seq<i64>>,
) -> bool {
    &&& steps.len() == ids.len() + 1
    &&& forall|i: int| 0 <= i < steps.len() ==> (#[trigger] steps[i]).wf()
    &&& forall|i: int|
        0 <= i < ids.len() ==> if features.contains_key(#[trigger] ids[i]) {
            forgot(steps[i], steps[i + 1], ids[i], features[ids[i]], true)
        } else {
            steps[i + 1] == steps[i]
        }
}

/// How many of the first samples of a list were forgotten.
pub open spec fn forgotten_count(
    steps: Seq<DynFrsForest>,
    ids: Seq<u64>,
    features: Map<u64, Seq<i64>>,
    n: int,
) -> nat
    decreases n,
{
    if n <= 0 {
        0
    } else {
        forgotten_count(steps, ids, features, n - 1) + if features.contains_key(ids[n - 1])
            && steps[n - 1].members().contains_key(ids[n - 1]) {
            1nat
        } else {
            0nat
        }
    }
}

/// Whether each of some forests comes from the one before by learning a sample.
pub open spec fn learnt_each(
    steps: Seq<DynFrsForest>,
    samples: Seq<VecSample>,
    lazy: bool,
    answers: Seq<(bool, bool)>,
) -> bool {
    &&& steps.len() == samples.len() + 1
    &&& answers.len() == samples.len()
    &&& forall|i: int| 0 <= i < steps.len() ==> (#[trigger] steps[i]).wf()
    &&& forall|i: int|
        0 <= i < samples.len() ==> learnt(
            steps[i],
            steps[i + 1],
            #[trigger] samples[i],
            lazy,
            answers[i],
        )
}

/// What a forest becomes when samples are learnt one after the other: the counts say how
/// many were new and how many have asked for work.
pub open spec fn learnt_all(
    before: DynFrsForest,
    after: DynFrsForest,
    samples: Seq<VecSample>,
    lazy: bool,
    r: (usize, usize),
) -> bool {
    &&& exists|steps: Seq<DynFrsForest>, answers: Seq<(bool, bool)>|
        {
            &&& #[trigger] learnt_each(steps, samples, lazy, answers)
            &&& steps[0] == before
            &&& after.forest() == steps.last().forest()
            &&& after.members() == steps.last().members()
            &&& after.classes() == steps.last().classes()
            &&& after.same_setting(&steps.last())
            &&& after.tuning() == steps.last().tuning()
            &&& after.asked() == steps.last().asked()
            &&& r.0 == learnt_count(answers, samples.len() as int)
            &&& r.1 == work_count(answers, samples.len() as int)
        }
    &&& after.marks() == (marked(before.marks().0, r.1 as nat), before.marks().1)
}

/// A forest that has learnt samples has those samples and what it had before, and keeps
/// its settings.
pub proof fn lemma_learnt_members(
    before: DynFrsForest,
    after: DynFrsForest,
    samples: Seq<VecSample>,
    lazy: bool,
    r: (usize, usize),
)
    requires
        learnt_all(before, after, samples, lazy, r),
    ensures
        after.same_setting(&before),
        forall|id: u64| #[trigger]
            after.members().contains_key(id) <==> before.members().contains_key(id) || exists|
                i: int,
            |
                0 <= i < samples.len() && (#[trigger] samples[i]).id == id,
{
    let (steps, answers) = choose|steps: Seq<DynFrsForest>, answers: Seq<(bool, bool)>|
        {
            &&& #[trigger] learnt_each(steps, samples, lazy, answers)
            &&& steps[0] == before
            &&& after.forest() == steps.last().forest()
            &&& after.members() == steps.last().members()
            &&& after.classes() == steps.last().classes()
            &&& after.same_setting(&steps.last())
            &&& after.tuning() == steps.last().tuning()
            &&& r.0 == learnt_count(answers, samples.len() as int)
            &&& r.1 == work_count(answers, samples.len() as int)
        };
    lemma_learnt_each_members(steps, samples, lazy, answers, samples.len() as int);
}

/// After some steps a forest has the samples that it has learnt by then.
proof fn lemma_learnt_each_members(
    steps: Seq<DynFrsForest>,
    samples: Seq<VecSample>,
    lazy: bool,
    answers: Seq<(bool, bool)>,
    n: int,
)
    requires
        learnt_each(steps, samples, lazy, answers),
        0 <= n <= samples.len(),
    ensures
        steps[n].same_setting(&steps[0]),
        forall|id: u64| #[trigger]
            steps[n].members().contains_key(id) <==> steps[0].members().contains_key(id) || exists|
                i: int,
            |
                0 <= i < n && (#[trigger] samples[i]).id == id,
    decreases n,
{
    if n > 0 {
        lemma_learnt_each_members(steps, samples, lazy, answers, n - 1);
        let s = samples[n - 1];
        assert(learnt(steps[n - 1], steps[n], s, lazy, answers[n - 1]));
        let a = steps[n - 1].members();
        let b = steps[n].members();
        assert forall|id: u64| #[trigger] b.contains_key(id) <==> a.contains_key(id) || id == s.id by {
            if !a.contains_key(s.id) {
                let chosen = choose|chosen: Seq<usize>| #[trigger]
                    super::learn::learnt_by(
                        steps[n - 1],
                        steps[n],
                        s,
                        lazy,
                        answers[n - 1],
                        chosen,
                    );
                assert(b == a.insert(s.id, chosen));
            }
        }
        assert forall|id: u64| #[trigger] b.contains_key(id) <==> steps[0].members().contains_key(
            id,
        ) || exists|i: int| 0 <= i < n && (#[trigger] samples[i]).id == id by {
            assert(b.contains_key(id) <==> a.contains_key(id) || id == s.id);
            if id == s.id {
                assert(samples[n - 1].id == id);
            }
            if a.contains_key(id) && !steps[0].members().contains_key(id) {
                let i = choose|i: int| 0 <= i < n - 1 && (#[trigger] samples[i]).id == id;
                assert(samples[i].id == id);
            }
            if exists|i: int| 0 <= i < n && (#[trigger] samples[i]).id == id {
                let i = choose|i: int| 0 <= i < n && (#[trigger] samples[i]).id == id;
                if i < n - 1 {
                    assert(samples[i].id == id);
                    assert(a.contains_key(id));
                }
            }
        }
    }
}

/// How many of the first answers say that a sample was learnt.
pub open spec fn learnt_count(answers: Seq<(bool, bool)>, n: int) -> nat
    decreases n,
{
    if n <= 0 {
        0
    } else {
        learnt_count(answers, n - 1) + if answers[n - 1].0 {
            1nat
        } else {
            0nat
        }
    }
}

/// How many of the first answers ask for work.
pub open spec fn work_count(answers: Seq<(bool, bool)>, n: int) -> nat
    decreases n,
{
    if n <= 0 {
        0
    } else {
        work_count(answers, n - 1) + if answers[n - 1].1 {
            1nat
        } else {
            0nat
        }
    }
}

impl DynFrsForest {
    /// Makes listed trees forget a sample. Says how many of them ask for work.
    fn remove_from_trees(
        &mut self,
        list: &Vec<usize>,
        sample_id: u64,
        features: &[i64],
        was_positive: bool,
        lazy: bool,
    ) -> (r: usize)
        requires
            old(self).trees@.len() == old(self).config.num_trees,
            forall|i: int|
                0 <= i < old(self).trees@.len() ==> old(self).fits_in(
                    #[trigger] old(self).trees@[i],
                    i,
                ),
            in_forest(list@, old(self).trees@.len() as int),
        ensures
            final(self).sample_tree_map == old(self).sample_tree_map,
            final(self).sample_labels == old(self).sample_labels,
            final(self).config == old(self).config,
            final(self).num_attributes == old(self).num_attributes,
            final(self).rng == old(self).rng,
            final(self).log == old(self).log,
            final(self).add_rebuild_marks == old(self).add_rebuild_marks,
            final(self).forget_rebuild_marks == old(self).forget_rebuild_marks,
            final(self).tuning == old(self).tuning,
            final(self).trees@.len() == old(self).trees@.len(),
            forall|i: int|
                0 <= i < final(self).trees@.len() ==> final(self).fits_in(
                    #[trigger] final(self).trees@[i],
                    i,
                ),
            forall|t: usize|
                t < old(self).trees@.len() ==> if list@.contains(t) {
                    removed_from(
                        old(self).trees@[t as int],
                        #[trigger] final(self).trees@[t as int],
                        sample_id,
                        features@,
                        was_positive,
                        lazy,
                        remove_answer(
                            old(self).trees@[t as int],
                            sample_id,
                            features@,
                            was_positive,
                            lazy,
                        ),
                    )
                } else {
                    final(self).trees@[t as int] == old(self).trees@[t as int]
                },
            r == asking(
                old(self).trees@,
                list@,
                list@.len() as int,
                sample_id,
                features@,
                was_positive,
                lazy,
            ),
            r <= list@.len(),
    {
        let ghost start = *self;
        let mut count: usize = 0;
        let mut j: usize = 0;
        while j < list.len()
            invariant
                j <= list@.len(),
                in_forest(list@, start.trees@.len() as int),
                self.sample_tree_map == start.sample_tree_map,
                self.sample_labels == start.sample_labels,
                self.config == start.config,
                self.num_attributes == start.num_attributes,
                self.rng == start.rng,
                self.log == start.log,
                self.add_rebuild_marks == start.add_rebuild_marks,
                self.forget_rebuild_marks == start.forget_rebuild_marks,
                self.tuning == start.tuning,
                self.trees@.len() == start.trees@.len(),
                forall|i: int|
                    0 <= i < self.trees@.len() ==> self.fits_in(#[trigger] self.trees@[i], i),
                forall|t: usize|
                    t < start.trees@.len() ==> if list@.take(j as int).contains(t) {
                        removed_from(
                            start.trees@[t as int],
                            #[trigger] self.trees@[t as int],
                            sample_id,
                            features@,
                            was_positive,
                            lazy,
                            remove_answer(
                                start.trees@[t as int],
                                sample_id,
                                features@,
                                was_positive,
                                lazy,
                            ),
                        )
                    } else {
                        self.trees@[t as int] == start.trees@[t as int]
                    },
                count <= j,
                count == asking(
                    start.trees@,
                    list@,
                    j as int,
                    sample_id,
                    features@,
                    was_positive,
                    lazy,
                ),
            decreases list@.len() - j,
        {
            let t: usize = list[j];
            let ghost prior = self.trees@;
            let ghost a = list@.take(j as int);
            let ghost b = list@.take(j as int + 1);
            proof {
                assert(list@[j as int] < start.trees@.len());
                assert(self.fits_in(self.trees@[t as int], t as int));
                assert(!a.contains(t)) by {
                    if a.contains(t) {
                        let x = a.index_of(t);
                        assert(list@[x] < list@[j as int]);
                    }
                }
                assert(prior[t as int] == start.trees@[t as int]);
                assert forall|u: usize| b.contains(u) == (a.contains(u) || u == t) by {
                    if a.contains(u) {
                        assert(b[a.index_of(u)] == u);
                    }
                    assert(b[j as int] == t);
                    if b.contains(u) && u != t {
                        assert(a[b.index_of(u)] == u);
                    }
                }
            }
            let (_, work) = self.trees[t].remove_sample_streaming(
                sample_id,
                features,
                was_positive,
                lazy,
            );
            proof {
                let after = self.trees@[t as int];
                lemma_answers(prior[t as int], after);
                lemma_removed_suits(
                    prior[t as int],
                    after,
                    start.plan(),
                    sample_id,
                    features@,
                    was_positive,
                    lazy,
                    remove_answer(prior[t as int], sample_id, features@, was_positive, lazy),
                );
                assert(self.trees@ =~= prior.update(t as int, after));
                assert forall|i: int| 0 <= i < self.trees@.len() implies self.fits_in(
                    #[trigger] self.trees@[i],
                    i,
                ) by {
                    assert(start.fits_in(prior[i], i) || self.fits_in(prior[i], i));
                }
                assert forall|u: usize| u < start.trees@.len() implies if b.contains(u) {
                    removed_from(
                        start.trees@[u as int],
                        #[trigger] self.trees@[u as int],
                        sample_id,
                        features@,
                        was_positive,
                        lazy,
                        remove_answer(
                            start.trees@[u as int],
                            sample_id,
                            features@,
                            was_positive,
                            lazy,
                        ),
                    )
                } else {
                    self.trees@[u as int] == start.trees@[u as int]
                } by {
                    assert(b.contains(u) == (a.contains(u) || u == t));
                    if u != t {
                        assert(self.trees@[u as int] == prior[u as int]);
                    }
                }
            }
            if work {
                count = count + 1;
            }
            j = j + 1;
        }
        assert(list@.take(j as int) =~= list@);
        count
    }

    /// Takes out what is kept of a sample: its class and its trees.
    pub(super) fn release(&mut self, sample_id: u64) -> (r: Option<(bool, Vec<usize>)>)
        requires
            old(self).wf(),
        ensures
            final(self).trees == old(self).trees,
            final(self).config == old(self).config,
            final(self).num_attributes == old(self).num_attributes,
            final(self).rng == old(self).rng,
            final(self).log == old(self).log,
            final(self).add_rebuild_marks == old(self).add_rebuild_marks,
            final(self).forget_rebuild_marks == old(self).forget_rebuild_marks,
            final(self).wf(),
            match r {
                Some((label, list)) => {
                    &&& old(self).members().contains_key(sample_id)
                    &&& label == old(self).classes()[sample_id]
                    &&& list@ == old(self).members()[sample_id]
                    &&& final(self).members() == old(self).members().remove(sample_id)
                    &&& final(self).classes() == old(self).classes().remove(sample_id)
                    &&& final(self).tuning() == old(self).tuning().uncounted(label)
                },
                None => {
                    &&& !old(self).members().contains_key(sample_id)
                    &&& final(self).members() == old(self).members()
                    &&& final(self).classes() == old(self).classes()
                    &&& final(self).tuning() == old(self).tuning()
                },
            },
    {
        proof {
            assert(self.members().dom() =~= self.sample_tree_map@.dom());
            assert(self.members().contains_key(sample_id) == self.classes().contains_key(
                sample_id,
            )) by {
                assert(self.members().dom().contains(sample_id) == self.classes().dom().contains(
                    sample_id,
                ));
            }
        }
        let label = self.sample_labels.remove(sample_id);
        let list = self.sample_tree_map.remove(sample_id);
        proof {
            assert(self.members() =~= old(self).members().remove(sample_id));
            assert(self.members().dom() =~= self.classes().dom());
            if !old(self).members().contains_key(sample_id) {
                assert(self.members() =~= old(self).members());
                assert(self.classes() =~= old(self).classes());
            }
            assert forall|i: int| 0 <= i < self.forest().len() implies self.fits_in(
                #[trigger] self.forest()[i],
                i,
            ) by {
                assert(old(self).fits_in(old(self).forest()[i], i));
            }
            assert forall|id: u64| #[trigger] self.members().contains_key(id) implies in_forest(
                self.members()[id],
                self.settings().num_trees as int,
            ) by {
                assert(old(self).members().contains_key(id));
            }
        }
        match (label, list) {
            (Some(l), Some(t)) => {
                self.tuning = self.tuning.count_out(l);
                Some((l, t))
            },
            _ => None,
        }
    }

    /// Forgets a sample: every tree that it was put into takes it out of its leaf and of
    /// the counts and statistics of every node above. Says whether the forest had it.
    pub fn forget(&mut self, sample_id: u64, features: &[i64]) -> (r: bool)
        requires
            old(self).wf(),
        ensures
            final(self).wf(),
            r == old(self).members().contains_key(sample_id),
            forgot(*old(self), *final(self), sample_id, features@, true),
            final(self).marks().0 == old(self).marks().0,
            final(self).marks().1 == (if r {
                marked(
                    old(self).marks().1,
                    asking(
                        old(self).forest(),
                        old(self).members()[sample_id],
                        old(self).members()[sample_id].len() as int,
                        sample_id,
                        features@,
                        old(self).classes()[sample_id],
                        true,
                    ),
                )
            } else {
                old(self).marks().1
            }),
    {
        let (was_positive, list) = match self.release(sample_id) {
            Some(kept) => kept,
            None => {
                return false;
            },
        };
        let count: usize = self.remove_from_trees(
            &list,
            sample_id,
            features,
            was_positive,
            true,
        );
        self.forget_rebuild_marks = self.forget_rebuild_marks.saturating_add(count as u64);
        proof {
            assert forall|i: int| 0 <= i < self.forest().len() implies self.fits_in(
                #[trigger] self.forest()[i],
                i,
            ) by {}
        }
        true
    }

    /// Forgets a sample and says whether the forest had it, and whether a tree asks for
    /// work.
    pub fn remove_sample_streaming(
        &mut self,
        sample_id: u64,
        features: &[i64],
        use_lazy_rebuild: bool,
    ) -> (r: (bool, bool))
        requires
            old(self).wf(),
        ensures
            final(self).wf(),
            final(self).marks() == old(self).marks(),
            r.0 == old(self).members().contains_key(sample_id),
            forgot(*old(self), *final(self), sample_id, features@, use_lazy_rebuild),
            r.1 == (r.0 && asking(
                old(self).forest(),
                old(self).members()[sample_id],
                old(self).members()[sample_id].len() as int,
                sample_id,
                features@,
                old(self).classes()[sample_id],
                use_lazy_rebuild,
            ) > 0),
    {
        let (was_positive, list) = match self.release(sample_id) {
            Some(kept) => kept,
            None => {
                return (false, false);
            },
        };
        let count: usize = self.remove_from_trees(
            &list,
            sample_id,
            features,
            was_positive,
            use_lazy_rebuild,
        );
        proof {
            assert forall|i: int| 0 <= i < self.forest().len() implies self.fits_in(
                #[trigger] self.forest()[i],
                i,
            ) by {}
        }
        (true, count > 0)
    }

    /// Forgets samples whose features are kept, one after the other, and passes over the
    /// others. Says how many were forgotten.
    pub fn forget_batch(&mut self, sample_ids: &[u64], feature_map: &IdTable<Vec<i64>>) -> (r:
        usize)
        requires
            old(self).wf(),
        ensures
            final(self).wf(),
            final(self).members() == old(self).members().remove_keys(
                Set::new(|id: u64| sample_ids@.contains(id) && feature_map@.contains_key(id)),
            ),
            exists|steps: Seq<DynFrsForest>|
                {
                    &&& #[trigger] forgot_each(
                        steps,
                        sample_ids@,
                        feature_views(feature_map@),
                    )
                    &&& steps[0] == *old(self)
                    &&& steps.last() == *final(self)
                    &&& r == forgotten_count(
                        steps,
                        sample_ids@,
                        feature_views(feature_map@),
                        sample_ids@.len() as int,
                    )
                },
    {
        let ghost features = feature_views(feature_map@);
        let ghost mut steps: Seq<DynFrsForest> = seq![*self];
        let mut count: usize = 0;
        let mut i: usize = 0;
        assert(self.members() =~= old(self).members().remove_keys(
            Set::new(
                |id: u64| sample_ids@.take(0).contains(id) && feature_map@.contains_key(id),
            ),
        ));
        while i < sample_ids.len()
            invariant
                i <= sample_ids@.len(),
                self.wf(),
                features == feature_views(feature_map@),
                forgot_each(steps, sample_ids@.take(i as int), features),
                steps[0] == *old(self),
                steps.last() == *self,
                count <= i,
                count == forgotten_count(steps, sample_ids@.take(i as int), features, i as int),
                self.members() == old(self).members().remove_keys(
                    Set::new(
                        |id: u64|
                            sample_ids@.take(i as int).contains(id) && feature_map@.contains_key(
                                id,
                            ),
                    ),
                ),
            decreases sample_ids@.len() - i,
        {
            let id: u64 = sample_ids[i];
            let ghost before = *self;
            let ghost a = sample_ids@.take(i as int);
            let ghost b = sample_ids@.take(i as int + 1);
            let ghost earlier = steps;
            match feature_map.get(id) {
                Some(values) => {
                    if self.forget(id, values.as_slice()) {
                        count = count + 1;
                    }
                },
                None => {},
            }
            proof {
                steps = steps.push(*self);
                assert forall|j: int| 0 <= j < b.len() implies if features.contains_key(
                    #[trigger] b[j],
                ) {
                    forgot(steps[j], steps[j + 1], b[j], features[b[j]], true)
                } else {
                    steps[j + 1] == steps[j]
                } by {
                    if j < i {
                        assert(b[j] == a[j]);
                    }
                }
                lemma_forgotten_prefix(earlier, steps, a, b, features, i as int);
                assert forall|x: u64| b.contains(x) == (a.contains(x) || x == id) by {
                    if a.contains(x) {
                        assert(b[a.index_of(x)] == x);
                    }
                    assert(b[i as int] == id);
                    if b.contains(x) && x != id {
                        assert(a[b.index_of(x)] == x);
                    }
                }
                assert(self.members() =~= old(self).members().remove_keys(
                    Set::new(|x: u64| b.contains(x) && feature_map@.contains_key(x)),
                ));
            }
            i = i + 1;
        }
        assert(sample_ids@.take(i as int) =~= sample_ids@);
        count
    }

    /// Makes listed trees learn a sample. Says whether one of them asks for work.
    fn add_to_trees(&mut self, list: &Vec<usize>, sample: &VecSample, lazy: bool) -> (r: bool)
        requires
            old(self).wf(),
            in_forest(list@, old(self).trees@.len() as int),
            sample.values@.len() >= old(self).width(),
        ensures
            final(self).sample_tree_map == old(self).sample_tree_map,
            final(self).sample_labels == old(self).sample_labels,
            final(self).config == old(self).config,
            final(self).num_attributes == old(self).num_attributes,
            final(self).rng == old(self).rng,
            final(self).log == old(self).log,
            final(self).add_rebuild_marks == old(self).add_rebuild_marks,
            final(self).forget_rebuild_marks == old(self).forget_rebuild_marks,
            final(self).tuning == old(self).tuning,
            final(self).wf(),
            final(self).trees@.len() == old(self).trees@.len(),
            forall|t: usize|
                t < old(self).trees@.len() ==> if list@.contains(t) {
                    added_to(
                        old(self).trees@[t as int],
                        #[trigger] final(self).trees@[t as int],
                        sample.data(),
                        sample.values@,
                        lazy,
                        add_answer(
                            old(self).trees@[t as int],
                            sample.data(),
                            sample.values@,
                            lazy,
                        ),
                    )
                } else {
                    final(self).trees@[t as int] == old(self).trees@[t as int]
                },
            r == exists|i: int|
                0 <= i < list@.len() && add_answer(
                    old(self).trees@[#[trigger] list@[i] as int],
                    sample.data(),
                    sample.values@,
                    lazy,
                ).1,
    {
        let ghost start = *self;
        let mut any = false;
        let mut j: usize = 0;
        while j < list.len()
            invariant
                j <= list@.len(),
                in_forest(list@, start.trees@.len() as int),
                sample.values@.len() >= start.width(),
                self.sample_tree_map == start.sample_tree_map,
                self.sample_labels == start.sample_labels,
                self.config == start.config,
                self.num_attributes == start.num_attributes,
                self.rng == start.rng,
                self.log == start.log,
                self.add_rebuild_marks == start.add_rebuild_marks,
                self.forget_rebuild_marks == start.forget_rebuild_marks,
                self.tuning == start.tuning,
                self.trees@.len() == start.trees@.len(),
                self.wf(),
                forall|t: usize|
                    t < start.trees@.len() ==> if list@.take(j as int).contains(t) {
                        added_to(
                            start.trees@[t as int],
                            #[trigger] self.trees@[t as int],
                            sample.data(),
                            sample.values@,
                            lazy,
                            add_answer(
                                start.trees@[t as int],
                                sample.data(),
                                sample.values@,
                                lazy,
                            ),
                        )
                    } else {
                        self.trees@[t as int] == start.trees@[t as int]
                    },
                any == exists|i: int|
                    0 <= i < j && add_answer(
                        start.trees@[#[trigger] list@[i] as int],
                        sample.data(),
                        sample.values@,
                        lazy,
                    ).1,
            decreases list@.len() - j,
        {
            let t: usize = list[j];
            let ghost prior = self.trees@;
            let ghost old_self = *self;
            let ghost a = list@.take(j as int);
            let ghost b = list@.take(j as int + 1);
            proof {
                assert(list@[j as int] < start.trees@.len());
                assert(self.fits_in(self.forest()[t as int], t as int));
                lemma_forest_routes(*self, t as int, sample.values@);
                assert(!a.contains(t)) by {
                    if a.contains(t) {
                        let x = a.index_of(t);
                        assert(list@[x] < list@[j as int]);
                    }
                }
                assert(prior[t as int] == start.trees@[t as int]);
                assert forall|u: usize| b.contains(u) == (a.contains(u) || u == t) by {
                    if a.contains(u) {
                        assert(b[a.index_of(u)] == u);
                    }
                    assert(b[j as int] == t);
                    if b.contains(u) && u != t {
                        assert(a[b.index_of(u)] == u);
                    }
                }
            }
            let (_, work) = self.trees[t].add_sample_streaming(
                sample,
                sample.values.as_slice(),
                lazy,
            );
            proof {
                let after = self.trees@[t as int];
                lemma_answers(prior[t as int], after);
                lemma_added_suits(
                    prior[t as int],
                    after,
                    start.plan(),
                    sample.data(),
                    Change {
                        id: sample.id,
                        route: sample.values@,
                        values: sample.values@,
                        label: sample.label,
                        lazy,
                        inline: false,
                    },
                    add_answer(prior[t as int], sample.data(), sample.values@, lazy),
                );
                assert(self.trees@ =~= prior.update(t as int, after));
                assert forall|i: int| 0 <= i < self.forest().len() implies self.fits_in(
                    #[trigger] self.forest()[i],
                    i,
                ) by {
                    assert(old_self.fits_in(old_self.forest()[i], i));
                }
                assert forall|u: usize| u < start.trees@.len() implies if b.contains(u) {
                    added_to(
                        start.trees@[u as int],
                        #[trigger] self.trees@[u as int],
                        sample.data(),
                        sample.values@,
                        lazy,
                        add_answer(
                            start.trees@[u as int],
                            sample.data(),
                            sample.values@,
                            lazy,
                        ),
                    )
                } else {
                    self.trees@[u as int] == start.trees@[u as int]
                } by {
                    assert(b.contains(u) == (a.contains(u) || u == t));
                    if u != t {
                        assert(self.trees@[u as int] == prior[u as int]);
                    }
                }
                if any {
                    let i = choose|i: int|
                        0 <= i < j && add_answer(
                            start.trees@[#[trigger] list@[i] as int],
                            sample.data(),
                            sample.values@,
                            lazy,
                        ).1;
                    assert(0 <= i < j + 1 && list@[i] == list@[i]);
                }
                if work {
                    assert(add_answer(
                        start.trees@[list@[j as int] as int],
                        sample.data(),
                        sample.values@,
                        lazy,
                    ).1);
                }
            }
            any = any || work;
            j = j + 1;
        }
        assert(list@.take(j as int) =~= list@);
        any
    }

    /// Learns a sample in some randomly chosen trees. Says whether the sample was new, and
    /// whether a tree asks for work.
    pub fn add_sample_streaming(&mut self, sample: &VecSample, use_lazy_rebuild: bool) -> (r: (
        bool,
        bool,
    ))
        requires
            old(self).wf(),
            sample.values@.len() >= old(self).width(),
        ensures
            final(self).wf(),
            learnt(*old(self), *final(self), *sample, use_lazy_rebuild, r),
    {
        assert(self.members().dom() =~= self.sample_tree_map@.dom());
        if self.sample_tree_map.contains_key(sample.id) {
            return (false, false);
        }
        let k: usize = match self.tuning.k_of_class(sample.label) {
            Some(k) => k,
            None => self.k_for_label(sample.label),
        };
        let chosen = self.choose_trees(k);
        let ghost list = chosen@;
        let ghost drawn = *self;
        proof {
            assert forall|i: int| 0 <= i < self.forest().len() implies self.fits_in(
                #[trigger] self.forest()[i],
                i,
            ) by {
                assert(old(self).fits_in(old(self).forest()[i], i));
            }
        }
        let any = self.add_to_trees(&chosen, sample, use_lazy_rebuild);
        let ghost grown = *self;
        self.sample_tree_map.insert(sample.id, chosen);
        self.sample_labels.insert(sample.id, sample.label);
        self.tuning = self.tuning.count_in(sample.label);
        proof {
            assert(self.members() =~= old(self).members().insert(sample.id, list));
            assert(self.members().dom() =~= self.classes().dom());
            assert forall|i: int| 0 <= i < self.forest().len() implies self.fits_in(
                #[trigger] self.forest()[i],
                i,
            ) by {
                assert(grown.fits_in(grown.forest()[i], i));
            }
            assert forall|id: u64| #[trigger] self.members().contains_key(id) implies in_forest(
                self.members()[id],
                self.settings().num_trees as int,
            ) by {
                if id != sample.id {
                    assert(old(self).members().contains_key(id));
                }
            }
            assert(learnt_by(
                *old(self),
                *self,
                *sample,
                use_lazy_rebuild,
                (true, any),
                list,
            ));
        }
        (true, any)
    }

    /// Learns samples one after the other. Says how many were new, and how many have asked
    /// for work.
    pub fn add_samples_streaming(&mut self, samples: &[VecSample], use_lazy_rebuild: bool) -> (r: (
        usize,
        usize,
    ))
        requires
            old(self).wf(),
            all_full(samples@, old(self).width()),
        ensures
            final(self).wf(),
            learnt_all(*old(self), *final(self), samples@, use_lazy_rebuild, r),
    {
        let ghost mut steps: Seq<DynFrsForest> = seq![*self];
        let ghost mut answers: Seq<(bool, bool)> = Seq::empty();
        let mut added: usize = 0;
        let mut rebuild_count: usize = 0;
        let mut i: usize = 0;
        while i < samples.len()
            invariant
                i <= samples@.len(),
                self.wf(),
                self.width() == old(self).width(),
                self.marks() == old(self).marks(),
                all_full(samples@, old(self).width()),
                learnt_each(steps, samples@.take(i as int), use_lazy_rebuild, answers),
                steps[0] == *old(self),
                steps.last() == *self,
                added <= i,
                rebuild_count <= i,
                added == learnt_count(answers, i as int),
                rebuild_count == work_count(answers, i as int),
            decreases samples@.len() - i,
        {
            let ghost earlier = steps;
            let ghost told = answers;
            let ghost a = samples@.take(i as int);
            let ghost b = samples@.take(i as int + 1);
            let (success, work) = self.add_sample_streaming(&samples[i], use_lazy_rebuild);
            proof {
                steps = steps.push(*self);
                answers = answers.push((success, work));
                assert forall|j: int| 0 <= j < b.len() implies learnt(
                    steps[j],
                    steps[j + 1],
                    #[trigger] b[j],
                    use_lazy_rebuild,
                    answers[j],
                ) by {
                    if j < i {
                        assert(b[j] == a[j]);
                    }
                }
                lemma_told_prefix(told, answers, i as int);
            }
            if success {
                added = added + 1;
            }
            if work {
                rebuild_count = rebuild_count + 1;
            }
            i = i + 1;
        }
        assert(samples@.take(i as int) =~= samples@);
        let ghost done = *self;
        self.add_rebuild_marks = self.add_rebuild_marks.saturating_add(rebuild_count as u64);
        proof {
            assert forall|i: int| 0 <= i < self.forest().len() implies self.fits_in(
                #[trigger] self.forest()[i],
                i,
            ) by {
                assert(done.fits_in(done.forest()[i], i));
            }
            assert(learnt_each(steps, samples@, use_lazy_rebuild, answers));
        }
        (added, rebuild_count)
    }

    /// Turns streaming on in every tree, and makes the statistics of its nodes from the
    /// samples that are given.
    pub fn enable_streaming(&mut self, samples: &[VecSample])
        requires
            old(self).wf(),
            all_full(samples@, old(self).width()),
        ensures
            final(self).wf(),
            streams_on(*old(self), *final(self), samples@),
    {
        let ghost start = *self;
        let mut t: usize = 0;
        proof {
            assert forall|i: int| 0 <= i < samples@.len() implies (
            #[trigger] samples@[i].data()).values.len() >= self.width() by {
                assert(samples@[i].values@.len() >= self.width());
            }
        }
        while t < self.trees.len()
            invariant
                t <= self.trees@.len() == start.trees@.len(),
                start.wf(),
                self.sample_tree_map == start.sample_tree_map,
                self.sample_labels == start.sample_labels,
                self.config == start.config,
                self.num_attributes == start.num_attributes,
                self.add_rebuild_marks == start.add_rebuild_marks,
                self.forget_rebuild_marks == start.forget_rebuild_marks,
                self.tuning == start.tuning,
                forall|i: int|
                    0 <= i < samples@.len() ==> (#[trigger] samples@[i].data()).values.len()
                        >= start.width(),
                forall|u: int|
                    t <= u < start.trees@.len() ==> #[trigger] self.trees@[u] == start.trees@[u],
                forall|u: int|
                    0 <= u < t ==> streaming_enabled(
                        start.trees@[u],
                        #[trigger] self.trees@[u],
                        samples@,
                    ),
                forall|u: int| 0 <= u < t ==> start.fits_in(#[trigger] self.trees@[u], u),
            decreases start.trees@.len() - t,
        {
            let ghost prior = self.trees@;
            proof {
                assert(start.fits_in(start.forest()[t as int], t as int));
                assert(self.trees@[t as int] == start.trees@[t as int]);
            }
            self.trees[t].init_streaming_states(samples);
            assert(self.trees@ =~= prior.update(t as int, self.trees@[t as int]));
            t = t + 1;
        }
        proof {
            assert forall|i: int| 0 <= i < self.forest().len() implies self.fits_in(
                #[trigger] self.forest()[i],
                i,
            ) by {
                assert(start.fits_in(self.trees@[i], i));
            }
        }
    }
}

/// What a forest becomes when streaming is turned on in every tree.
pub open spec fn streams_on(
    before: DynFrsForest,
    after: DynFrsForest,
    samples: Seq<VecSample>,
) -> bool {
    &&& after.same_setting(&before)
    &&& after.marks() == before.marks()
    &&& after.tuning() == before.tuning()
    &&& after.members() == before.members()
    &&& after.classes() == before.classes()
    &&& after.forest().len() == before.forest().len()
    &&& forall|t: int|
        0 <= t < before.forest().len() ==> streaming_enabled(
            before.forest()[t],
            #[trigger] after.forest()[t],
            samples,
        )
}

/// What a tree becomes when streaming is turned on.
pub open spec fn streaming_enabled(
    before: DynFrsTree,
    after: DynFrsTree,
    samples: Seq<VecSample>,
) -> bool {
    &&& after.limits() == before.limits()
    &&& after.width() == before.width()
    &&& after.number() == before.number()
    &&& after.streams()
    &&& after.structure() == before.structure()
    &&& after.placement() == before.placement()
    &&& exists|known: Map<u64, &VecSample>|
        by_id(samples, known) && #[trigger] states_made(
            Map::<u64, StateView>::empty(),
            after.states(),
            known,
            before.width(),
            before.structure(),
            ROOT,
        )
}

/// Counts of the first answers rest on those alone.
pub proof fn lemma_told_prefix(a: Seq<(bool, bool)>, b: Seq<(bool, bool)>, n: int)
    requires
        0 <= n <= a.len(),
        n <= b.len(),
        forall|i: int| 0 <= i < n ==> a[i] == b[i],
    ensures
        learnt_count(a, n) == learnt_count(b, n),
        work_count(a, n) == work_count(b, n),
    decreases n,
{
    if n > 0 {
        lemma_told_prefix(a, b, n - 1);
    }
}

/// The number of forgotten samples rests on the first steps.
proof fn lemma_forgotten_prefix(
    s: Seq<DynFrsForest>,
    t: Seq<DynFrsForest>,
    a: Seq<u64>,
    b: Seq<u64>,
    features: Map<u64, Seq<i64>>,
    n: int,
)
    requires
        0 <= n <= a.len(),
        n <= b.len(),
        n <= s.len(),
        n <= t.len(),
        forall|i: int| 0 <= i < n ==> a[i] == b[i],
        forall|i: int| 0 <= i < n ==> s[i] == t[i],
    ensures
        forgotten_count(s, a, features, n) == forgotten_count(t, b, features, n),
    decreases n,
{
    if n > 0 {
        lemma_forgotten_prefix(s, t, a, b, features, n - 1);
    }
}

} // verus!
