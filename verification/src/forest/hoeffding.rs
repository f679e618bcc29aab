//! Learning samples in trees whose leaves are split on the spot.

use super::learn::{all_full, lemma_forest_routes};
use super::occ::{is_answer, is_selection};
use super::stream::{learnt_count, work_count};
use super::{in_forest, DynFrsForest};
use crate::random::put_since;
use crate::sample::{Sample, VecSample};
use crate::table::IdTable;
use crate::tree::hoeffding::{added_inline, all_known_wide, HoeffdingConfig};
use crate::tree::DynFrsTree;
use vstd::prelude::*;

verus! {

/// What a forest becomes when a sample is learnt by randomly chosen trees whose leaves are
/// split on the spot. A sample that the forest has already changes nothing.
pub open spec fn learnt_inline(
    before: DynFrsForest,
    after: DynFrsForest,
    sample: VecSample,
    lazy: bool,
    config: HoeffdingConfig,
    known: Map<u64, &VecSample>,
    r: (bool, bool),
) -> bool {
    &&& after.same_setting(&before)
    &&& after.marks() == before.marks()
    &&& after.forest().len() == before.forest().len()
    &&& if before.members().contains_key(sample.id) {
        &&& r == (false, false)
        &&& after.tuning() == before.tuning()
        &&& after.members() == before.members()
        &&& after.classes() == before.classes()
        &&& after.forest() == before.forest()
        &&& after.asked() == before.asked()
    } else {
        exists|chosen: Seq<usize>, answers: Seq<(Option<u64>, bool)>| #[trigger]
            learnt_inline_by(before, after, sample, lazy, config, known, r, chosen, answers)
    }
}

/// What a forest becomes when a sample is learnt by chosen trees, and what they answer.
pub open spec fn learnt_inline_by(
    before: DynFrsForest,
    after: DynFrsForest,
    sample: VecSample,
    lazy: bool,
    config: HoeffdingConfig,
    known: Map<u64, &VecSample>,
    r: (bool, bool),
    chosen: Seq<usize>,
    answers: Seq<(Option<u64>, bool)>,
) -> bool {
    &&& is_selection(
        before.settings().num_trees as int,
        before.k_now(sample.label) as int,
        chosen,
    )
    &&& before.asked().is_prefix_of(after.asked())
    &&& is_answer(
        before.settings().num_trees as int,
        before.k_now(sample.label) as int,
        put_since(before.asked(), after.asked()),
        chosen,
    )
    &&& after.tuning() == before.tuning().counted(sample.label)
    &&& after.members() == before.members().insert(sample.id, chosen)
    &&& after.classes() == before.classes().insert(sample.id, sample.label)
    &&& trees_inline(
        before.forest(),
        after.forest(),
        sample,
        lazy,
        config,
        known,
        chosen,
        answers,
        chosen.len() as int,
    )
    &&& r.0
    &&& r.1 == exists|i: int| 0 <= i < answers.len() && (#[trigger] answers[i]).1
}

/// What trees become when the first ones of a list learn a sample.
pub open spec fn trees_inline(
    before: Seq<DynFrsTree>,
    after: Seq<DynFrsTree>,
    sample: VecSample,
    lazy: bool,
    config: HoeffdingConfig,
    known: Map<u64, &VecSample>,
    list: Seq<usize>,
    answers: Seq<(Option<u64>, bool)>,
    n: int,
) -> bool {
    &&& answers.len() == n
    &&& forall|i: int|
        0 <= i < n ==> added_inline(
            before[list[i] as int],
            after[list[i] as int],
            sample.data(),
            sample.values@,
            lazy,
            config,
            Some(known),
            #[trigger] answers[i],
        )
    &&& forall|t: usize|
        t < before.len() && !list.take(n).contains(t) ==> #[trigger] after[t as int]
            == before[t as int]
}

/// Whether each of some forests comes from the one before by learning a sample.
pub open spec fn learnt_inline_each(
    steps: Seq<DynFrsForest>,
    samples: Seq<VecSample>,
    lazy: bool,
    config: HoeffdingConfig,
    known: Map<u64, &VecSample>,
    answers: Seq<(bool, bool)>,
) -> bool {
    &&& steps.len() == samples.len() + 1
    &&& answers.len() == samples.len()
    &&& forall|i: int|
        0 <= i < samples.len() ==> learnt_inline(
            steps[i],
            steps[i + 1],
            #[trigger] samples[i],
            lazy,
            config,
            known,
            answers[i],
        )
}

impl DynFrsForest {
    /// Makes listed trees learn a sample. Says whether one of them asks for work.
    fn add_inline_to_trees(
        &mut self,
        list: &Vec<usize>,
        sample: &VecSample,
        lazy: bool,
        sample_map: &IdTable<&VecSample>,
    ) -> (r: bool)
        requires
            old(self).wf(),
            in_forest(list@, old(self).trees@.len() as int),
            sample.values@.len() >= old(self).width(),
            old(self).settings().tree_config.hoeffding.log_inverse_delta >= 0,
            all_known_wide(sample_map@, old(self).width()),
        ensures
            final(self).sample_tree_map == old(self).sample_tree_map,
            final(self).sample_labels == old(self).sample_labels,
            final(self).config == old(self).config,
            final(self).num_attributes == old(self).num_attributes,
            final(self).log == old(self).log,
            final(self).add_rebuild_marks == old(self).add_rebuild_marks,
            final(self).forget_rebuild_marks == old(self).forget_rebuild_marks,
            final(self).tuning == old(self).tuning,
            final(self).wf(),
            final(self).trees@.len() == old(self).trees@.len(),
            exists|answers: Seq<(Option<u64>, bool)>|
                {
                    &&& #[trigger] trees_inline(
                        old(self).trees@,
                        final(self).trees@,
                        *sample,
                        lazy,
                        old(self).settings().tree_config.hoeffding,
                        sample_map@,
                        list@,
                        answers,
                        list@.len() as int,
                    )
                    &&& r == exists|i: int| 0 <= i < answers.len() && (#[trigger] answers[i]).1
                },
    {
        let ghost start = *self;
        let ghost config = self.settings().tree_config.hoeffding;
        let ghost known = sample_map@;
        let ghost mut answers: Seq<(Option<u64>, bool)> = Seq::empty();
        let mut any = false;
        let mut j: usize = 0;
        while j < list.len()
            invariant
                j <= list@.len(),
                in_forest(list@, start.trees@.len() as int),
                sample.values@.len() >= start.width(),
                config == start.settings().tree_config.hoeffding,
                config.log_inverse_delta >= 0,
                known == sample_map@,
                all_known_wide(known, start.width()),
                self.sample_tree_map == start.sample_tree_map,
                self.sample_labels == start.sample_labels,
                self.config == start.config,
                self.num_attributes == start.num_attributes,
                self.log == start.log,
                self.add_rebuild_marks == start.add_rebuild_marks,
                self.forget_rebuild_marks == start.forget_rebuild_marks,
                self.tuning == start.tuning,
                self.wf(),
                self.trees@.len() == start.trees@.len(),
                trees_inline(
                    start.trees@,
                    self.trees@,
                    *sample,
                    lazy,
                    config,
                    known,
                    list@,
                    answers,
                    j as int,
                ),
                any == exists|i: int| 0 <= i < answers.len() && (#[trigger] answers[i]).1,
            decreases list@.len() - j,
        {
            let t: usize = list[j];
            let ghost before = *self;
            let ghost prior = self.trees@;
            let ghost told = answers;
            let ghost a = list@.take(j as int);
            let ghost b = list@.take(j as int + 1);
            proof {
                assert(list@[j as int] < start.trees@.len());
                assert(self.fits_in(self.forest()[t as int], t as int));
                lemma_forest_routes(*self, t as int, sample.values@);
                assert(!a.contains(t)) by {
                    if a.contains(t) {
                        let x = a.index_of(t);
                        assert(list@[x] < list@[j as int]);
                    }
                }
                assert(prior[t as int] == start.trees@[t as int]);
            }
            let answer = self.trees[t].add_sample_streaming_hoeffding(
                sample,
                sample.values.as_slice(),
                lazy,
                Some(sample_map),
            );
            proof {
                answers = answers.push(answer);
                let after = self.trees@[t as int];
                assert(self.trees@ =~= prior.update(t as int, after));
                assert(before.plan().suits_all(after.structure()));
                assert forall|i: int| 0 <= i < self.forest().len() implies self.fits_in(
                    #[trigger] self.forest()[i],
                    i,
                ) by {
                    assert(before.fits_in(before.forest()[i], i));
                }
                assert forall|i: int| 0 <= i < j + 1 implies added_inline(
                    start.trees@[list@[i] as int],
                    self.trees@[list@[i] as int],
                    sample.data(),
                    sample.values@,
                    lazy,
                    config,
                    Some(known),
                    #[trigger] answers[i],
                ) by {
                    if i < j {
                        assert(list@[i] < list@[j as int]);
                        assert(answers[i] == told[i]);
                        assert(list@[i] < start.trees@.len());
                    }
                }
                assert forall|u: usize|
                    u < start.trees@.len() && !b.contains(u) implies #[trigger] self.trees@[u as int]
                    == start.trees@[u as int] by {
                    assert(b[j as int] == t);
                    if a.contains(u) {
                        assert(b[a.index_of(u)] == u);
                    }
                    assert(prior[u as int] == start.trees@[u as int]);
                }
                if any {
                    let i = choose|i: int| 0 <= i < told.len() && (#[trigger] told[i]).1;
                    assert(answers[i].1);
                }
                if answer.1 {
                    assert(answers[j as int].1);
                }
                if exists|i: int| 0 <= i < answers.len() && (#[trigger] answers[i]).1 {
                    let i = choose|i: int| 0 <= i < answers.len() && (#[trigger] answers[i]).1;
                    if i < j {
                        assert(told[i].1);
                    }
                }
            }
            any = any || answer.1;
            j = j + 1;
        }
        assert(list@.take(j as int) =~= list@);
        any
    }

    /// Learns a sample in some randomly chosen trees, whose leaves are split on the spot.
    /// Says whether the sample was new, and whether a tree asks for work.
    pub fn add_sample_streaming_hoeffding(
        &mut self,
        sample: &VecSample,
        use_lazy_rebuild: bool,
        sample_map: &IdTable<&VecSample>,
    ) -> (r: (bool, bool))
        requires
            old(self).wf(),
            sample.values@.len() >= old(self).width(),
            old(self).settings().tree_config.hoeffding.log_inverse_delta >= 0,
            all_known_wide(sample_map@, old(self).width()),
        ensures
            final(self).wf(),
            learnt_inline(
                *old(self),
                *final(self),
                *sample,
                use_lazy_rebuild,
                old(self).settings().tree_config.hoeffding,
                sample_map@,
                r,
            ),
    {
        let ghost config = self.settings().tree_config.hoeffding;
        assert(self.members().dom() =~= self.sample_tree_map@.dom());
        if self.sample_tree_map.contains_key(sample.id) {
            return (false, false);
        }
        let k: usize = match self.tuning.k_of_class(sample.label) {
            Some(k) => k,
            None => self.k_for_label(sample.label),
        };
        let chosen = self.choose_trees(k);
        let ghost list = chosen@;
        proof {
            assert forall|i: int| 0 <= i < self.forest().len() implies self.fits_in(
                #[trigger] self.forest()[i],
                i,
            ) by {
                assert(old(self).fits_in(old(self).forest()[i], i));
            }
        }
        let ghost drawn = *self;
        let any = self.add_inline_to_trees(
            &chosen,
            sample,
            use_lazy_rebuild,
            sample_map,
        );
        let ghost grown = *self;
        self.sample_tree_map.insert(sample.id, chosen);
        self.sample_labels.insert(sample.id, sample.label);
        self.tuning = self.tuning.count_in(sample.label);
        proof {
            assert(self.members() =~= old(self).members().insert(sample.id, list));
            assert(self.members().dom() =~= self.classes().dom());
            assert forall|i: int| 0 <= i < self.forest().len() implies self.fits_in(
                #[trigger] self.forest()[i],
                i,
            ) by {
                assert(grown.fits_in(grown.forest()[i], i));
            }
            assert forall|id: u64| #[trigger] self.members().contains_key(id) implies in_forest(
                self.members()[id],
                self.settings().num_trees as int,
            ) by {
                if id != sample.id {
                    assert(old(self).members().contains_key(id));
                }
            }
            let answers = choose|answers: Seq<(Option<u64>, bool)>|
                {
                    &&& #[trigger] trees_inline(
                        drawn.trees@,
                        grown.trees@,
                        *sample,
                        use_lazy_rebuild,
                        config,
                        sample_map@,
                        list,
                        answers,
                        list.len() as int,
                    )
                    &&& any == exists|i: int| 0 <= i < answers.len() && (#[trigger] answers[i]).1
                };
            assert(learnt_inline_by(
                *old(self),
                *self,
                *sample,
                use_lazy_rebuild,
                config,
                sample_map@,
                (true, any),
                list,
                answers,
            ));
        }
        (true, any)
    }

    /// Learns samples one after the other in trees whose leaves are split on the spot. Says
    /// how many were new, and how many have asked for work.
    pub fn add_samples_streaming_hoeffding(
        &mut self,
        samples: &[VecSample],
        use_lazy_rebuild: bool,
        sample_map: &IdTable<&VecSample>,
    ) -> (r: (usize, usize))
        requires
            old(self).wf(),
            all_full(samples@, old(self).width()),
            old(self).settings().tree_config.hoeffding.log_inverse_delta >= 0,
            all_known_wide(sample_map@, old(self).width()),
        ensures
            final(self).wf(),
            exists|steps: Seq<DynFrsForest>, answers: Seq<(bool, bool)>|
                {
                    &&& #[trigger] learnt_inline_each(
                        steps,
                        samples@,
                        use_lazy_rebuild,
                        old(self).settings().tree_config.hoeffding,
                        sample_map@,
                        answers,
                    )
                    &&& steps[0] == *old(self)
                    &&& steps.last() == *final(self)
                    &&& r.0 == learnt_count(answers, samples@.len() as int)
                    &&& r.1 == work_count(answers, samples@.len() as int)
                },
    {
        let ghost config = self.settings().tree_config.hoeffding;
        let ghost known = sample_map@;
        let ghost mut steps: Seq<DynFrsForest> = seq![*self];
        let ghost mut answers: Seq<(bool, bool)> = Seq::empty();
        let mut added: usize = 0;
        let mut rebuild_count: usize = 0;
        let mut i: usize = 0;
        while i < samples.len()
            invariant
                i <= samples@.len(),
                self.wf(),
                self.width() == old(self).width(),
                self.settings() == old(self).settings(),
                all_full(samples@, old(self).width()),
                config == old(self).settings().tree_config.hoeffding,
                config.log_inverse_delta >= 0,
                known == sample_map@,
                all_known_wide(known, old(self).width()),
                learnt_inline_each(
                    steps,
                    samples@.take(i as int),
                    use_lazy_rebuild,
                    config,
                    known,
                    answers,
                ),
                steps[0] == *old(self),
                steps.last() == *self,
                added <= i,
                rebuild_count <= i,
                added == learnt_count(answers, i as int),
                rebuild_count == work_count(answers, i as int),
            decreases samples@.len() - i,
        {
            let ghost told = answers;
            let ghost a = samples@.take(i as int);
            let ghost b = samples@.take(i as int + 1);
            assert(samples@[i as int].values@.len() >= old(self).width());
            let (success, work) = self.add_sample_streaming_hoeffding(
                &samples[i],
                use_lazy_rebuild,
                sample_map,
            );
            proof {
                steps = steps.push(*self);
                answers = answers.push((success, work));
                assert forall|j: int| 0 <= j < b.len() implies learnt_inline(
                    steps[j],
                    steps[j + 1],
                    #[trigger] b[j],
                    use_lazy_rebuild,
                    config,
                    known,
                    answers[j],
                ) by {
                    if j < i {
                        assert(b[j] == a[j]);
                    }
                }
                super::stream::lemma_told_prefix(told, answers, i as int);
            }
            if success {
                added = added + 1;
            }
            if work {
                rebuild_count = rebuild_count + 1;
            }
            i = i + 1;
        }
        assert(samples@.take(i as int) =~= samples@);
        (added, rebuild_count)
    }
}

} // verus!
