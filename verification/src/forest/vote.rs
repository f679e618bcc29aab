//! Predicting by vote.

use super::learn::{all_full, lemma_forest_routes};
use super::{all_numerical, DynFrsForest};
use crate::dataset::{ArrayDataset, Dataset};
use crate::fraction::Fraction;
use crate::sample::{Sample, VecSample};
use crate::table::IdTable;
use crate::tree::grow::Plan;
use crate::tree::lazy::{all_admitted, answered};
use crate::tree::shape::vote;
use crate::tree::DynFrsTree;
use vstd::prelude::*;

verus! {

/// How many of the first trees vote for the positive class.
pub open spec fn ballots(trees: Seq<DynFrsTree>, values: Seq<i64>, n: int) -> nat
    decreases n,
{
    if n <= 0 {
        0
    } else {
        ballots(trees, values, n - 1) + if vote(trees[n - 1].structure(), values) {
            1nat
        } else {
            0nat
        }
    }
}

/// How many of the first trees of a list vote for the positive class; a place without a
/// tree casts no vote.
pub open spec fn ballots_of(
    trees: Seq<DynFrsTree>,
    list: Seq<usize>,
    values: Seq<i64>,
    n: int,
) -> nat
    decreases n,
{
    if n <= 0 {
        0
    } else {
        ballots_of(trees, list, values, n - 1) + if list[n - 1] < trees.len() && vote(
            trees[list[n - 1] as int].structure(),
            values,
        ) {
            1nat
        } else {
            0nat
        }
    }
}

/// What a forest predicts for a row: the class that most trees vote for; a tie is
/// negative.
pub open spec fn decision(trees: Seq<DynFrsTree>, values: Seq<i64>) -> bool {
    2 * ballots(trees, values, trees.len() as int) > trees.len()
}

/// What some trees of a forest predict for a row; there is no prediction without trees.
pub open spec fn decision_of(
    trees: Seq<DynFrsTree>,
    list: Seq<usize>,
    values: Seq<i64>,
) -> Option<bool> {
    if list.len() == 0 {
        None
    } else {
        Some(2 * ballots_of(trees, list, values, list.len() as int) > list.len())
    }
}

/// The share of trees that vote for the positive class; one half without trees.
pub open spec fn share(trees: Seq<DynFrsTree>, values: Seq<i64>) -> Fraction {
    if trees.len() == 0 {
        Fraction { num: 1, den: 2 }
    } else {
        Fraction {
            num: ballots(trees, values, trees.len() as int) as i128,
            den: trees.len() as u128,
        }
    }
}

/// The share of some trees that vote for the positive class.
pub open spec fn share_of(
    trees: Seq<DynFrsTree>,
    list: Seq<usize>,
    values: Seq<i64>,
) -> Option<Fraction> {
    if list.len() == 0 {
        None
    } else {
        Some(
            Fraction {
                num: ballots_of(trees, list, values, list.len() as int) as i128,
                den: list.len() as u128,
            },
        )
    }
}

/// Whether some tree has a node that has to be worked on.
pub open spec fn any_pending(trees: Seq<DynFrsTree>) -> bool {
    exists|t: int, id: u64|
        0 <= t < trees.len() && #[trigger] trees[t].structure().contains_key(id)
            && trees[t].structure()[id].pending()
}

/// Whether each of some trees comes from the one before by asking for the class of a row.
pub open spec fn asked_each(
    steps: Seq<DynFrsTree>,
    plan: Plan,
    known: Map<u64, &VecSample>,
    queries: Seq<VecSample>,
    answers: Seq<bool>,
) -> bool {
    &&& steps.len() == queries.len() + 1
    &&& answers.len() == queries.len()
    &&& forall|i: int|
        0 <= i < queries.len() ==> answered(
            steps[i],
            steps[i + 1],
            plan,
            known,
            (#[trigger] queries[i]).values@,
            answers[i],
        )
}

/// Whether a tree has been asked for the classes of rows, one after the other.
pub open spec fn asked(
    before: DynFrsTree,
    after: DynFrsTree,
    plan: Plan,
    known: Map<u64, &VecSample>,
    queries: Seq<VecSample>,
    answers: Seq<bool>,
) -> bool {
    exists|steps: Seq<DynFrsTree>| #[trigger]
        asked_each(steps, plan, known, queries, answers) && steps[0] == before && steps.last()
            == after
}

/// How many of the first trees have answered a question with the positive class.
pub open spec fn yeas(answers: Seq<Seq<bool>>, query: int, n: int) -> nat
    decreases n,
{
    if n <= 0 {
        0
    } else {
        yeas(answers, query, n - 1) + if answers[n - 1][query] {
            1nat
        } else {
            0nat
        }
    }
}

/// Whether a forest has been asked for the classes of rows, with the answers of each
/// tree.
pub open spec fn forest_asked(
    before: DynFrsForest,
    after: DynFrsForest,
    known: Map<u64, &VecSample>,
    queries: Seq<VecSample>,
    answers: Seq<Seq<bool>>,
) -> bool {
    &&& after.same_setting(&before)
    &&& after.marks() == before.marks()
    &&& after.tuning() == before.tuning()
    &&& after.members() == before.members()
    &&& after.classes() == before.classes()
    &&& after.forest().len() == before.forest().len()
    &&& answers.len() == before.forest().len()
    &&& forall|t: int|
        0 <= t < before.forest().len() ==> asked(
            before.forest()[t],
            after.forest()[t],
            before.plan(),
            known,
            queries,
            #[trigger] answers[t],
        )
}

/// A count of votes is no larger than the number of voters.
proof fn lemma_ballots(trees: Seq<DynFrsTree>, values: Seq<i64>, n: int)
    requires
        0 <= n,
    ensures
        ballots(trees, values, n) <= n,
    decreases n,
{
    if n > 0 {
        lemma_ballots(trees, values, n - 1);
    }
}

/// Answers that have been given stay.
proof fn lemma_yeas_prefix(a: Seq<Seq<bool>>, b: Seq<Seq<bool>>, query: int, n: int)
    requires
        0 <= n <= a.len(),
        n <= b.len(),
        forall|i: int| 0 <= i < n ==> a[i] == b[i],
    ensures
        yeas(a, query, n) == yeas(b, query, n),
        yeas(a, query, n) <= n,
    decreases n,
{
    if n > 0 {
        lemma_yeas_prefix(a, b, query, n - 1);
    }
}

impl DynFrsForest {
    /// Counts the trees that vote for the positive class.
    fn count_ballots(&self, sample: &VecSample) -> (r: usize)
        requires
            self.wf(),
            sample.values@.len() >= self.width(),
        ensures
            r == ballots(self.forest(), sample.values@, self.forest().len() as int),
            r <= self.forest().len(),
    {
        let mut count: usize = 0;
        let mut t: usize = 0;
        while t < self.trees.len()
            invariant
                t <= self.trees@.len(),
                self.wf(),
                sample.values@.len() >= self.width(),
                count <= t,
                count == ballots(self.forest(), sample.values@, t as int),
            decreases self.trees@.len() - t,
        {
            proof {
                lemma_forest_routes(*self, t as int, sample.values@);
                assert(self.fits_in(self.forest()[t as int], t as int));
            }
            if self.trees[t].predict(sample) {
                count = count + 1;
            }
            t = t + 1;
        }
        count
    }

    /// Counts the trees of a list that vote for the positive class.
    fn count_ballots_of(&self, sample: &VecSample, tree_indices: &[usize]) -> (r: usize)
        requires
            self.wf(),
            sample.values@.len() >= self.width(),
        ensures
            r == ballots_of(
                self.forest(),
                tree_indices@,
                sample.values@,
                tree_indices@.len() as int,
            ),
            r <= tree_indices@.len(),
    {
        let mut count: usize = 0;
        let mut i: usize = 0;
        while i < tree_indices.len()
            invariant
                i <= tree_indices@.len(),
                self.wf(),
                sample.values@.len() >= self.width(),
                count <= i,
                count == ballots_of(self.forest(), tree_indices@, sample.values@, i as int),
            decreases tree_indices@.len() - i,
        {
            let t: usize = tree_indices[i];
            if t < self.trees.len() {
                proof {
                    lemma_forest_routes(*self, t as int, sample.values@);
                    assert(self.fits_in(self.forest()[t as int], t as int));
                }
                if self.trees[t].predict(sample) {
                    count = count + 1;
                }
            }
            i = i + 1;
        }
        count
    }

    /// Predicts the class of a sample.
    pub fn predict(&self, sample: &VecSample) -> (r: bool)
        requires
            self.wf(),
            sample.values@.len() >= self.width(),
        ensures
            r == decision(self.forest(), sample.values@),
    {
        let count: usize = self.count_ballots(sample);
        count > self.trees.len() / 2
    }

    /// The share of trees that vote for the positive class.
    pub fn predict_proba(&self, sample: &VecSample) -> (r: Fraction)
        requires
            self.wf(),
            sample.values@.len() >= self.width(),
        ensures
            r == share(self.forest(), sample.values@),
            r.wf(),
            0 <= r.num <= r.den <= usize::MAX,
    {
        proof {
            lemma_ballots(self.forest(), sample.values@, self.forest().len() as int);
        }
        if self.trees.len() == 0 {
            return Fraction { num: 1, den: 2 };
        }
        let count: usize = self.count_ballots(sample);
        Fraction { num: count as i128, den: self.trees.len() as u128 }
    }

    /// The share of some trees that vote for the positive class.
    pub fn predict_proba_with_trees(&self, sample: &VecSample, tree_indices: &[usize]) -> (r:
        Option<Fraction>)
        requires
            self.wf(),
            sample.values@.len() >= self.width(),
        ensures
            r == share_of(self.forest(), tree_indices@, sample.values@),
            r is Some ==> r->0.wf(),
    {
        if tree_indices.len() == 0 {
            return None;
        }
        let count: usize = self.count_ballots_of(sample, tree_indices);
        Some(Fraction { num: count as i128, den: tree_indices.len() as u128 })
    }

    /// Predicts the class of a sample with some trees only.
    pub fn predict_with_trees(&self, sample: &VecSample, tree_indices: &[usize]) -> (r: Option<bool>)
        requires
            self.wf(),
            sample.values@.len() >= self.width(),
        ensures
            r == decision_of(self.forest(), tree_indices@, sample.values@),
    {
        if tree_indices.len() == 0 {
            return None;
        }
        let count: usize = self.count_ballots_of(sample, tree_indices);
        Some(count > tree_indices.len() / 2)
    }

    /// Predicts the classes of samples.
    pub fn predict_batch(&self, samples: &[VecSample]) -> (r: Vec<bool>)
        requires
            self.wf(),
            all_full(samples@, self.width()),
        ensures
            r@ == Seq::new(
                samples@.len(),
                |i: int| decision(self.forest(), samples@[i].values@),
            ),
    {
        let mut list: Vec<bool> = Vec::new();
        let mut i: usize = 0;
        while i < samples.len()
            invariant
                i <= samples@.len(),
                self.wf(),
                all_full(samples@, self.width()),
                list@ == Seq::new(
                    i as nat,
                    |i: int| decision(self.forest(), samples@[i].values@),
                ),
            decreases samples@.len() - i,
        {
            assert(samples@[i as int].values@.len() >= self.width());
            list.push(self.predict(&samples[i]));
            i = i + 1;
            assert(list@ =~= Seq::new(
                i as nat,
                |i: int| decision(self.forest(), samples@[i].values@),
            ));
        }
        list
    }

    /// The shares of trees that vote for the positive class.
    pub fn predict_proba_batch(&self, samples: &[VecSample]) -> (r: Vec<Fraction>)
        requires
            self.wf(),
            all_full(samples@, self.width()),
        ensures
            r@ == Seq::new(samples@.len(), |i: int| share(self.forest(), samples@[i].values@)),
    {
        let mut list: Vec<Fraction> = Vec::new();
        let mut i: usize = 0;
        while i < samples.len()
            invariant
                i <= samples@.len(),
                self.wf(),
                all_full(samples@, self.width()),
                list@ == Seq::new(i as nat, |i: int| share(self.forest(), samples@[i].values@)),
            decreases samples@.len() - i,
        {
            assert(samples@[i as int].values@.len() >= self.width());
            list.push(self.predict_proba(&samples[i]));
            i = i + 1;
            assert(list@ =~= Seq::new(
                i as nat,
                |i: int| share(self.forest(), samples@[i].values@),
            ));
        }
        list
    }

    /// Whether some tree has a node that has to be worked on.
    pub fn has_pending_rebuilds(&self) -> (r: bool)
        ensures
            r == any_pending(self.forest()),
    {
        let mut t: usize = 0;
        while t < self.trees.len()
            invariant
                t <= self.trees@.len(),
                forall|u: int, id: u64|
                    0 <= u < t && #[trigger] self.trees@[u].structure().contains_key(id)
                        ==> !self.trees@[u].structure()[id].pending(),
            decreases self.trees@.len() - t,
        {
            if self.trees[t].has_dirty_nodes() {
                proof {
                    let id = choose|id: u64| #[trigger]
                        self.trees@[t as int].structure().contains_key(id)
                            && self.trees@[t as int].structure()[id].pending();
                    assert(self.forest()[t as int].structure().contains_key(id));
                }
                return true;
            }
            t = t + 1;
        }
        assert forall|u: int, id: u64|
            0 <= u < self.forest().len() && #[trigger] self.forest()[u].structure().contains_key(
                id,
            ) implies !self.forest()[u].structure()[id].pending() by {
            assert(self.trees@[u].structure().contains_key(id));
        }
        false
    }

    /// Asks one tree for the classes of rows.
    fn ask_tree(
        &mut self,
        t: usize,
        dataset: &ArrayDataset,
        sample_map: &IdTable<&VecSample>,
        queries: &[VecSample],
    ) -> (r: Vec<bool>)
        requires
            t < old(self).trees@.len(),
            old(self).fits_in(old(self).trees@[t as int], t as int),
            dataset.attribute_types() == all_numerical(old(self).width()),
            all_admitted(old(self).plan(), sample_map@),
            all_full(queries@, old(self).width()),
        ensures
            final(self).sample_tree_map == old(self).sample_tree_map,
            final(self).sample_labels == old(self).sample_labels,
            final(self).config == old(self).config,
            final(self).num_attributes == old(self).num_attributes,
            final(self).rng == old(self).rng,
            final(self).add_rebuild_marks == old(self).add_rebuild_marks,
            final(self).forget_rebuild_marks == old(self).forget_rebuild_marks,
            final(self).tuning == old(self).tuning,
            final(self).trees@ == old(self).trees@.update(
                t as int,
                final(self).trees@[t as int],
            ),
            final(self).fits_in(final(self).trees@[t as int], t as int),
            asked(
                old(self).trees@[t as int],
                final(self).trees@[t as int],
                old(self).plan(),
                sample_map@,
                queries@,
                r@,
            ),
    {
        let ghost start = *self;
        let ghost plan = self.plan();
        let ghost mut steps: Seq<DynFrsTree> = seq![self.trees@[t as int]];
        let mut list: Vec<bool> = Vec::new();
        let mut i: usize = 0;
        assert(self.trees@ =~= start.trees@.update(t as int, self.trees@[t as int]));
        while i < queries.len()
            invariant
                i <= queries@.len(),
                t < start.trees@.len(),
                self.trees@.len() == start.trees@.len(),
                plan == start.plan(),
                dataset.attribute_types() == all_numerical(start.width()),
                all_admitted(plan, sample_map@),
                all_full(queries@, start.width()),
                self.sample_tree_map == start.sample_tree_map,
                self.sample_labels == start.sample_labels,
                self.config == start.config,
                self.num_attributes == start.num_attributes,
                self.rng == start.rng,
                self.add_rebuild_marks == start.add_rebuild_marks,
                self.forget_rebuild_marks == start.forget_rebuild_marks,
                self.tuning == start.tuning,
                self.trees@ == start.trees@.update(t as int, self.trees@[t as int]),
                self.fits_in(self.trees@[t as int], t as int),
                steps[0] == start.trees@[t as int],
                steps.last() == self.trees@[t as int],
                asked_each(steps, plan, sample_map@, queries@.take(i as int), list@),
            decreases queries@.len() - i,
        {
            let ghost a = queries@.take(i as int);
            let ghost b = queries@.take(i as int + 1);
            let ghost earlier = steps;
            let ghost told = list@;
            let ghost prior = self.trees@;
            assert(queries@[i as int].values@.len() >= start.width());
            let answer = self.trees[t].predict_with_lazy_resolve(dataset, sample_map, &queries[i]);
            list.push(answer);
            proof {
                steps = steps.push(self.trees@[t as int]);
                assert(self.trees@ =~= prior.update(t as int, self.trees@[t as int]));
                assert(self.trees@ =~= start.trees@.update(t as int, self.trees@[t as int]));
                assert forall|j: int| 0 <= j < b.len() implies answered(
                    steps[j],
                    steps[j + 1],
                    plan,
                    sample_map@,
                    (#[trigger] b[j]).values@,
                    list@[j],
                ) by {
                    if j < i {
                        assert(b[j] == a[j]);
                    }
                }
            }
            i = i + 1;
        }
        assert(queries@.take(i as int) =~= queries@);
        list
    }

    /// Asks every tree for the classes of rows, and counts the votes.
    fn ask_all(&mut self, queries: &[VecSample], sample_map: &IdTable<&VecSample>) -> (r: Vec<usize>)
        requires
            old(self).wf(),
            all_full(queries@, old(self).width()),
            forall|id: u64| #[trigger]
                sample_map@.contains_key(id) ==> sample_map@[id].values@.len() >= old(
                    self,
                ).width(),
        ensures
            final(self).wf(),
            r@.len() == queries@.len(),
            exists|answers: Seq<Seq<bool>>| #[trigger]
                forest_asked(*old(self), *final(self), sample_map@, queries@, answers) && (
                forall|i: int|
                    0 <= i < queries@.len() ==> #[trigger] r@[i] == yeas(
                        answers,
                        i,
                        answers.len() as int,
                    )),
    {
        let ghost start = *self;
        let ghost plan = self.plan();
        let mut active: Vec<&VecSample> = Vec::new();
        let known: usize = sample_map.len();
        while active.len() < known
            invariant
                active@.len() <= known == sample_map.order().len(),
                forall|id: u64| #[trigger]
                    sample_map@.contains_key(id) ==> sample_map@[id].values@.len()
                        >= start.width(),
                forall|i: int|
                    0 <= i < active@.len() ==> start.width() <= (
                    #[trigger] active@[i].data()).values.len(),
                forall|i: int|
                    0 <= i < active@.len() ==> start.width() <= (#[trigger] active@[i]).values@.len(),
            decreases known - active@.len(),
        {
            let sample = sample_map.value_at(active.len());
            active.push(*sample);
        }
        proof {
            assert forall|i: int| 0 <= i < active@.len() implies start.num_attributes <= (
            #[trigger] <&VecSample as Sample>::data(&active@[i])).values.len() by {
                assert(start.width() <= active@[i].values@.len());
            }
        }
        let dataset = ArrayDataset::from_samples(active.as_slice(), self.num_attributes);
        proof {
            assert(dataset.attribute_types() =~= all_numerical(self.num_attributes));
            assert forall|id: u64| #[trigger] sample_map@.contains_key(id) implies plan.admits(
                sample_map@[id].data().values,
            ) by {}
        }
        let mut counts: Vec<usize> = Vec::new();
        while counts.len() < queries.len()
            invariant
                counts@.len() <= queries@.len(),
                forall|i: int| 0 <= i < counts@.len() ==> counts@[i] == 0,
            decreases queries@.len() - counts@.len(),
        {
            counts.push(0);
        }
        let ghost mut answers: Seq<Seq<bool>> = Seq::empty();
        let mut t: usize = 0;
        while t < self.trees.len()
            invariant
                t <= self.trees@.len() == start.trees@.len(),
                start.wf(),
                plan == start.plan(),
                dataset.attribute_types() == all_numerical(start.width()),
                all_admitted(plan, sample_map@),
                all_full(queries@, start.width()),
                self.sample_tree_map == start.sample_tree_map,
                self.sample_labels == start.sample_labels,
                self.config == start.config,
                self.num_attributes == start.num_attributes,
                self.add_rebuild_marks == start.add_rebuild_marks,
                self.forget_rebuild_marks == start.forget_rebuild_marks,
                self.tuning == start.tuning,
                answers.len() == t,
                forall|u: int|
                    t <= u < start.trees@.len() ==> #[trigger] self.trees@[u] == start.trees@[u],
                forall|u: int| 0 <= u < t ==> start.fits_in(#[trigger] self.trees@[u], u),
                forall|u: int|
                    0 <= u < t ==> asked(
                        start.trees@[u],
                        self.trees@[u],
                        plan,
                        sample_map@,
                        queries@,
                        #[trigger] answers[u],
                    ),
                counts@.len() == queries@.len(),
                forall|i: int|
                    0 <= i < queries@.len() ==> #[trigger] counts@[i] == yeas(answers, i, t as int),
            decreases start.trees@.len() - t,
        {
            let ghost prior = self.trees@;
            let ghost earlier = answers;
            let ghost before = counts@;
            proof {
                assert(start.fits_in(start.forest()[t as int], t as int));
                assert(self.trees@[t as int] == start.trees@[t as int]);
            }
            let told = self.ask_tree(t, &dataset, sample_map, queries);
            proof {
                answers = answers.push(told@);
                assert forall|u: int| 0 <= u < t + 1 implies asked(
                    start.trees@[u],
                    self.trees@[u],
                    plan,
                    sample_map@,
                    queries@,
                    #[trigger] answers[u],
                ) by {
                    if u < t {
                        assert(answers[u] == earlier[u]);
                        assert(self.trees@[u] == prior[u]);
                    }
                }
                assert forall|u: int| 0 <= u < t + 1 implies start.fits_in(
                    #[trigger] self.trees@[u],
                    u,
                ) by {
                    if u < t {
                        assert(self.trees@[u] == prior[u]);
                    } else {
                        assert(self.fits_in(self.trees@[u], u));
                    }
                }
                let steps = choose|steps: Seq<DynFrsTree>| #[trigger]
                    asked_each(steps, plan, sample_map@, queries@, told@) && steps[0]
                        == prior[t as int] && steps.last() == self.trees@[t as int];
                assert(told@.len() == queries@.len());
            }
            let mut i: usize = 0;
            while i < queries.len()
                invariant
                    i <= queries@.len() == counts@.len(),
                    before.len() == counts@.len(),
                    told@.len() == queries@.len(),
                    t < usize::MAX,
                    earlier.len() == t,
                    answers == earlier.push(told@),
                    forall|j: int|
                        0 <= j < queries@.len() ==> #[trigger] before[j] == yeas(
                            earlier,
                            j,
                            t as int,
                        ),
                    forall|j: int|
                        0 <= j < i ==> #[trigger] counts@[j] == yeas(answers, j, t as int + 1),
                    forall|j: int| i <= j < queries@.len() ==> #[trigger] counts@[j] == before[j],
                decreases queries@.len() - i,
            {
                proof {
                    lemma_yeas_prefix(earlier, answers, i as int, t as int);
                    assert(before[i as int] == yeas(earlier, i as int, t as int));
                    assert(counts@[i as int] == before[i as int]);
                }
                if told[i] {
                    let c: usize = counts[i];
                    counts.set(i, c + 1);
                }
                i = i + 1;
            }
            t = t + 1;
        }
        proof {
            assert forall|u: int| 0 <= u < self.forest().len() implies self.fits_in(
                #[trigger] self.forest()[u],
                u,
            ) by {
                assert(start.fits_in(self.trees@[u], u));
            }
            assert(forest_asked(start, *self, sample_map@, queries@, answers));
        }
        counts
    }

    /// Predicts the classes of rows, and does the work that has been put off at the nodes
    /// on their ways. Without such work anywhere the forest stays as it is.
    pub fn predict_batch_with_lazy_resolve(
        &mut self,
        query_samples: &[VecSample],
        sample_map: &IdTable<&VecSample>,
    ) -> (r: Vec<bool>)
        requires
            old(self).wf(),
            all_full(query_samples@, old(self).width()),
            forall|id: u64| #[trigger]
                sample_map@.contains_key(id) ==> sample_map@[id].values@.len() >= old(
                    self,
                ).width(),
        ensures
            final(self).wf(),
            r@.len() == query_samples@.len(),
            query_samples@.len() == 0 || !any_pending(old(self).forest()) ==> {
                &&& *final(self) == *old(self)
                &&& r@ == Seq::new(
                    query_samples@.len(),
                    |i: int| decision(old(self).forest(), query_samples@[i].values@),
                )
            },
            query_samples@.len() > 0 && any_pending(old(self).forest()) ==> exists|
                answers: Seq<Seq<bool>>,
            | #[trigger]
                forest_asked(*old(self), *final(self), sample_map@, query_samples@, answers) && (
                forall|i: int|
                    0 <= i < query_samples@.len() ==> #[trigger] r@[i] == (2 * yeas(
                        answers,
                        i,
                        answers.len() as int,
                    ) > answers.len())),
    {
        if query_samples.len() == 0 {
            let none: Vec<bool> = Vec::new();
            assert(none@ =~= Seq::new(
                query_samples@.len(),
                |i: int| decision(old(self).forest(), query_samples@[i].values@),
            ));
            return none;
        }
        if !self.has_pending_rebuilds() {
            return self.predict_batch(query_samples);
        }
        let counts = self.ask_all(query_samples, sample_map);
        let ghost answers = choose|answers: Seq<Seq<bool>>| #[trigger]
            forest_asked(*old(self), *self, sample_map@, query_samples@, answers) && (forall|
                i: int,
            |
                0 <= i < query_samples@.len() ==> #[trigger] counts@[i] == yeas(
                    answers,
                    i,
                    answers.len() as int,
                ));
        let half: usize = self.trees.len() / 2;
        let mut list: Vec<bool> = Vec::new();
        let mut i: usize = 0;
        while i < counts.len()
            invariant
                i <= counts@.len() == query_samples@.len(),
                half == answers.len() as int / 2,
                forall|j: int|
                    0 <= j < counts@.len() ==> #[trigger] counts@[j] == yeas(
                        answers,
                        j,
                        answers.len() as int,
                    ),
                list@.len() == i,
                forall|j: int|
                    0 <= j < i ==> #[trigger] list@[j] == (2 * yeas(
                        answers,
                        j,
                        answers.len() as int,
                    ) > answers.len()),
            decreases counts@.len() - i,
        {
            assert(counts@[i as int] == yeas(answers, i as int, answers.len() as int));
            list.push(counts[i] > half);
            i = i + 1;
        }
        list
    }

    /// The shares of trees that vote for the positive class, with the work that has been
    /// put off at the nodes on the ways of the rows.
    pub fn predict_proba_batch_with_lazy_resolve(
        &mut self,
        query_samples: &[VecSample],
        sample_map: &IdTable<&VecSample>,
    ) -> (r: Vec<Fraction>)
        requires
            old(self).wf(),
            all_full(query_samples@, old(self).width()),
            forall|id: u64| #[trigger]
                sample_map@.contains_key(id) ==> sample_map@[id].values@.len() >= old(
                    self,
                ).width(),
        ensures
            final(self).wf(),
            r@.len() == query_samples@.len(),
            query_samples@.len() == 0 || !any_pending(old(self).forest()) ==> {
                &&& *final(self) == *old(self)
                &&& r@ == Seq::new(
                    query_samples@.len(),
                    |i: int| share(old(self).forest(), query_samples@[i].values@),
                )
            },
            query_samples@.len() > 0 && any_pending(old(self).forest()) ==> exists|
                answers: Seq<Seq<bool>>,
            | #[trigger]
                forest_asked(*old(self), *final(self), sample_map@, query_samples@, answers) && (
                forall|i: int|
                    0 <= i < query_samples@.len() ==> #[trigger] r@[i] == (Fraction {
                        num: yeas(answers, i, answers.len() as int) as i128,
                        den: answers.len() as u128,
                    })),
    {
        if query_samples.len() == 0 {
            let none: Vec<Fraction> = Vec::new();
            assert(none@ =~= Seq::new(
                query_samples@.len(),
                |i: int| share(old(self).forest(), query_samples@[i].values@),
            ));
            return none;
        }
        if !self.has_pending_rebuilds() {
            return self.predict_proba_batch(query_samples);
        }
        let counts = self.ask_all(query_samples, sample_map);
        let ghost answers = choose|answers: Seq<Seq<bool>>| #[trigger]
            forest_asked(*old(self), *self, sample_map@, query_samples@, answers) && (forall|
                i: int,
            |
                0 <= i < query_samples@.len() ==> #[trigger] counts@[i] == yeas(
                    answers,
                    i,
                    answers.len() as int,
                ));
        let n: u128 = self.trees.len() as u128;
        let mut list: Vec<Fraction> = Vec::new();
        let mut i: usize = 0;
        while i < counts.len()
            invariant
                i <= counts@.len() == query_samples@.len(),
                n == answers.len(),
                forall|j: int|
                    0 <= j < counts@.len() ==> #[trigger] counts@[j] == yeas(
                        answers,
                        j,
                        answers.len() as int,
                    ),
                list@.len() == i,
                forall|j: int|
                    0 <= j < i ==> #[trigger] list@[j] == (Fraction {
                        num: yeas(answers, j, answers.len() as int) as i128,
                        den: answers.len() as u128,
                    }),
            decreases counts@.len() - i,
        {
            assert(counts@[i as int] == yeas(answers, i as int, answers.len() as int));
            list.push(Fraction { num: counts[i] as i128, den: n });
            i = i + 1;
        }
        list
    }
}

} // verus!
