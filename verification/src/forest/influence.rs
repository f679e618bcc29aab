//! How much a training sample helps: comparing the trees that have learnt it with those
//! that have not.

use super::learn::{all_full, copy_places, lemma_forest_routes};
use super::vote::{ballots_of, decision_of, share_of};
use super::{in_forest, DynFrsForest};
use crate::fraction::Fraction;
use crate::order::{lemma_reordered, ordered, sort_keyed, sorted, Keyed};
use crate::sample::VecSample;
use crate::tree::shape::vote;
use crate::tree::DynFrsTree;
use vstd::prelude::*;

verus! {

/// The places up to a bound that are not in a list, in order.
pub open spec fn others(list: Seq<usize>, n: int) -> Seq<usize>
    decreases n,
{
    if n <= 0 {
        Seq::empty()
    } else {
        let before = others(list, n - 1);
        if list.contains((n - 1) as usize) {
            before
        } else {
            before.push((n - 1) as usize)
        }
    }
}

/// The places that are not in a list are exactly the missing ones.
pub proof fn lemma_others(list: Seq<usize>, n: int)
    requires
        0 <= n <= usize::MAX,
    ensures
        forall|x: usize| #[trigger]
            others(list, n).contains(x) <==> x < n && !list.contains(x),
        in_forest(others(list, n), n),
    decreases n,
{
    if n > 0 {
        lemma_others(list, n - 1);
        let before = others(list, n - 1);
        let all = others(list, n);
        assert forall|x: usize| #[trigger] all.contains(x) <==> x < n && !list.contains(x) by {
            if before.contains(x) {
                assert(all[before.index_of(x)] == x);
            }
            if all.contains(x) {
                let i = all.index_of(x);
                if i < before.len() {
                    assert(before[i] == x);
                }
            }
            if x == n - 1 && !list.contains(x) {
                assert(all[before.len() as int] == x);
            }
        }
        assert forall|i: int| 0 <= i < all.len() implies #[trigger] all[i] < n by {
            if i < before.len() {
                assert(before[i] < n - 1);
            }
        }
    }
}

/// One for a right prediction and zero for a wrong one.
pub open spec fn rightness(prediction: Option<bool>, label: bool) -> int {
    if prediction == Some(label) {
        1
    } else {
        0
    }
}

/// Whether the influence of a sample can be told: some trees have learnt it and some
/// have not.
pub open spec fn has_influence(forest: DynFrsForest, id: u64) -> bool {
    &&& forest.members().contains_key(id)
    &&& forest.members()[id].len() > 0
    &&& others(forest.members()[id], forest.forest().len() as int).len() > 0
}

/// The influence of a training sample on the prediction for a test sample: whether the
/// trees that have learnt it are right, minus whether the others are.
pub open spec fn influence_on(forest: DynFrsForest, id: u64, test: VecSample) -> int {
    let list = forest.members()[id];
    let rest = others(list, forest.forest().len() as int);
    rightness(decision_of(forest.forest(), list, test.values@), test.label) - rightness(
        decision_of(forest.forest(), rest, test.values@),
        test.label,
    )
}

/// The sum of the influences of a training sample on the first test samples.
pub open spec fn total_influence(
    forest: DynFrsForest,
    id: u64,
    tests: Seq<VecSample>,
    n: int,
) -> int
    decreases n,
{
    if n <= 0 {
        0
    } else {
        total_influence(forest, id, tests, n - 1) + influence_on(forest, id, tests[n - 1])
    }
}

/// The influence of a training sample on each test sample is at most one either way.
pub proof fn law_influence_bounds(forest: DynFrsForest, id: u64, tests: Seq<VecSample>, n: int)
    requires
        0 <= n,
    ensures
        -n <= total_influence(forest, id, tests, n) <= n,
    decreases n,
{
    if n > 0 {
        law_influence_bounds(forest, id, tests, n - 1);
    }
}

/// Whether a list holds the influence of every training sample whose influence can be
/// told, from the most harmful one to the most helpful one, equal ones by identifier.
pub open spec fn ranks(
    forest: DynFrsForest,
    tests: Seq<VecSample>,
    list: Seq<(u64, Fraction)>,
) -> bool {
    &&& forall|i: int|
        0 <= i < list.len() ==> {
            &&& has_influence(forest, (#[trigger] list[i]).0)
            &&& list[i].1 == average(forest, list[i].0, tests)
        }
    &&& forall|id: u64| #[trigger]
        has_influence(forest, id) ==> exists|i: int|
            0 <= i < list.len() && (#[trigger] list[i]).0 == id
    &&& forall|i: int, j: int|
        0 <= i < j < list.len() ==> (#[trigger] list[i]).1.num < (#[trigger] list[j]).1.num || (
        list[i].1.num == list[j].1.num && list[i].0 < list[j].0)
}

/// The average influence of a training sample on test samples.
pub open spec fn average(forest: DynFrsForest, id: u64, tests: Seq<VecSample>) -> Fraction {
    Fraction {
        num: total_influence(forest, id, tests, tests.len() as int) as i128,
        den: tests.len() as u128,
    }
}

/// The harmful ones of some samples.
pub open spec fn harmful(list: Seq<(u64, Fraction)>) -> Seq<(u64, Fraction)>
    decreases list.len(),
{
    if list.len() == 0 {
        list
    } else {
        let rest = harmful(list.drop_last());
        if list.last().1.num < 0 {
            rest.push(list.last())
        } else {
            rest
        }
    }
}

/// The first entries of a list, or all of them.
pub open spec fn first_of(
    list: Seq<(u64, Fraction)>,
    top_k: Option<usize>,
) -> Seq<(u64, Fraction)> {
    match top_k {
        Some(k) => if k < list.len() {
            list.take(k as int)
        } else {
            list
        },
        None => list,
    }
}

/// How many of the first places of a list have a vote.
spec fn tallied(preds: Seq<bool>, list: Seq<usize>, n: int) -> nat
    decreases n,
{
    if n <= 0 {
        0
    } else {
        tallied(preds, list, n - 1) + if preds[list[n - 1] as int] {
            1nat
        } else {
            0nat
        }
    }
}

/// Counting noted votes is counting votes.
proof fn lemma_tallied(
    trees: Seq<DynFrsTree>,
    preds: Seq<bool>,
    list: Seq<usize>,
    values: Seq<i64>,
    n: int,
)
    requires
        preds.len() == trees.len(),
        forall|t: int|
            0 <= t < trees.len() ==> #[trigger] preds[t] == vote(trees[t].structure(), values),
        in_forest(list, trees.len() as int),
        0 <= n <= list.len(),
    ensures
        tallied(preds, list, n) == ballots_of(trees, list, values, n),
        tallied(preds, list, n) <= n,
    decreases n,
{
    if n > 0 {
        lemma_tallied(trees, preds, list, values, n - 1);
        assert(list[n - 1] < trees.len());
        assert(preds[list[n - 1] as int] == vote(trees[list[n - 1] as int].structure(), values));
    }
}

/// Whether most of the noted votes of some trees are for the positive class.
fn most(preds: &Vec<bool>, list: &Vec<usize>) -> (r: bool)
    requires
        in_forest(list@, preds@.len() as int),
    ensures
        r == (2 * tallied(preds@, list@, list@.len() as int) > list@.len()),
{
    let mut count: usize = 0;
    let mut i: usize = 0;
    while i < list.len()
        invariant
            i <= list@.len(),
            in_forest(list@, preds@.len() as int),
            count <= i,
            count == tallied(preds@, list@, i as int),
        decreases list@.len() - i,
    {
        assert(list@[i as int] < preds@.len());
        if preds[list[i]] {
            count = count + 1;
        }
        i = i + 1;
    }
    count > list.len() / 2
}

impl DynFrsForest {
    /// The trees that have learnt a sample.
    pub fn get_sample_tree_indices(&self, sample_id: u64) -> (r: Vec<usize>)
        ensures
            r@ == (if self.members().contains_key(sample_id) {
                self.members()[sample_id]
            } else {
                Seq::empty()
            }),
    {
        match self.sample_tree_map.get(sample_id) {
            Some(list) => copy_places(list),
            None => {
                let none: Vec<usize> = Vec::new();
                assert(none@ =~= Seq::<usize>::empty());
                none
            },
        }
    }

    /// The trees that have not learnt a sample.
    pub fn get_oob_tree_indices(&self, sample_id: u64) -> (r: Vec<usize>)
        ensures
            r@ == others(
                if self.members().contains_key(sample_id) {
                    self.members()[sample_id]
                } else {
                    Seq::empty()
                },
                self.forest().len() as int,
            ),
    {
        let list = self.get_sample_tree_indices(sample_id);
        let mut rest: Vec<usize> = Vec::new();
        let mut t: usize = 0;
        while t < self.trees.len()
            invariant
                t <= self.trees@.len(),
                rest@ == others(list@, t as int),
            decreases self.trees@.len() - t,
        {
            if !holds(&list, t) {
                rest.push(t);
            }
            t = t + 1;
        }
        rest
    }

    /// The influence of a training sample on the prediction for a test sample.
    pub fn compute_oob_influence(&self, sample_id: u64, test_sample: &VecSample) -> (r: Option<i64>)
        requires
            self.wf(),
            test_sample.values@.len() >= self.width(),
        ensures
            r is Some <==> has_influence(*self, sample_id),
            r is Some ==> r->0 == influence_on(*self, sample_id, *test_sample),
    {
        if !self.sample_tree_map.contains_key(sample_id) {
            return None;
        }
        let in_bag = self.get_sample_tree_indices(sample_id);
        let out = self.get_oob_tree_indices(sample_id);
        let a = self.predict_with_trees(test_sample, in_bag.as_slice());
        let b = self.predict_with_trees(test_sample, out.as_slice());
        match (a, b) {
            (Some(x), Some(y)) => {
                let right_in: i64 = if x == test_sample.label {
                    1
                } else {
                    0
                };
                let right_out: i64 = if y == test_sample.label {
                    1
                } else {
                    0
                };
                Some(right_in - right_out)
            },
            _ => None,
        }
    }

    /// The average influence of a training sample on test samples.
    pub fn compute_oob_influence_batch(&self, sample_id: u64, test_samples: &[VecSample]) -> (r:
        Option<Fraction>)
        requires
            self.wf(),
            all_full(test_samples@, self.width()),
        ensures
            r == (if test_samples@.len() > 0 && has_influence(*self, sample_id) {
                Some(average(*self, sample_id, test_samples@))
            } else {
                None
            }),
            r is Some ==> r->0.wf() && -(r->0.den as int) <= r->0.num <= r->0.den <= usize::MAX,
    {
        if test_samples.len() == 0 {
            return None;
        }
        let mut total: i128 = 0;
        let mut i: usize = 0;
        while i < test_samples.len()
            invariant
                i <= test_samples@.len(),
                self.wf(),
                all_full(test_samples@, self.width()),
                i > 0 ==> has_influence(*self, sample_id),
                total == total_influence(*self, sample_id, test_samples@, i as int),
                -(i as int) <= total <= i,
            decreases test_samples@.len() - i,
        {
            assert(test_samples@[i as int].values@.len() >= self.width());
            match self.compute_oob_influence(sample_id, &test_samples[i]) {
                Some(x) => {
                    total = total + x as i128;
                },
                None => {
                    return None;
                },
            }
            i = i + 1;
        }
        Some(Fraction { num: total, den: test_samples.len() as u128 })
    }

    /// The shares of positive votes among the trees that have learnt a sample and among
    /// the others.
    pub fn compute_influence_shares(&self, sample_id: u64, test_sample: &VecSample) -> (r: Option<(
        Fraction,
        Fraction,
    )>)
        requires
            self.wf(),
            test_sample.values@.len() >= self.width(),
        ensures
            r is Some <==> has_influence(*self, sample_id),
            r is Some ==> {
                let list = self.members()[sample_id];
                let rest = others(list, self.forest().len() as int);
                &&& Some((r->0).0) == share_of(self.forest(), list, test_sample.values@)
                &&& Some((r->0).1) == share_of(self.forest(), rest, test_sample.values@)
            },
    {
        if !self.sample_tree_map.contains_key(sample_id) {
            return None;
        }
        let in_bag = self.get_sample_tree_indices(sample_id);
        let out = self.get_oob_tree_indices(sample_id);
        let a = self.predict_proba_with_trees(test_sample, in_bag.as_slice());
        let b = self.predict_proba_with_trees(test_sample, out.as_slice());
        match (a, b) {
            (Some(x), Some(y)) => Some((x, y)),
            _ => None,
        }
    }

    /// Notes the vote of every tree for a sample.
    fn note_votes(&self, sample: &VecSample) -> (r: Vec<bool>)
        requires
            self.wf(),
            sample.values@.len() >= self.width(),
        ensures
            r@.len() == self.forest().len(),
            forall|t: int|
                0 <= t < r@.len() ==> #[trigger] r@[t] == vote(
                    self.forest()[t].structure(),
                    sample.values@,
                ),
    {
        let mut preds: Vec<bool> = Vec::new();
        while preds.len() < self.trees.len()
            invariant
                self.wf(),
                sample.values@.len() >= self.width(),
                preds@.len() <= self.trees@.len(),
                forall|t: int|
                    0 <= t < preds@.len() ==> #[trigger] preds@[t] == vote(
                        self.forest()[t].structure(),
                        sample.values@,
                    ),
            decreases self.trees@.len() - preds@.len(),
        {
            proof {
                lemma_forest_routes(*self, preds@.len() as int, sample.values@);
                assert(self.fits_in(self.forest()[preds@.len() as int], preds@.len() as int));
            }
            let p = self.trees[preds.len()].predict(sample);
            preds.push(p);
        }
        preds
    }

    /// Adds up the influences of a sample from noted votes.
    fn add_up(
        &self,
        sample_id: u64,
        in_bag: &Vec<usize>,
        out: &Vec<usize>,
        votes: &Vec<Vec<bool>>,
        tests: &[VecSample],
    ) -> (r: i128)
        requires
            self.wf(),
            has_influence(*self, sample_id),
            in_bag@ == self.members()[sample_id],
            out@ == others(in_bag@, self.forest().len() as int),
            votes@.len() == tests@.len(),
            forall|i: int|
                0 <= i < tests@.len() ==> (#[trigger] votes@[i])@.len() == self.forest().len(),
            forall|i: int, t: int|
                0 <= i < tests@.len() && 0 <= t < self.forest().len() ==> #[trigger] votes@[i]@[t]
                    == vote(self.forest()[t].structure(), tests@[i].values@),
        ensures
            r == total_influence(*self, sample_id, tests@, tests@.len() as int),
    {
        let mut total: i128 = 0;
        let mut i: usize = 0;
        let ghost trees = self.forest();
        proof {
            assert(in_forest(in_bag@, trees.len() as int));
            lemma_others(in_bag@, trees.len() as int);
        }
        while i < tests.len()
            invariant
                i <= tests@.len() == votes@.len(),
                trees == self.forest(),
                in_forest(in_bag@, trees.len() as int),
                in_forest(out@, trees.len() as int),
                in_bag@ == self.members()[sample_id],
                out@ == others(in_bag@, trees.len() as int),
                in_bag@.len() > 0,
                out@.len() > 0,
                forall|i: int|
                    0 <= i < tests@.len() ==> (#[trigger] votes@[i])@.len() == trees.len(),
                forall|i: int, t: int|
                    0 <= i < tests@.len() && 0 <= t < trees.len() ==> #[trigger] votes@[i]@[t]
                        == vote(trees[t].structure(), tests@[i].values@),
                total == total_influence(*self, sample_id, tests@, i as int),
                -(i as int) <= total <= i,
            decreases tests@.len() - i,
        {
            let preds = &votes[i];
            proof {
                assert(votes@[i as int]@.len() == trees.len());
                assert forall|t: int| 0 <= t < trees.len() implies #[trigger] preds@[t] == vote(
                    trees[t].structure(),
                    tests@[i as int].values@,
                ) by {
                    assert(votes@[i as int]@[t] == preds@[t]);
                }
                lemma_tallied(
                    trees,
                    preds@,
                    in_bag@,
                    tests@[i as int].values@,
                    in_bag@.len() as int,
                );
                lemma_tallied(trees, preds@, out@, tests@[i as int].values@, out@.len() as int);
            }
            let a = most(preds, in_bag);
            let b = most(preds, out);
            let label = tests[i].label;
            if a == label {
                total = total + 1;
            }
            if b == label {
                total = total - 1;
            }
            i = i + 1;
        }
        total
    }

    /// The influences of all training samples on test samples, from the most harmful one
    /// to the most helpful one.
    pub fn compute_all_influences(&self, test_samples: &[VecSample]) -> (r: Vec<(u64, Fraction)>)
        requires
            self.wf(),
            all_full(test_samples@, self.width()),
        ensures
            test_samples@.len() == 0 ==> r@.len() == 0,
            test_samples@.len() > 0 ==> ranks(*self, test_samples@, r@),
    {
        if test_samples.len() == 0 {
            return Vec::new();
        }
        let ghost n = test_samples@.len() as int;
        let mut votes: Vec<Vec<bool>> = Vec::new();
        while votes.len() < test_samples.len()
            invariant
                self.wf(),
                all_full(test_samples@, self.width()),
                votes@.len() <= test_samples@.len(),
                forall|i: int|
                    0 <= i < votes@.len() ==> (#[trigger] votes@[i])@.len() == self.forest().len(),
                forall|i: int, t: int|
                    0 <= i < votes@.len() && 0 <= t < self.forest().len()
                        ==> #[trigger] votes@[i]@[t] == vote(
                        self.forest()[t].structure(),
                        test_samples@[i].values@,
                    ),
            decreases test_samples@.len() - votes@.len(),
        {
            assert(test_samples@[votes@.len() as int].values@.len() >= self.width());
            let noted = self.note_votes(&test_samples[votes.len()]);
            votes.push(noted);
        }
        let count: usize = self.sample_tree_map.len();
        let ghost order = self.sample_tree_map.order();
        let mut list: Vec<Keyed> = Vec::new();
        let mut i: usize = 0;
        while i < count
            invariant
                i <= count == order.len(),
                order == self.sample_tree_map.order(),
                order.no_duplicates(),
                self.wf(),
                n == test_samples@.len(),
                votes@.len() == test_samples@.len(),
                forall|i: int|
                    0 <= i < votes@.len() ==> (#[trigger] votes@[i])@.len() == self.forest().len(),
                forall|i: int, t: int|
                    0 <= i < votes@.len() && 0 <= t < self.forest().len()
                        ==> #[trigger] votes@[i]@[t] == vote(
                        self.forest()[t].structure(),
                        test_samples@[i].values@,
                    ),
                forall|x: Keyed| #[trigger]
                    list@.contains(x) <==> order.take(i as int).contains(x.1) && has_influence(
                        *self,
                        x.1,
                    ) && x.0 == total_influence(*self, x.1, test_samples@, n),
                list@.no_duplicates(),
            decreases count - i,
        {
            let id: u64 = self.sample_tree_map.key_at(i);
            let in_bag = self.get_sample_tree_indices(id);
            let out = self.get_oob_tree_indices(id);
            let ghost before = list@;
            let ghost a = order.take(i as int);
            let ghost b = order.take(i as int + 1);
            proof {
                assert(self.members().contains_key(id));
                assert(b =~= a.push(id));
                assert(!a.contains(id)) by {
                    if a.contains(id) {
                        let j = a.index_of(id);
                        assert(order[j] == order[i as int]);
                    }
                }
                assert forall|x: u64| b.contains(x) == (a.contains(x) || x == id) by {
                    if a.contains(x) {
                        assert(b[a.index_of(x)] == x);
                    }
                    assert(b[i as int] == id);
                }
            }
            if in_bag.len() > 0 && out.len() > 0 {
                let total: i128 = self.add_up(id, &in_bag, &out, &votes, test_samples);
                list.push((total, id));
                proof {
                    assert forall|x: Keyed| list@.contains(x) == (before.contains(x) || x == (
                        total,
                        id,
                    )) by {
                        if before.contains(x) {
                            assert(list@[before.index_of(x)] == x);
                        }
                        assert(list@[before.len() as int] == (total, id));
                    }
                    assert(!before.contains((total, id)));
                }
            }
            assert forall|x: Keyed| #[trigger] list@.contains(x) <==> b.contains(x.1)
                && has_influence(*self, x.1) && x.0 == total_influence(
                *self,
                x.1,
                test_samples@,
                n,
            ) by {
                assert(before.contains(x) <==> a.contains(x.1) && has_influence(*self, x.1) && x.0
                    == total_influence(*self, x.1, test_samples@, n));
                assert(b.contains(x.1) == (a.contains(x.1) || x.1 == id));
            }
            i = i + 1;
        }
        let ghost gathered = list@;
        let list = sort_keyed(list);
        proof {
            assert(order.take(i as int) =~= order);
            lemma_reordered(gathered, list@);
        }
        let den: u128 = test_samples.len() as u128;
        let mut result: Vec<(u64, Fraction)> = Vec::new();
        let mut j: usize = 0;
        while j < list.len()
            invariant
                j <= list@.len(),
                den == n,
                result@ == Seq::new(
                    j as nat,
                    |i: int| (list@[i].1, Fraction { num: list@[i].0, den: n as u128 }),
                ),
            decreases list@.len() - j,
        {
            result.push((list[j].1, Fraction { num: list[j].0, den }));
            j = j + 1;
            assert(result@ =~= Seq::new(
                j as nat,
                |i: int| (list@[i].1, Fraction { num: list@[i].0, den: n as u128 }),
            ));
        }
        proof {
            lemma_ranks(*self, test_samples@, order, gathered, list@, result@);
        }
        result
    }

    /// The training samples that do harm, the most harmful ones first, all of them or as
    /// many as asked for.
    pub fn get_harmful_samples(&self, test_samples: &[VecSample], top_k: Option<usize>) -> (r: Vec<(
        u64,
        Fraction,
    )>)
        requires
            self.wf(),
            all_full(test_samples@, self.width()),
        ensures
            test_samples@.len() == 0 ==> r@.len() == 0,
            test_samples@.len() > 0 ==> exists|all: Seq<(u64, Fraction)>| #[trigger]
                ranks(*self, test_samples@, all) && r@ == first_of(harmful(all), top_k),
    {
        let all = self.compute_all_influences(test_samples);
        let mut list: Vec<(u64, Fraction)> = Vec::new();
        let mut i: usize = 0;
        assert(all@.take(0) =~= Seq::<(u64, Fraction)>::empty());
        while i < all.len()
            invariant
                i <= all@.len(),
                list@ == harmful(all@.take(i as int)),
                list@.len() <= i,
            decreases all@.len() - i,
        {
            assert(all@.take(i as int + 1).drop_last() =~= all@.take(i as int));
            if all[i].1.num < 0 {
                list.push(all[i]);
            }
            i = i + 1;
        }
        assert(all@.take(i as int) =~= all@);
        match top_k {
            Some(k) => {
                if k < list.len() {
                    list.truncate(k);
                }
            },
            None => {},
        }
        list
    }
}

/// Whether a list holds a place.
fn holds(list: &Vec<usize>, place: usize) -> (r: bool)
    ensures
        r == list@.contains(place),
{
    let mut i: usize = 0;
    while i < list.len()
        invariant
            i <= list@.len(),
            forall|j: int| 0 <= j < i ==> list@[j] != place,
        decreases list@.len() - i,
    {
        if list[i] == place {
            assert(list@[i as int] == place);
            return true;
        }
        i = i + 1;
    }
    false
}

/// The sorted influences are the ranking.
proof fn lemma_ranks(
    forest: DynFrsForest,
    tests: Seq<VecSample>,
    order: Seq<u64>,
    gathered: Seq<Keyed>,
    list: Seq<Keyed>,
    result: Seq<(u64, Fraction)>,
)
    requires
        forall|id: u64| #[trigger]
            has_influence(forest, id) ==> order.contains(id),
        forall|x: Keyed| #[trigger]
            gathered.contains(x) <==> order.contains(x.1) && has_influence(forest, x.1) && x.0
                == total_influence(forest, x.1, tests, tests.len() as int),
        forall|x: Keyed| #[trigger] gathered.contains(x) == list.contains(x),
        sorted(list),
        list.no_duplicates(),
        tests.len() <= u64::MAX,
        result == Seq::new(
            list.len(),
            |i: int| (list[i].1, Fraction { num: list[i].0, den: tests.len() as u128 }),
        ),
    ensures
        ranks(forest, tests, result),
{
    assert forall|i: int| 0 <= i < result.len() implies {
        &&& has_influence(forest, (#[trigger] result[i]).0)
        &&& result[i].1 == average(forest, result[i].0, tests)
    } by {
        assert(list.contains(list[i]));
        assert(gathered.contains(list[i]));
    }
    assert forall|id: u64| #[trigger] has_influence(forest, id) implies exists|i: int|
        0 <= i < result.len() && (#[trigger] result[i]).0 == id by {
        let total = total_influence(forest, id, tests, tests.len() as int);
        law_influence_bounds(forest, id, tests, tests.len() as int);
        let x: Keyed = (total as i128, id);
        assert(gathered.contains(x));
        assert(list.contains(x));
        let i = list.index_of(x);
        assert(result[i].0 == id);
    }
    assert forall|i: int, j: int| 0 <= i < j < result.len() implies (#[trigger] result[i]).1.num < (
    #[trigger] result[j]).1.num || (result[i].1.num == result[j].1.num && result[i].0
        < result[j].0) by {
        assert(ordered(list[i], list[j]));
        assert(list[i] != list[j]);
    }
}

} // verus!
