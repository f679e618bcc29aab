//! What the votes of trees say, and what the influence of a sample says.

use super::influence::{
    average, harmful, has_influence, influence_on, lemma_others, others, ranks, total_influence,
};
use super::vote::{ballots, ballots_of, decision, decision_of, share, share_of};
use super::{in_forest, DynFrsForest};
use crate::count::{lemma_those, lemma_those_agree, those};
use crate::fraction::Fraction;
use crate::sample::VecSample;
use crate::tree::shape::vote;
use crate::tree::DynFrsTree;
use vstd::prelude::*;

verus! {

/// The trees that vote for the positive class.
pub open spec fn for_positive(trees: Seq<DynFrsTree>, values: Seq<i64>) -> Set<int> {
    those(trees.len() as int, |t: int| vote(trees[t].structure(), values))
}

/// Counting votes one by one.
proof fn lemma_ballots_counted(trees: Seq<DynFrsTree>, values: Seq<i64>, n: int)
    requires
        0 <= n,
    ensures
        ballots(trees, values, n) == those(n, |t: int| vote(trees[t].structure(), values)).len(),
    decreases n,
{
    let p = |t: int| vote(trees[t].structure(), values);
    lemma_those(n, p);
    if n > 0 {
        lemma_ballots_counted(trees, values, n - 1);
    }
}

/// A forest predicts the positive class exactly if more than half of its trees vote for it,
/// and its share is that of the trees that do.
pub proof fn law_majority_decides(trees: Seq<DynFrsTree>, values: Seq<i64>)
    requires
        0 < trees.len() <= usize::MAX,
    ensures
        decision(trees, values) <==> 2 * for_positive(trees, values).len() > trees.len(),
        share(trees, values).num == for_positive(trees, values).len(),
        share(trees, values).den == trees.len(),
{
    let p = |t: int| vote(trees[t].structure(), values);
    lemma_ballots_counted(trees, values, trees.len() as int);
    lemma_those(trees.len() as int, p);
}

/// Forests of which every tree votes alike agree; and a forest of which no fewer trees vote for
/// the positive class than of another one of the same size predicts it if that one does.
pub proof fn law_more_votes_decide(
    a: Seq<DynFrsTree>,
    b: Seq<DynFrsTree>,
    values: Seq<i64>,
)
    requires
        0 < a.len() <= usize::MAX,
        a.len() == b.len(),
        forall|t: int|
            0 <= t < a.len() && vote((#[trigger] a[t]).structure(), values) ==> vote(
                b[t].structure(),
                values,
            ),
    ensures
        decision(a, values) ==> decision(b, values),
        share(a, values).num <= share(b, values).num,
{
    let p = |t: int| vote(a[t].structure(), values);
    let q = |t: int| vote(b[t].structure(), values);
    law_majority_decides(a, values);
    law_majority_decides(b, values);
    assert forall|t: int| 0 <= t < a.len() && #[trigger] p(t) implies q(t) by {
        assert(vote(a[t].structure(), values));
    }
    crate::count::lemma_those_fewer(a.len() as int, p, q);
}

/// The places of a list whose tree has a property.
spec fn held(list: Seq<usize>, v: spec_fn(int) -> bool, n: int) -> nat
    decreases n,
{
    if n <= 0 {
        0
    } else {
        held(list, v, n - 1) + if v(list[n - 1] as int) {
            1nat
        } else {
            0nat
        }
    }
}

/// Counting the places of a list is counting its trees.
proof fn lemma_held(list: Seq<usize>, v: spec_fn(int) -> bool, trees: int, n: int)
    requires
        in_forest(list, trees),
        0 <= n <= list.len(),
        0 <= trees <= usize::MAX,
    ensures
        held(list, v, n) == those(
            trees,
            |t: int| list.take(n).contains(t as usize) && v(t),
        ).len(),
    decreases n,
{
    let p = |t: int| list.take(n).contains(t as usize) && v(t);
    lemma_those(trees, p);
    if n <= 0 {
        assert(those(trees, p) =~= Set::<int>::empty());
    } else {
        let q = |t: int| list.take(n - 1).contains(t as usize) && v(t);
        lemma_those(trees, q);
        lemma_held(list, v, trees, n - 1);
        let x = list[n - 1] as int;
        let a = list.take(n - 1);
        let b = list.take(n);
        assert forall|t: usize| #[trigger] b.contains(t) == (a.contains(t) || t == x) by {
            if a.contains(t) {
                assert(b[a.index_of(t)] == t);
            }
            assert(b[n - 1] == x);
            if b.contains(t) && t != x {
                assert(a[b.index_of(t)] == t);
            }
        }
        assert(!a.contains(x as usize)) by {
            if a.contains(x as usize) {
                let i = a.index_of(x as usize);
                assert(list[i] < list[n - 1]);
            }
        }
        if v(x) {
            assert(those(trees, p) =~= those(trees, q).insert(x));
        } else {
            assert(those(trees, p) =~= those(trees, q));
        }
    }
}

/// The trees of a list that have a property.
pub open spec fn among(list: Seq<usize>, trees: int, v: spec_fn(int) -> bool) -> Set<int> {
    those(trees, |t: int| list.contains(t as usize) && v(t))
}

/// The votes of listed trees are those of the trees on the list.
proof fn lemma_list_counted(trees: Seq<DynFrsTree>, list: Seq<usize>, values: Seq<i64>)
    requires
        in_forest(list, trees.len() as int),
        trees.len() <= usize::MAX,
    ensures
        ballots_of(trees, list, values, list.len() as int) == among(
            list,
            trees.len() as int,
            |t: int| vote(trees[t].structure(), values),
        ).len(),
        among(list, trees.len() as int, |t: int| true).len() == list.len(),
        among(list, trees.len() as int, |t: int| vote(trees[t].structure(), values)).len()
            <= list.len(),
{
    let n = trees.len() as int;
    let v = |t: int| vote(trees[t].structure(), values);
    let all = |t: int| true;
    lemma_held(list, v, n, list.len() as int);
    lemma_held(list, all, n, list.len() as int);
    assert(list.take(list.len() as int) =~= list);
    lemma_held_ballots(trees, list, values, list.len() as int);
    lemma_held_all(list, list.len() as int);
}

/// Every place of a list is held.
proof fn lemma_held_all(list: Seq<usize>, n: int)
    requires
        0 <= n,
    ensures
        held(list, |t: int| true, n) == n,
    decreases n,
{
    if n > 0 {
        lemma_held_all(list, n - 1);
    }
}

/// Counting votes over a list.
proof fn lemma_held_ballots(trees: Seq<DynFrsTree>, list: Seq<usize>, values: Seq<i64>, n: int)
    requires
        in_forest(list, trees.len() as int),
        0 <= n <= list.len(),
    ensures
        ballots_of(trees, list, values, n) == held(
            list,
            |t: int| vote(trees[t].structure(), values),
            n,
        ),
        held(list, |t: int| vote(trees[t].structure(), values), n) <= n,
    decreases n,
{
    if n > 0 {
        lemma_held_ballots(trees, list, values, n - 1);
        assert(list[n - 1] < trees.len());
    }
}

/// Some trees predict the positive class exactly if more than half of them vote for it. Without
/// trees there is no prediction.
pub proof fn law_majority_of_some_decides(
    trees: Seq<DynFrsTree>,
    list: Seq<usize>,
    values: Seq<i64>,
)
    requires
        in_forest(list, trees.len() as int),
        trees.len() <= usize::MAX,
    ensures
        list.len() == 0 ==> decision_of(trees, list, values) is None && share_of(
            trees,
            list,
            values,
        ) is None,
        list.len() > 0 ==> decision_of(trees, list, values) == Some(
            2 * among(list, trees.len() as int, |t: int| vote(trees[t].structure(), values)).len()
                > list.len(),
        ),
        list.len() > 0 ==> share_of(trees, list, values) is Some && share_of(
            trees,
            list,
            values,
        )->0.num == among(
            list,
            trees.len() as int,
            |t: int| vote(trees[t].structure(), values),
        ).len() && share_of(trees, list, values)->0.den == list.len(),
{
    lemma_list_counted(trees, list, values);
    lemma_sizes(list, trees.len() as int);
}

/// A list of trees is no longer than there are trees.
proof fn lemma_sizes(list: Seq<usize>, trees: int)
    requires
        in_forest(list, trees),
        0 <= trees <= usize::MAX,
    ensures
        list.len() <= trees,
{
    let all = |t: int| true;
    let n = list.len() as int;
    lemma_held(list, all, trees, n);
    lemma_held_all(list, n);
    let p = |t: int| list.take(n).contains(t as usize) && all(t);
    lemma_those(trees, p);
}

/// Whether a tree has learnt a sample.
pub open spec fn has_learnt(forest: DynFrsForest, id: u64, t: int) -> bool {
    forest.members().contains_key(id) && forest.members()[id].contains(t as usize)
}

/// Whether most of the trees that have learnt a sample vote for a class, or, if it is asked of
/// the others, most of those that have not.
pub open spec fn most_vote(
    forest: DynFrsForest,
    id: u64,
    learnt: bool,
    values: Seq<i64>,
    label: bool,
) -> bool {
    let n = forest.forest().len() as int;
    let asked = those(n, |t: int| has_learnt(forest, id, t) == learnt);
    let yes = those(
        n,
        |t: int|
            has_learnt(forest, id, t) == learnt && vote(forest.forest()[t].structure(), values),
    );
    (2 * yes.len() > asked.len()) == label
}

/// The influence of a sample on the prediction for a test sample is one if most of the trees
/// that have learnt it are right and most of the others are wrong, minus one if it is the other
/// way round, and zero if both are right or both are wrong.
pub proof fn law_influence_tells_who_is_right(forest: DynFrsForest, id: u64, test: VecSample)
    requires
        has_influence(forest, id),
        in_forest(forest.members()[id], forest.forest().len() as int),
        forest.forest().len() <= usize::MAX,
    ensures
        ({
            let with = most_vote(forest, id, true, test.values@, test.label);
            let without = most_vote(forest, id, false, test.values@, test.label);
            &&& influence_on(forest, id, test) == 1 <==> with && !without
            &&& influence_on(forest, id, test) == -1 <==> !with && without
            &&& influence_on(forest, id, test) == 0 <==> with == without
        }),
{
    let n = forest.forest().len() as int;
    let trees = forest.forest();
    let values = test.values@;
    let list = forest.members()[id];
    let rest = others(list, n);
    let v = |t: int| vote(trees[t].structure(), values);
    lemma_others(list, n);
    lemma_list_counted(trees, list, values);
    lemma_list_counted(trees, rest, values);
    let all = |t: int| true;
    lemma_those_agree(
        n,
        |t: int| list.contains(t as usize) && v(t),
        |t: int| has_learnt(forest, id, t) == true && vote(trees[t].structure(), values),
    );
    lemma_those_agree(
        n,
        |t: int| list.contains(t as usize) && all(t),
        |t: int| has_learnt(forest, id, t) == true,
    );
    lemma_those_agree(
        n,
        |t: int| rest.contains(t as usize) && v(t),
        |t: int| has_learnt(forest, id, t) == false && vote(trees[t].structure(), values),
    );
    lemma_those_agree(
        n,
        |t: int| rest.contains(t as usize) && all(t),
        |t: int| has_learnt(forest, id, t) == false,
    );
}

/// The influence of a sample can be told exactly if some tree has learnt it and some tree has
/// not.
pub proof fn law_influence_needs_both(forest: DynFrsForest, id: u64)
    requires
        forest.members().contains_key(id) ==> in_forest(
            forest.members()[id],
            forest.forest().len() as int,
        ),
        forest.forest().len() <= usize::MAX,
    ensures
        has_influence(forest, id) <==> (exists|t: int|
            0 <= t < forest.forest().len() && #[trigger] has_learnt(forest, id, t)) && (exists|
            t: int,
        |
            0 <= t < forest.forest().len() && !#[trigger] has_learnt(forest, id, t)),
{
    let n = forest.forest().len() as int;
    let list = forest.members()[id];
    let rest = others(list, n);
    lemma_others(list, n);
    if has_influence(forest, id) {
        let a = list[0] as int;
        let b = rest[0] as int;
        assert(list.contains(list[0]));
        assert(rest.contains(rest[0]));
        assert(0 <= a < n && has_learnt(forest, id, a));
        assert(0 <= b < n && !has_learnt(forest, id, b));
    }
    if (exists|t: int| 0 <= t < n && #[trigger] has_learnt(forest, id, t)) && (exists|t: int|
        0 <= t < n && !#[trigger] has_learnt(forest, id, t)) {
        let a = choose|t: int| 0 <= t < n && #[trigger] has_learnt(forest, id, t);
        let b = choose|t: int| 0 <= t < n && !#[trigger] has_learnt(forest, id, t);
        assert(list.contains(a as usize));
        assert(rest.contains(b as usize));
    }
}

/// The test samples for which most of the trees that have learnt a sample are right, or, if it
/// is asked of the others, most of those that have not.
pub open spec fn right_rows(
    forest: DynFrsForest,
    id: u64,
    learnt: bool,
    tests: Seq<VecSample>,
    n: int,
) -> Set<int> {
    those(n, |i: int| most_vote(forest, id, learnt, tests[i].values@, tests[i].label))
}

/// The influences of a sample on test samples add up to the number of those for which the trees
/// that have learnt it are right, less the number of those for which the others are.
pub proof fn law_influences_count_right_rows(
    forest: DynFrsForest,
    id: u64,
    tests: Seq<VecSample>,
    n: int,
)
    requires
        has_influence(forest, id),
        in_forest(forest.members()[id], forest.forest().len() as int),
        forest.forest().len() <= usize::MAX,
        0 <= n <= tests.len(),
    ensures
        total_influence(forest, id, tests, n) == right_rows(forest, id, true, tests, n).len()
            - right_rows(forest, id, false, tests, n).len(),
    decreases n,
{
    lemma_those(n, |i: int| most_vote(forest, id, true, tests[i].values@, tests[i].label));
    lemma_those(n, |i: int| most_vote(forest, id, false, tests[i].values@, tests[i].label));
    if n > 0 {
        law_influences_count_right_rows(forest, id, tests, n - 1);
        law_influence_tells_who_is_right(forest, id, tests[n - 1]);
    }
}

/// Which samples are harmful, of a list.
proof fn lemma_harmful(list: Seq<(u64, Fraction)>)
    ensures
        forall|x: (u64, Fraction)| #[trigger]
            harmful(list).contains(x) <==> list.contains(x) && x.1.num < 0,
        harmful(list).len() <= list.len(),
    decreases list.len(),
{
    if list.len() > 0 {
        let front = list.drop_last();
        let last = list.last();
        lemma_harmful(front);
        let rest = harmful(front);
        assert forall|x: (u64, Fraction)| list.contains(x) == (front.contains(x) || x == last) by {
            if front.contains(x) {
                assert(list[front.index_of(x)] == x);
            }
            assert(list[list.len() - 1] == last);
            if list.contains(x) && x != last {
                assert(front[list.index_of(x)] == x);
            }
        }
        assert forall|x: (u64, Fraction)| #[trigger]
            harmful(list).contains(x) <==> list.contains(x) && x.1.num < 0 by {
            let all = harmful(list);
            if last.1.num < 0 {
                if rest.contains(x) {
                    assert(all[rest.index_of(x)] == x);
                }
                assert(all[rest.len() as int] == last);
                if all.contains(x) && x != last {
                    assert(rest[all.index_of(x)] == x);
                }
            }
        }
    }
}

/// The samples that are told to do harm are exactly those whose own trees are right for fewer
/// test samples than the other trees are.
pub proof fn law_harmful_samples_mislead(
    forest: DynFrsForest,
    tests: Seq<VecSample>,
    all: Seq<(u64, Fraction)>,
    id: u64,
)
    requires
        forest.wf(),
        0 < tests.len() <= usize::MAX,
        ranks(forest, tests, all),
        has_influence(forest, id),
    ensures
        (exists|i: int| 0 <= i < harmful(all).len() && (#[trigger] harmful(all)[i]).0 == id)
            <==> right_rows(forest, id, true, tests, tests.len() as int).len() < right_rows(
            forest,
            id,
            false,
            tests,
            tests.len() as int,
        ).len(),
{
    let n = tests.len() as int;
    let list = harmful(all);
    lemma_harmful(all);
    assert(forest.members().contains_key(id));
    law_influences_count_right_rows(forest, id, tests, n);
    super::influence::law_influence_bounds(forest, id, tests, n);
    let i = choose|i: int| 0 <= i < all.len() && (#[trigger] all[i]).0 == id;
    assert(all.contains(all[i]));
    assert(all[i].1 == average(forest, id, tests));
    if exists|k: int| 0 <= k < list.len() && (#[trigger] list[k]).0 == id {
        let k = choose|k: int| 0 <= k < list.len() && (#[trigger] list[k]).0 == id;
        assert(list.contains(list[k]));
        let j = all.index_of(list[k]);
        assert(all[j].1 == average(forest, id, tests));
    }
    if all[i].1.num < 0 {
        assert(list.contains(all[i]));
        let k = list.index_of(all[i]);
        assert(list[k].0 == id);
    }
}

/// The samples are ranked by how much they help: of two of them, the one whose trees do worse
/// against the others comes first.
pub proof fn law_most_harmful_come_first(
    forest: DynFrsForest,
    tests: Seq<VecSample>,
    all: Seq<(u64, Fraction)>,
    i: int,
    j: int,
)
    requires
        forest.wf(),
        0 < tests.len() <= usize::MAX,
        ranks(forest, tests, all),
        0 <= i < j < all.len(),
    ensures
        ({
            let n = tests.len() as int;
            let a = right_rows(forest, all[i].0, true, tests, n).len() - right_rows(
                forest,
                all[i].0,
                false,
                tests,
                n,
            ).len();
            let b = right_rows(forest, all[j].0, true, tests, n).len() - right_rows(
                forest,
                all[j].0,
                false,
                tests,
                n,
            ).len();
            a <= b
        }),
{
    let n = tests.len() as int;
    assert(has_influence(forest, all[i].0) && has_influence(forest, all[j].0));
    assert(forest.members().contains_key(all[i].0) && forest.members().contains_key(all[j].0));
    law_influences_count_right_rows(forest, all[i].0, tests, n);
    law_influences_count_right_rows(forest, all[j].0, tests, n);
    super::influence::law_influence_bounds(forest, all[i].0, tests, n);
    super::influence::law_influence_bounds(forest, all[j].0, tests, n);
}

/// Without trees a forest predicts the negative class, and is in two minds about it.
pub proof fn law_no_trees_no_vote(trees: Seq<DynFrsTree>, values: Seq<i64>)
    requires
        trees.len() == 0,
    ensures
        !decision(trees, values),
        2 * share(trees, values).num == share(trees, values).den,
        share(trees, values).den > 0,
{
}

} // verus!
