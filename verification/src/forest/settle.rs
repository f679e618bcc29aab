//! What a forest keeps exact while it puts work off.

use super::laws::{
    forest_represents, holds_part, law_forest_forgets_exactly, lemma_part_distinct,
};
use super::learn::forgot;
use super::stream::{forgot_each, streaming_enabled, streams_on};
use super::vote::asked_each;
use super::DynFrsForest;
use crate::node::node_id::ROOT;
use crate::sample::{Rows, Sample, SampleData, VecSample};
use crate::streaming::StateView;
use crate::tree::collect::{by_id, states_made};
use crate::tree::grow::Plan;
use crate::tree::lazy::answered;
use crate::tree::laws::represents;
use crate::tree::retrain::knows;
use crate::tree::settle::{all_listed, law_forgetting_keeps_lists, law_new_states_list_arrivals};
use crate::tree::shape::distinct;
use crate::tree::stream::{remove_answer, removed_from};
use crate::tree::walk::{
    asked_with_help, is_majority, law_helped_answer_is_exact, law_listed_is_workable, workable,
};
use crate::tree::DynFrsTree;
use vstd::prelude::*;

verus! {

/// Whether every tree of a forest keeps states, and the state of every node lists, once
/// each, exactly the samples that come to it.
pub open spec fn forest_listed(forest: DynFrsForest, parts: Seq<Rows>) -> bool {
    forall|t: int|
        0 <= t < forest.forest().len() ==> (#[trigger] forest.forest()[t]).streams() && all_listed(
            forest.forest()[t],
            parts[t],
        )
}

/// A forest that represents samples still does when streaming is turned on, and the states
/// that are made then list what comes to the nodes.
pub proof fn law_streaming_lists_arrivals(
    before: DynFrsForest,
    after: DynFrsForest,
    samples: Seq<VecSample>,
    data: Map<u64, SampleData>,
    parts: Seq<Rows>,
)
    requires
        after.wf(),
        before.forest().len() <= usize::MAX,
        forest_represents(before, data, parts),
        streams_on(before, after, samples),
    ensures
        forest_represents(after, data, parts),
        forest_listed(after, parts),
{
    assert forall|t: usize| t < parts.len() implies {
        &&& holds_part(#[trigger] parts[t as int], data, after.members(), t)
        &&& represents(
            after.forest()[t as int].structure(),
            after.forest()[t as int].placement(),
            parts[t as int],
        )
    } by {
        assert(streaming_enabled(before.forest()[t as int], after.forest()[t as int], samples));
        assert(holds_part(parts[t as int], data, before.members(), t));
    }
    assert(forest_represents(after, data, parts));
    assert forall|t: int| 0 <= t < after.forest().len() implies (
    #[trigger] after.forest()[t]).streams() && all_listed(after.forest()[t], parts[t]) by {
        let u = t as usize;
        let tree = after.forest()[t];
        assert(holds_part(parts[u as int], data, after.members(), u));
        assert(streaming_enabled(before.forest()[t], tree, samples));
        assert(after.fits_in(tree, t));
        let known = choose|known: Map<u64, &VecSample>|
            by_id(samples, known) && #[trigger] states_made(
                Map::<u64, StateView>::empty(),
                tree.states(),
                known,
                before.forest()[t].width(),
                before.forest()[t].structure(),
                ROOT,
            );
        law_new_states_list_arrivals(tree, Map::<u64, StateView>::empty(), known, parts[t]);
    }
}

/// The samples that are put into a tree make up one collection.
proof fn lemma_one_part(
    a: Rows,
    b: Rows,
    data: Map<u64, SampleData>,
    members: Map<u64, Seq<usize>>,
    t: usize,
)
    requires
        holds_part(a, data, members, t),
        holds_part(b, data, members, t),
    ensures
        a == b,
{
    assert(a =~= b) by {
        assert forall|d: SampleData| a.count(d) == b.count(d) by {
            assert(a.count(d) == a.count(d) && b.count(d) == b.count(d));
        }
    }
}

/// Forgetting a sample keeps the lists of a forest up, so that the work that this puts off
/// can be done exactly.
pub proof fn law_forgetting_keeps_forest_lists(
    before: DynFrsForest,
    after: DynFrsForest,
    data: Map<u64, SampleData>,
    parts: Seq<Rows>,
    id: u64,
    features: Seq<i64>,
    lazy: bool,
)
    requires
        before.wf(),
        forest_represents(before, data, parts),
        forest_listed(before, parts),
        forgot(before, after, id, features, lazy),
    ensures
        exists|rest: Seq<Rows>| #[trigger]
            forest_represents(after, data.remove(id), rest) && forest_listed(after, rest),
{
    assert(before.members().dom().contains(id) == data.dom().contains(id));
    if !data.contains_key(id) {
        assert(data.remove(id) =~= data);
        assert(forest_represents(after, data.remove(id), parts));
    } else {
        law_forest_forgets_exactly(before, after, data, parts, id, features, lazy);
        let rest = choose|rest: Seq<Rows>| #[trigger]
            forest_represents(after, data.remove(id), rest);
        let d = data[id];
        assert(d.label == before.classes()[id]);
        assert forall|t: int| 0 <= t < after.forest().len() implies (
        #[trigger] after.forest()[t]).streams() && all_listed(after.forest()[t], rest[t]) by {
            let u = t as usize;
            let tree = before.forest()[t];
            let gone = after.forest()[t];
            let m = parts[t];
            assert(holds_part(parts[u as int], data, before.members(), u));
            assert(holds_part(rest[u as int], data.remove(id), after.members(), u));
            assert(before.fits_in(tree, t));
            assert(after.forest()[u as int] == gone);
            if before.members()[id].contains(u) {
                assert(m.count(d) == 1);
                assert(removed_from(
                    tree,
                    gone,
                    id,
                    features,
                    d.label,
                    lazy,
                    remove_answer(tree, id, features, d.label, lazy),
                ));
                law_forgetting_keeps_lists(
                    tree,
                    gone,
                    m,
                    d,
                    features,
                    lazy,
                    remove_answer(tree, id, features, d.label, lazy),
                );
                assert(gone.streams()) by {
                    assert(tree.streams());
                }
                let less = m.remove(d);
                assert(holds_part(less, data.remove(id), after.members(), u)) by {
                    assert forall|x: SampleData| #[trigger] less.count(x) == (
                    if data.remove(id).contains_key(x.id) && data.remove(id)[x.id] == x
                        && after.members().contains_key(x.id) && after.members()[x.id].contains(u) {
                        1nat
                    } else {
                        0nat
                    }) by {
                        assert(m.count(x) == m.count(x));
                    }
                }
                lemma_one_part(less, rest[t], data.remove(id), after.members(), u);
            } else {
                assert(holds_part(m, data.remove(id), after.members(), u)) by {
                    assert forall|x: SampleData| #[trigger] m.count(x) == (
                    if data.remove(id).contains_key(x.id) && data.remove(id)[x.id] == x
                        && after.members().contains_key(x.id) && after.members()[x.id].contains(u) {
                        1nat
                    } else {
                        0nat
                    }) by {
                        if x.id == id {
                            assert(m.count(x) == 0);
                        }
                    }
                }
                lemma_one_part(m, rest[t], data.remove(id), after.members(), u);
                assert(tree.streams() && all_listed(tree, m));
            }
        }
        assert(forest_represents(after, data.remove(id), rest) && forest_listed(after, rest));
    }
}

/// Those of the first samples of a list whose features are known.
pub open spec fn told_of(gone: Seq<u64>, features: Map<u64, Seq<i64>>, n: int) -> Set<u64> {
    Set::new(|id: u64| gone.take(n).contains(id) && features.contains_key(id))
}

/// After some steps a forest represents the samples that have not been forgotten by then,
/// and its lists are up to date if they were.
proof fn lemma_batch_forgotten(
    steps: Seq<DynFrsForest>,
    data: Map<u64, SampleData>,
    parts: Seq<Rows>,
    gone: Seq<u64>,
    features: Map<u64, Seq<i64>>,
    listed: bool,
    n: int,
)
    requires
        forgot_each(steps, gone, features),
        forest_represents(steps[0], data, parts),
        listed ==> forest_listed(steps[0], parts),
        0 <= n <= gone.len(),
    ensures
        exists|rest: Seq<Rows>| #[trigger]
            forest_represents(steps[n], data.remove_keys(told_of(gone, features, n)), rest) && (
            listed ==> forest_listed(steps[n], rest)),
    decreases n,
{
    if n <= 0 {
        assert(data.remove_keys(told_of(gone, features, 0)) =~= data);
        assert(forest_represents(steps[n], data.remove_keys(told_of(gone, features, n)), parts));
    } else {
        let k = n - 1;
        let id = gone[k];
        lemma_batch_forgotten(steps, data, parts, gone, features, listed, k);
        let left = data.remove_keys(told_of(gone, features, k));
        let less = data.remove_keys(told_of(gone, features, n));
        let rest = choose|rest: Seq<Rows>| #[trigger]
            forest_represents(steps[k], left, rest) && (listed ==> forest_listed(steps[k], rest));
        let a = gone.take(k);
        let b = gone.take(n);
        assert forall|x: u64| b.contains(x) == (a.contains(x) || x == id) by {
            if a.contains(x) {
                assert(b[a.index_of(x)] == x);
            }
            assert(b[k] == id);
            if b.contains(x) && x != id {
                assert(a[b.index_of(x)] == x);
            }
        }
        assert(steps[k].wf());
        if features.contains_key(id) {
            assert(forgot(steps[k], steps[k + 1], gone[k], features[gone[k]], true));
            assert(less =~= left.remove(id));
            if listed {
                law_forgetting_keeps_forest_lists(
                    steps[k],
                    steps[n],
                    left,
                    rest,
                    id,
                    features[id],
                    true,
                );
            } else if left.contains_key(id) {
                law_forest_forgets_exactly(steps[k], steps[n], left, rest, id, features[id], true);
            } else {
                assert(steps[k].members().dom().contains(id) == left.dom().contains(id));
                assert(left.remove(id) =~= left);
                assert(forest_represents(steps[n], less, rest));
            }
        } else {
            assert(steps[k + 1] == steps[k]);
            assert(less =~= left);
            assert(forest_represents(steps[n], less, rest));
        }
    }
}

/// A forest that represents samples represents those that are left after some have been
/// forgotten one after the other; those whose features are not told stay.
pub proof fn law_forgetting_batch_is_exact(
    steps: Seq<DynFrsForest>,
    data: Map<u64, SampleData>,
    parts: Seq<Rows>,
    gone: Seq<u64>,
    features: Map<u64, Seq<i64>>,
)
    requires
        forgot_each(steps, gone, features),
        forest_represents(steps[0], data, parts),
    ensures
        exists|rest: Seq<Rows>| #[trigger]
            forest_represents(
                steps.last(),
                data.remove_keys(told_of(gone, features, gone.len() as int)),
                rest,
            ),
{
    let n = gone.len() as int;
    lemma_batch_forgotten(steps, data, parts, gone, features, false, n);
    let left = data.remove_keys(told_of(gone, features, n));
    let rest = choose|rest: Seq<Rows>| #[trigger]
        forest_represents(steps[n], left, rest);
    assert(forest_represents(steps.last(), left, rest));
}

/// A forest whose states list what comes to their nodes still has such states after some
/// samples have been forgotten one after the other, so that the work that this puts off can
/// be done exactly.
pub proof fn law_forgetting_batch_keeps_lists(
    steps: Seq<DynFrsForest>,
    data: Map<u64, SampleData>,
    parts: Seq<Rows>,
    gone: Seq<u64>,
    features: Map<u64, Seq<i64>>,
)
    requires
        forgot_each(steps, gone, features),
        forest_represents(steps[0], data, parts),
        forest_listed(steps[0], parts),
    ensures
        exists|rest: Seq<Rows>| #[trigger]
            forest_represents(
                steps.last(),
                data.remove_keys(told_of(gone, features, gone.len() as int)),
                rest,
            ) && forest_listed(steps.last(), rest) && forall|t: int|
                0 <= t < steps.last().forest().len() ==> workable(
                    #[trigger] steps.last().forest()[t],
                    rest[t],
                ),
{
    let n = gone.len() as int;
    lemma_batch_forgotten(steps, data, parts, gone, features, true, n);
    let left = data.remove_keys(told_of(gone, features, n));
    let rest = choose|rest: Seq<Rows>| #[trigger]
        forest_represents(steps[n], left, rest) && forest_listed(steps[n], rest);
    assert(steps[n].wf());
    law_listed_forest_is_workable(steps[n], left, rest);
    assert(forest_represents(steps.last(), left, rest));
}

/// In a forest whose states list what comes to their nodes the work that has been put off
/// can be done exactly.
pub proof fn law_listed_forest_is_workable(
    forest: DynFrsForest,
    data: Map<u64, SampleData>,
    parts: Seq<Rows>,
)
    requires
        forest.wf(),
        forest_represents(forest, data, parts),
        forest_listed(forest, parts),
    ensures
        forall|t: int|
            0 <= t < forest.forest().len() ==> workable(#[trigger] forest.forest()[t], parts[t]),
{
    assert forall|t: int| 0 <= t < forest.forest().len() implies workable(
        #[trigger] forest.forest()[t],
        parts[t],
    ) by {
        let u = t as usize;
        assert(holds_part(parts[u as int], data, forest.members(), u));
        assert(forest.fits_in(forest.forest()[t], t));
        law_listed_is_workable(forest.forest()[t], parts[t]);
    }
}

/// Whether, at every one of some questions, a tree found every split that it sought.
pub open spec fn helped_each(
    steps: Seq<DynFrsTree>,
    plan: Plan,
    known: Map<u64, &VecSample>,
    queries: Seq<VecSample>,
) -> bool {
    forall|i: int|
        0 <= i < queries.len() ==> asked_with_help(
            steps[i],
            steps[i + 1],
            plan,
            known,
            (#[trigger] queries[i]).values@,
        )
}

/// Some questions later the work that is still put off can be done exactly.
proof fn lemma_workable_later(
    steps: Seq<DynFrsTree>,
    plan: Plan,
    known: Map<u64, &VecSample>,
    queries: Seq<VecSample>,
    answers: Seq<bool>,
    m: Rows,
    n: int,
)
    requires
        asked_each(steps, plan, known, queries, answers),
        helped_each(steps, plan, known, queries),
        workable(steps[0], m),
        distinct(m),
        m.len() <= u32::MAX,
        knows(known, m),
        0 <= n <= queries.len(),
    ensures
        workable(steps[n], m),
        n > 0 ==> is_majority(steps[n].structure(), m, queries[n - 1].values@, answers[n - 1]),
    decreases n,
{
    if n > 0 {
        let i = n - 1;
        lemma_workable_later(steps, plan, known, queries, answers, m, i);
        let values = queries[i].values@;
        assert(answered(steps[i], steps[i + 1], plan, known, values, answers[i]));
        assert(asked_with_help(steps[i], steps[i + 1], plan, known, values));
        law_helped_answer_is_exact(steps[i], steps[n], plan, known, m, values, answers[i]);
    }
}

/// A tree of a forest that puts work off answers every question with the majority of its
/// samples that end where the row ends, in the tree as it is after the question, as long as
/// it finds every split that it seeks.
pub proof fn law_lazy_answers_are_exact(
    before: DynFrsForest,
    data: Map<u64, SampleData>,
    parts: Seq<Rows>,
    known: Map<u64, &VecSample>,
    queries: Seq<VecSample>,
    answers: Seq<bool>,
    t: int,
    steps: Seq<DynFrsTree>,
)
    requires
        forest_represents(before, data, parts),
        0 <= t < before.forest().len() <= usize::MAX,
        parts[t].len() <= u32::MAX,
        workable(before.forest()[t], parts[t]),
        forall|id: u64| #[trigger]
            data.contains_key(id) ==> known.contains_key(id) && known[id].data() == data[id],
        asked_each(steps, before.plan(), known, queries, answers),
        steps[0] == before.forest()[t],
        helped_each(steps, before.plan(), known, queries),
    ensures
        workable(steps.last(), parts[t]),
        forall|i: int|
            0 <= i < queries.len() ==> is_majority(
                steps[i + 1].structure(),
                parts[t],
                (#[trigger] queries[i]).values@,
                answers[i],
            ),
{
    let m = parts[t];
    let u = t as usize;
    assert(holds_part(parts[u as int], data, before.members(), u));
    lemma_part_distinct(m, data, before.members(), u);
    assert(knows(known, m)) by {
        assert forall|d: SampleData| #[trigger] m.count(d) > 0 implies known.contains_key(d.id)
            && known[d.id].data() == d by {
            assert(data.contains_key(d.id) && data[d.id] == d);
        }
    }
    assert forall|i: int| 0 <= i < queries.len() implies is_majority(
        steps[i + 1].structure(),
        m,
        (#[trigger] queries[i]).values@,
        answers[i],
    ) by {
        lemma_workable_later(steps, before.plan(), known, queries, answers, m, i + 1);
    }
    lemma_workable_later(
        steps,
        before.plan(),
        known,
        queries,
        answers,
        m,
        queries.len() as int,
    );
}

} // verus!
