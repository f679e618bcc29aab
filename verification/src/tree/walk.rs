//! What asking a tree leaves exact, when the work that was put off is done on the way.

use super::collect::{lemma_linked_up, lemma_lists_named, lists, named_below};
use super::grow::{lemma_pick, pick, same_outside, Plan};
use super::laws::{law_tree_forgets_exactly, represents};
use super::lazy::{
    answered, capped, divided, found, hangs, leafed, lemma_resolved_outside, onward,
    rebuilt_from, resolved, walked, MAX_SAMPLES,
};
use super::retrain::{knows, lemma_named_part, lemma_reaches_outside};
use super::settle::{
    all_listed, exact_at, law_exact_is_sound, law_forgetting_keeps_lists, lemma_child_arrivals,
    lemma_divided_sound, lemma_listed_refs, lemma_outside_sound, lists_arrivals, sound, stale,
};
use super::shape::{
    arrivals, distinct, end_of, is_inner, lemma_linked_at, lemma_room, reaches, Nodes,
};
use super::stream::{removed_from, Change};
use super::DynFrsTree;
use crate::node::node_id::{
    law_parent_of_child, lemma_within_children, lemma_within_order, lemma_within_trans, level,
    within, ROOT,
};
use crate::node::LazyTag;
use crate::sample::{ids, plus, rows, Rows, Sample, SampleData};
use crate::split::Split;
use crate::streaming::StateView;
use vstd::multiset::Multiset;
use vstd::prelude::*;

verus! {

/// Whether the work at a node can be done exactly: its state lists, once each, the samples
/// that come to it, and where none come no leaf below it names any.
pub open spec fn ready(tree: DynFrsTree, m: Rows, id: u64) -> bool {
    &&& lists_arrivals(tree, m, id)
    &&& tree.states()[id].sample_ids.len() == 0 ==> named_below(tree.structure(), id)
        == Set::<u64>::empty()
}

/// Whether the work that has been put off can be done exactly: what does not lie below a
/// marked node is exact, every inner node has a state, and the marked nodes that do not lie
/// below others are ready.
pub open spec fn workable(tree: DynFrsTree, m: Rows) -> bool {
    &&& sound(tree.structure(), m)
    &&& forall|id: u64| #[trigger]
        is_inner(tree.structure(), id) ==> tree.states().contains_key(id)
    &&& forall|id: u64| #[trigger]
        tree.structure().contains_key(id) && tree.structure()[id].pending() && !stale(
            tree.structure(),
            id,
        ) ==> ready(tree, m, id)
}

/// Whether no split helped at a marked node, so that it was taken for up to date with what
/// lies below it.
pub open spec fn unhelped<S: Sample>(
    before: DynFrsTree,
    after: DynFrsTree,
    plan: Plan,
    known: Map<u64, &S>,
    id: u64,
) -> bool {
    let part = rows(found(known, capped(before.states()[id].sample_ids)));
    &&& before.structure().contains_key(id) && before.structure()[id].pending()
    &&& exists|splits: Seq<Split>| #[trigger] plan.drawn(part, splits) && pick(part, splits) is None
    &&& after.structure() == before.structure().insert(
        id,
        before.structure()[id].with_tag(LazyTag::Clean),
    )
}

/// A tree that represents some samples, and in which every state lists what comes to its
/// node, is one in which the work that has been put off can be done exactly.
pub proof fn law_listed_is_workable(tree: DynFrsTree, m: Rows)
    requires
        tree.wf(),
        represents(tree.structure(), tree.placement(), m),
        all_listed(tree, m),
    ensures
        workable(tree, m),
{
    let nodes = tree.structure();
    let max_depth = tree.limits().max_depth as int;
    law_exact_is_sound(nodes, m);
    assert forall|id: u64| #[trigger] is_inner(nodes, id) implies tree.states().contains_key(id) by {
        assert(nodes.contains_key(id));
        assert(lists_arrivals(tree, m, id));
    }
    assert forall|id: u64| #[trigger] nodes.contains_key(id) implies ready(tree, m, id) by {
        lemma_linked_at(nodes, max_depth, id);
        lemma_named_part(nodes, m, max_depth, id);
        assert(lists_arrivals(tree, m, id));
        let list = tree.states()[id].sample_ids;
        if list.len() == 0 {
            assert(list.to_set() =~= Set::<u64>::empty());
        }
    }
}

/// Forgetting a sample in a tree whose states list what comes to their nodes leaves a tree
/// in which the work that this puts off can be done exactly.
pub proof fn law_forgetting_leaves_workable(
    before: DynFrsTree,
    after: DynFrsTree,
    m: Rows,
    d: SampleData,
    features: Seq<i64>,
    lazy: bool,
    r: (Option<u64>, bool),
)
    requires
        before.wf(),
        after.wf(),
        before.streams(),
        represents(before.structure(), before.placement(), m),
        m.count(d) > 0,
        all_listed(before, m),
        removed_from(before, after, d.id, features, d.label, lazy, r),
    ensures
        workable(after, m.remove(d)),
{
    let c = Change {
        id: d.id,
        route: features,
        values: features,
        label: d.label,
        lazy,
        inline: false,
    };
    law_forgetting_keeps_lists(before, after, m, d, features, lazy, r);
    assert(ids(m).contains(d.id));
    assert(before.placement().dom().contains(d.id));
    law_tree_forgets_exactly(
        before.structure(),
        before.states(),
        before.streams(),
        before.placement(),
        m,
        d,
        c,
    );
    law_listed_is_workable(after, m.remove(d));
}

/// Of two nodes above the same node one lies above the other.
proof fn lemma_one_above(y: u64, a: u64, b: u64)
    requires
        within(y, a),
        within(y, b),
    ensures
        within(a, b) || within(b, a),
    decreases y,
{
    if y != a && y != b {
        lemma_one_above(y / 2, a, b);
    }
}

/// What lies outside a part of a tree, and not below a marked node, did not do so before
/// the part changed.
proof fn lemma_stale_outside(a: Nodes, b: Nodes, top: u64, id: u64)
    requires
        same_outside(a, b, top),
        !within(id, top),
        !stale(b, id),
    ensures
        !stale(a, id),
{
    if stale(a, id) {
        let x = choose|x: u64| #[trigger]
            within(id, x) && x != id && a.contains_key(x) && a[x].pending();
        if within(x, top) {
            lemma_within_trans(id, x, top);
        }
        assert(b.contains_key(x) && b[x] == a[x]);
        assert(stale(b, id));
    }
}

/// What comes to a node outside a part of a tree, or to its top, does not rest on the part.
proof fn lemma_arrivals_outside(a: Nodes, b: Nodes, m: Rows, top: u64, id: u64)
    requires
        same_outside(a, b, top),
        !within(id, top) || id == top,
    ensures
        arrivals(a, m, ROOT, id) == arrivals(b, m, ROOT, id),
{
    assert(arrivals(b, m, ROOT, id) =~= arrivals(a, m, ROOT, id)) by {
        assert forall|d: SampleData|
            reaches(b, d.values, ROOT, id) == reaches(a, d.values, ROOT, id) by {
            lemma_reaches_outside(a, b, d.values, top, id);
        }
    }
}

/// The counts of a node outside a part of a tree, or at its top, rest on the node alone.
proof fn lemma_exact_outside(a: Nodes, b: Nodes, m: Rows, top: u64, id: u64)
    requires
        same_outside(a, b, top),
        !within(id, top) || id == top,
        exact_at(a, m, id),
        a[id] is Internal == b[id] is Internal,
        a[id].samples() == b[id].samples(),
        a[id].plus() == b[id].plus(),
        b[id] is Leaf ==> b[id] == a[id],
    ensures
        exact_at(b, m, id),
{
    lemma_arrivals_outside(a, b, m, top, id);
}

/// A marked node outside a part of a tree is as ready as it was before the part changed.
proof fn lemma_ready_outside(before: DynFrsTree, after: DynFrsTree, m: Rows, top: u64, id: u64)
    requires
        workable(before, m),
        same_outside(before.structure(), after.structure(), top),
        !stale(before.structure(), top),
        states_outside(before.states(), after.states(), top),
        after.structure().contains_key(id),
        after.structure()[id].pending(),
        !stale(after.structure(), id),
        !within(id, top),
    ensures
        ready(after, m, id),
{
    let a = before.structure();
    let b = after.structure();
    lemma_stale_outside(a, b, top, id);
    assert(a.contains_key(id) && a[id] == b[id]);
    assert(ready(before, m, id));
    assert(after.states().contains_key(id) && after.states()[id] == before.states()[id]);
    lemma_arrivals_outside(a, b, m, top, id);
    if after.states()[id].sample_ids.len() == 0 {
        assert forall|sid: u64| !named_below(b, id).contains(sid) by {
            if named_below(b, id).contains(sid) {
                let y = choose|y: u64| #[trigger]
                    b.contains_key(y) && within(y, id) && b[y] is Leaf
                        && b[y]->sample_ids.contains(sid);
                if within(y, top) {
                    lemma_one_above(y, id, top);
                    assert(within(top, id) && top != id);
                    assert(stale(a, top));
                } else {
                    assert(a.contains_key(y) && a[y] == b[y]);
                    assert(named_below(a, id).contains(sid));
                }
            }
        }
        assert(named_below(b, id) =~= Set::<u64>::empty());
    }
}

/// Whether the states outside a part of a tree are as they were.
spec fn states_outside(a: Map<u64, StateView>, b: Map<u64, StateView>, top: u64) -> bool {
    forall|x: u64|
        !#[trigger] within(x, top) && a.contains_key(x) ==> b.contains_key(x) && b[x] == a[x]
}

/// A state that hangs below that of a node belongs to a node below it.
proof fn lemma_hangs_within(states: Map<u64, StateView>, x: u64, top: u64)
    requires
        hangs(states, x, top),
    ensures
        within(x, top),
    decreases x,
{
    if x != top {
        lemma_hangs_within(states, x / 2, top);
    }
}

/// Where no more than the top is left of a part of a tree, and that is a leaf that names
/// the samples that come to it, the work that is left can be done exactly.
proof fn lemma_closed_step(before: DynFrsTree, after: DynFrsTree, m: Rows, id: u64)
    requires
        workable(before, m),
        same_outside(before.structure(), after.structure(), id),
        !stale(before.structure(), id),
        states_outside(before.states(), after.states(), id),
        forall|x: u64|
            #[trigger] after.structure().contains_key(x) && within(x, id) ==> x == id
                && after.structure()[x] is Leaf && exact_at(after.structure(), m, x),
    ensures
        workable(after, m),
{
    let b = after.structure();
    assert forall|x: u64| #[trigger] b.contains_key(x) && !stale(b, x) implies exact_at(b, m, x) by {
        if !within(x, id) {
            lemma_outside_sound(before.structure(), b, m, id, x);
        }
    }
    assert forall|x: u64| #[trigger] is_inner(b, x) implies after.states().contains_key(x) by {
        assert(b.contains_key(x));
        assert(!within(x, id));
        assert(is_inner(before.structure(), x));
    }
    assert forall|x: u64| #[trigger]
        b.contains_key(x) && b[x].pending() && !stale(b, x) implies ready(after, m, x) by {
        assert(!within(x, id));
        lemma_ready_outside(before, after, m, id, x);
    }
}

/// Where a node has got another split, the work that is left can be done exactly.
proof fn lemma_divided_step<S: Sample>(
    before: DynFrsTree,
    after: DynFrsTree,
    known: Map<u64, &S>,
    m: Rows,
    id: u64,
    refs: Seq<&S>,
    splits: Seq<Split>,
    split: Split,
)
    requires
        before.wf(),
        after.wf(),
        after.same_setting(&before),
        workable(before, m),
        m.len() <= MAX_SAMPLES,
        is_inner(before.structure(), id),
        !stale(before.structure(), id),
        rows(refs) == arrivals(before.structure(), m, ROOT, id),
        refs.len() <= MAX_SAMPLES,
        forall|i: int, j: int|
            0 <= i < j < refs.len() ==> (#[trigger] refs[i]).data().id != (
            #[trigger] refs[j]).data().id,
        divided(before, after, known, id, refs, split),
        pick(rows(refs), splits) == Some(split),
        same_outside(before.structure(), after.structure(), id),
    ensures
        workable(after, m),
        after.structure().contains_key(id),
        !after.structure()[id].pending(),
        exact_at(after.structure(), m, id),
{
    let a = before.structure();
    let b = after.structure();
    let max_depth = before.limits().max_depth as int;
    let part = rows(refs);
    lemma_room(a, max_depth);
    lemma_divided_sound(before, after, known, m, id, refs, split);
    lemma_pick(part, splits, splits.len() as int);
    let l = (2 * id) as u64;
    let r = (2 * id + 1) as u64;
    law_parent_of_child(id);
    assert(within(l, id) && within(r, id)) by {
        assert(within(l / 2, id) && within(r / 2, id));
    }
    assert(is_inner(b, id) && b[id]->split == split && !b[id].pending());
    assert(b.dom() =~= a.dom());
    assert(after.states().dom() == before.states().dom());
    assert(states_outside(before.states(), after.states(), id)) by {
        assert forall|x: u64|
            !#[trigger] within(x, id) && before.states().contains_key(x) implies
                after.states().contains_key(x) && after.states()[x] == before.states()[x] by {
            assert(after.states().dom().contains(x) == before.states().dom().contains(x));
        }
    }
    assert(!stale(b, id)) by {
        if stale(b, id) {
            let x = choose|x: u64| #[trigger]
                within(id, x) && x != id && b.contains_key(x) && b[x].pending();
            lemma_within_order(id, x);
            assert(!within(x, id));
            assert(a.contains_key(x) && a[x] == b[x]);
            assert(stale(a, id));
        }
    }
    assert(exact_at(b, m, id));
    lemma_arrivals_outside(a, b, m, id, id);
    assert forall|x: u64| #[trigger] is_inner(b, x) implies after.states().contains_key(x) by {
        assert(b.dom().contains(x) == a.dom().contains(x));
        assert(is_inner(a, x));
        assert(after.states().dom().contains(x) == before.states().dom().contains(x));
    }
    assert forall|x: u64| #[trigger]
        b.contains_key(x) && b[x].pending() && !stale(b, x) implies ready(after, m, x) by {
        if !within(x, id) {
            lemma_ready_outside(before, after, m, id, x);
        } else if x == l || x == r {
            assert(is_inner(b, x));
            assert(after.states().contains_key(x));
            assert(lists_arrivals(after, m, x));
            lemma_child_arrivals(b, m, id, x);
            let there = arrivals(b, m, ROOT, x);
            assert(there.len() > 0);
            let d = there.choose();
            assert(there.count(d) > 0 && ids(there).contains(d.id));
            assert(after.states()[x].sample_ids.to_set().contains(d.id));
        } else if x != id {
            lemma_within_children(x, id);
            let c = if within(x, l) {
                l
            } else {
                r
            };
            lemma_linked_up(b, max_depth, x, c);
            assert(is_inner(b, c));
            assert(b[c].pending());
            assert(within(x, c) && c != x && b.contains_key(c));
            assert(stale(b, x));
        }
    }
}

/// Doing the work at a node that does not lie below a marked one leaves the node exact, and
/// leaves a tree in which the work that is left can be done exactly, unless no split helped.
pub proof fn law_work_goes_on<S: Sample>(
    before: DynFrsTree,
    after: DynFrsTree,
    plan: Plan,
    known: Map<u64, &S>,
    m: Rows,
    id: u64,
)
    requires
        before.wf(),
        after.wf(),
        after.same_setting(&before),
        workable(before, m),
        distinct(m),
        m.len() <= MAX_SAMPLES,
        knows(known, m),
        id >= 1,
        !stale(before.structure(), id),
        resolved(before, after, plan, known, id),
    ensures
        same_outside(before.structure(), after.structure(), id),
        after.structure().contains_key(id) ==> !after.structure()[id].pending() && exact_at(
            after.structure(),
            m,
            id,
        ),
        workable(after, m) || unhelped(before, after, plan, known, id),
{
    let a = before.structure();
    let b = after.structure();
    let max_depth = before.limits().max_depth as int;
    lemma_room(a, max_depth);
    lemma_resolved_outside(before, after, plan, known, id);
    if a.contains_key(id) && a[id].pending() {
        assert(ready(before, m, id));
        assert(is_inner(a, id));
        let list = before.states()[id].sample_ids;
        let refs = found(known, capped(list));
        let part = rows(refs);
        lemma_listed_refs(before, known, m, id);
        lemma_arrivals_outside(a, b, m, id, id);
        if list.len() == 0 {
            let named = choose|named: Seq<u64>| #[trigger]
                lists(a, id, named) && rebuilt_from(before, after, plan, known, id, named);
            lemma_lists_named(a, max_depth, id, named);
            assert(named.len() == 0) by {
                if named.len() > 0 {
                    assert(named.to_set().contains(named[0]));
                }
            }
            lemma_closed_step(before, after, m, id);
        } else if plan.must_stop(part, level(id) as int) {
            assert(leafed(before, after, id, list, part));
            assert(states_outside(before.states(), after.states(), id)) by {
                assert forall|x: u64|
                    !#[trigger] within(x, id) && before.states().contains_key(x) implies
                        after.states().contains_key(x) && after.states()[x]
                    == before.states()[x] by {
                    if hangs(before.states(), x, id) {
                        lemma_hangs_within(before.states(), x, id);
                    }
                }
            }
            crate::sample::lemma_sides(part, a[id]->split);
            assert(exact_at(b, m, id));
            lemma_closed_step(before, after, m, id);
        } else {
            let splits = choose|splits: Seq<Split>| #[trigger]
                plan.drawn(part, splits) && match pick(part, splits) {
                    Some(split) => divided(before, after, known, id, refs, split),
                    None => {
                        &&& after.structure() == a.insert(id, a[id].with_tag(LazyTag::Clean))
                        &&& after.placement() == before.placement()
                        &&& after.states() == before.states()
                    },
                };
            match pick(part, splits) {
                Some(split) => {
                    lemma_divided_step(before, after, known, m, id, refs, splits, split);
                },
                None => {
                    assert(exact_at(a, m, id));
                    lemma_exact_outside(a, b, m, id, id);
                    assert(unhelped(before, after, plan, known, id));
                },
            }
        }
    } else {
        if a.contains_key(id) {
            assert(exact_at(a, m, id));
        }
        assert(workable(after, m));
    }
}

/// Whether every step before some step of a walk found a split that helped, or needed none.
pub open spec fn helped<S: Sample>(
    steps: Seq<DynFrsTree>,
    path: Seq<u64>,
    plan: Plan,
    known: Map<u64, &S>,
    n: int,
) -> bool {
    forall|i: int|
        0 <= i < n ==> !unhelped(steps[i], steps[i + 1], plan, known, #[trigger] path[i])
}

/// How far a walk has come.
proof fn lemma_walk<S: Sample>(
    steps: Seq<DynFrsTree>,
    path: Seq<u64>,
    plan: Plan,
    known: Map<u64, &S>,
    m: Rows,
    values: Seq<i64>,
    n: int,
)
    requires
        walked(steps, path, plan, known, values),
        workable(steps[0], m),
        distinct(m),
        m.len() <= MAX_SAMPLES,
        knows(known, m),
        0 <= n <= path.len(),
        helped(steps, path, plan, known, n),
    ensures
        workable(steps[n], m),
        n < path.len() ==> path[n] >= 1 && !stale(steps[n].structure(), path[n]),
    decreases n,
{
    if n == 0 {
        assert(!stale(steps[0].structure(), ROOT)) by {
            if stale(steps[0].structure(), ROOT) {
                let x = choose|x: u64| #[trigger]
                    within(ROOT, x) && x != ROOT && steps[0].structure().contains_key(x)
                        && steps[0].structure()[x].pending();
                lemma_linked_at(
                    steps[0].structure(),
                    steps[0].limits().max_depth as int,
                    x,
                );
                lemma_within_order(ROOT, x);
            }
        }
    } else {
        let k = n - 1;
        let id = path[k];
        assert(helped(steps, path, plan, known, k)) by {
            assert forall|i: int| 0 <= i < k implies !unhelped(
                steps[i],
                steps[i + 1],
                plan,
                known,
                #[trigger] path[i],
            ) by {}
        }
        lemma_walk(steps, path, plan, known, m, values, k);
        assert(steps[k].wf() && steps[n].wf());
        assert(steps[k].same_setting(&steps[0]) && steps[n].same_setting(&steps[0]));
        assert(resolved(steps[k], steps[k + 1], plan, known, path[k]));
        law_work_goes_on(steps[k], steps[n], plan, known, m, id);
        if n < path.len() {
            let a = steps[k].structure();
            let b = steps[n].structure();
            let next = path[n];
            lemma_room(b, steps[n].limits().max_depth as int);
            assert(onward(steps[k + 1].structure(), values, path[k], path[k + 1]));
            assert(next / 2 == id && next > id);
            if stale(b, next) {
                let x = choose|x: u64| #[trigger]
                    within(next, x) && x != next && b.contains_key(x) && b[x].pending();
                assert(within(id, x));
                if x != id {
                    lemma_within_order(id, x);
                    assert(!within(x, id));
                    assert(a.contains_key(x) && a[x] == b[x]);
                    assert(stale(a, id));
                }
            }
        }
    }
}

/// A step of a walk leads to a child.
proof fn lemma_walk_next<S: Sample>(
    steps: Seq<DynFrsTree>,
    path: Seq<u64>,
    plan: Plan,
    known: Map<u64, &S>,
    values: Seq<i64>,
    i: int,
)
    requires
        walked(steps, path, plan, known, values),
        0 <= i < path.len() - 1,
    ensures
        path[i + 1] == 2 * path[i] || path[i + 1] == 2 * path[i] + 1,
{
    assert(onward(steps[i + 1].structure(), values, path[i], path[i + 1]));
}

/// A path that goes from nodes to their children goes down.
proof fn lemma_path_down(path: Seq<u64>, j: int, n: int)
    requires
        path.len() > 0,
        path[0] == ROOT,
        forall|i: int|
            0 <= i < path.len() - 1 ==> goes_down(#[trigger] path[i], path[i + 1]),
        0 <= j <= n < path.len(),
    ensures
        path[n] >= 1,
        j < n ==> path[n] > path[j],
    decreases n,
{
    if n > 0 {
        let i = n - 1;
        lemma_path_down(path, if j < n {
            j
        } else {
            i
        }, i);
        assert(goes_down(path[i], path[i + 1]));
    }
}

/// Whether a node is a child of another one.
spec fn goes_down(id: u64, child: u64) -> bool {
    child == 2 * id || child == 2 * id + 1
}

/// A walk goes down.
proof fn lemma_walk_down<S: Sample>(
    steps: Seq<DynFrsTree>,
    path: Seq<u64>,
    plan: Plan,
    known: Map<u64, &S>,
    values: Seq<i64>,
    j: int,
    n: int,
)
    requires
        walked(steps, path, plan, known, values),
        0 <= j <= n < path.len(),
    ensures
        path[n] >= 1,
        j < n ==> path[n] > path[j],
{
    assert forall|i: int| 0 <= i < path.len() - 1 implies goes_down(
        #[trigger] path[i],
        path[i + 1],
    ) by {
        lemma_walk_next(steps, path, plan, known, values, i);
    }
    lemma_path_down(path, j, n);
}

/// What a walk has left behind it stays as it is.
proof fn lemma_left_behind<S: Sample>(
    steps: Seq<DynFrsTree>,
    path: Seq<u64>,
    plan: Plan,
    known: Map<u64, &S>,
    m: Rows,
    values: Seq<i64>,
    j: int,
    n: int,
)
    requires
        walked(steps, path, plan, known, values),
        0 <= j < n <= path.len(),
    ensures
        steps[n].structure().contains_key(path[j]) == steps[j + 1].structure().contains_key(
            path[j],
        ),
        steps[n].structure().contains_key(path[j]) ==> steps[n].structure()[path[j]]
            == steps[j + 1].structure()[path[j]],
        steps[n].structure().contains_key(path[j]) && exact_at(
            steps[j + 1].structure(),
            m,
            path[j],
        ) ==> exact_at(steps[n].structure(), m, path[j]),
    decreases n,
{
    if n > j + 1 {
        let k = n - 1;
        lemma_left_behind(steps, path, plan, known, m, values, j, k);
        lemma_walk_down(steps, path, plan, known, values, j, k);
        assert(steps[k].wf());
        lemma_room(steps[k].structure(), steps[k].limits().max_depth as int);
        assert(resolved(steps[k], steps[k + 1], plan, known, path[k]));
        lemma_resolved_outside(steps[k], steps[n], plan, known, path[k]);
        assert(!within(path[j], path[k]));
        if steps[n].structure().contains_key(path[j]) && exact_at(
            steps[j + 1].structure(),
            m,
            path[j],
        ) {
            lemma_exact_outside(
                steps[k].structure(),
                steps[n].structure(),
                m,
                path[k],
                path[j],
            );
        }
    }
}

/// Where a row ends is where a walk ends.
proof fn lemma_walk_leads<S: Sample>(
    steps: Seq<DynFrsTree>,
    path: Seq<u64>,
    plan: Plan,
    known: Map<u64, &S>,
    values: Seq<i64>,
    n: int,
)
    requires
        walked(steps, path, plan, known, values),
        0 <= n < path.len(),
        !is_inner(steps.last().structure(), path.last()),
    ensures
        end_of(steps.last().structure(), values, path[n]) == path.last(),
    decreases path.len() - n,
{
    if n < path.len() - 1 {
        lemma_walk_leads(steps, path, plan, known, values, n + 1);
        lemma_left_behind(
            steps,
            path,
            plan,
            known,
            Multiset::empty(),
            values,
            n,
            path.len() as int,
        );
        let nodes = steps.last().structure();
        assert(onward(steps[n + 1].structure(), values, path[n], path[n + 1]));
        assert(steps[path.len() as int].wf());
        lemma_room(nodes, steps.last().limits().max_depth as int);
        assert(is_inner(nodes, path[n]));
    }
}

/// Where a walk leads on which every split that was sought was found.
proof fn lemma_walk_helped<S: Sample>(
    steps: Seq<DynFrsTree>,
    path: Seq<u64>,
    plan: Plan,
    known: Map<u64, &S>,
    m: Rows,
    values: Seq<i64>,
)
    requires
        walked(steps, path, plan, known, values),
        workable(steps[0], m),
        distinct(m),
        m.len() <= MAX_SAMPLES,
        knows(known, m),
        !is_inner(steps.last().structure(), path.last()),
        helped(steps, path, plan, known, path.len() as int),
    ensures
        workable(steps.last(), m),
        path.last() == end_of(steps.last().structure(), values, ROOT),
        steps.last().structure().contains_key(path.last()) ==> exact_at(
            steps.last().structure(),
            m,
            path.last(),
        ),
{
    let n = path.len() as int;
    let k = n - 1;
    lemma_walk(steps, path, plan, known, m, values, n);
    assert(helped(steps, path, plan, known, k)) by {
        assert forall|i: int| 0 <= i < k implies !unhelped(
            steps[i],
            steps[i + 1],
            plan,
            known,
            #[trigger] path[i],
        ) by {}
    }
    lemma_walk(steps, path, plan, known, m, values, k);
    assert(steps[k].wf() && steps[k + 1].wf());
    assert(steps[k].same_setting(&steps[0]) && steps[k + 1].same_setting(&steps[0]));
    assert(resolved(steps[k], steps[k + 1], plan, known, path[k]));
    law_work_goes_on(steps[k], steps[k + 1], plan, known, m, path[k]);
    lemma_walk_leads(steps, path, plan, known, values, 0);
}

/// Whether a tree has come from another by a walk on which every split that was sought was
/// found.
pub open spec fn asked_with_help<S: Sample>(
    before: DynFrsTree,
    after: DynFrsTree,
    plan: Plan,
    known: Map<u64, &S>,
    values: Seq<i64>,
) -> bool {
    exists|steps: Seq<DynFrsTree>, path: Seq<u64>|
        {
            &&& #[trigger] walked(steps, path, plan, known, values)
            &&& !is_inner(steps.last().structure(), path.last())
            &&& steps[0] == before
            &&& steps.last() == after
            &&& helped(steps, path, plan, known, path.len() as int)
        }
}

/// Whether an answer is the majority of the samples that end where a row ends; where the row
/// ends at no node nothing is said.
pub open spec fn is_majority(nodes: Nodes, m: Rows, values: Seq<i64>, r: bool) -> bool {
    let end = end_of(nodes, values, ROOT);
    let part = arrivals(nodes, m, ROOT, end);
    nodes.contains_key(end) ==> r == (2 * plus(part).len() > part.len())
}

/// Where a split is found at every node on the way that is worked on, a tree in which the
/// work that was put off can be done exactly answers with the majority of the samples that
/// end where the row ends, and what is still put off can be done exactly.
pub proof fn law_helped_answer_is_exact<S: Sample>(
    before: DynFrsTree,
    after: DynFrsTree,
    plan: Plan,
    known: Map<u64, &S>,
    m: Rows,
    values: Seq<i64>,
    r: bool,
)
    requires
        workable(before, m),
        distinct(m),
        m.len() <= MAX_SAMPLES,
        knows(known, m),
        answered(before, after, plan, known, values, r),
        asked_with_help(before, after, plan, known, values),
    ensures
        workable(after, m),
        is_majority(after.structure(), m, values, r),
{
    let (steps, path) = choose|steps: Seq<DynFrsTree>, path: Seq<u64>|
        {
            &&& #[trigger] walked(steps, path, plan, known, values)
            &&& !is_inner(steps.last().structure(), path.last())
            &&& steps[0] == before
            &&& steps.last() == after
            &&& helped(steps, path, plan, known, path.len() as int)
        };
    lemma_walk_helped(steps, path, plan, known, m, values);
}

/// Asking a tree in which the work that was put off can be done exactly leaves every node
/// on the way of the row exact, unless no split helped at a node above it. Where a split
/// helped at every node that was worked on, what is still put off can be done exactly, and
/// the answer is the majority of the samples that end where the row ends.
pub proof fn law_walk_is_exact<S: Sample>(
    before: DynFrsTree,
    after: DynFrsTree,
    plan: Plan,
    known: Map<u64, &S>,
    m: Rows,
    values: Seq<i64>,
    r: bool,
)
    requires
        workable(before, m),
        distinct(m),
        m.len() <= MAX_SAMPLES,
        knows(known, m),
        answered(before, after, plan, known, values, r),
    ensures
        exists|steps: Seq<DynFrsTree>, path: Seq<u64>|
            #![trigger walked(steps, path, plan, known, values)]
            {
                let end = end_of(after.structure(), values, ROOT);
                let n = path.len() as int;
                &&& walked(steps, path, plan, known, values)
                &&& steps[0] == before && steps.last() == after && path.last() == end
                &&& forall|j: int|
                    0 <= j < n && after.structure().contains_key(#[trigger] path[j]) && helped(
                        steps,
                        path,
                        plan,
                        known,
                        j,
                    ) ==> exact_at(after.structure(), m, path[j])
                        && !after.structure()[path[j]].pending()
                &&& helped(steps, path, plan, known, n) ==> workable(after, m) && is_majority(
                    after.structure(),
                    m,
                    values,
                    r,
                )
            },
{
    let (steps, path) = choose|steps: Seq<DynFrsTree>, path: Seq<u64>|
        {
            &&& #[trigger] walked(steps, path, plan, known, values)
            &&& !is_inner(steps.last().structure(), path.last())
            &&& steps[0] == before
            &&& steps.last() == after
        };
    let n = path.len() as int;
    assert forall|j: int|
        0 <= j < n && after.structure().contains_key(#[trigger] path[j]) && helped(
            steps,
            path,
            plan,
            known,
            j,
        ) implies exact_at(after.structure(), m, path[j])
        && !after.structure()[path[j]].pending() by {
        lemma_walk(steps, path, plan, known, m, values, j);
        assert(steps[j].wf() && steps[j + 1].wf());
        assert(steps[j].same_setting(&steps[0]) && steps[j + 1].same_setting(&steps[0]));
        assert(resolved(steps[j], steps[j + 1], plan, known, path[j]));
        law_work_goes_on(steps[j], steps[j + 1], plan, known, m, path[j]);
        lemma_left_behind(steps, path, plan, known, m, values, j, n);
    }
    lemma_walk_leads(steps, path, plan, known, values, 0);
    if helped(steps, path, plan, known, n) {
        lemma_walk_helped(steps, path, plan, known, m, values);
    }
}

} // verus!
