//! What is grown anew after forgetting is what growing from the remaining samples gives.

use super::collect::{lemma_lists_named, lists, named_below};
use super::develop::{developed, due, lemma_developed_outside};
use super::grow::{
    fitted, law_grown_is_exact, law_grown_is_mapped, lemma_grown_suits, lemma_leaf_end, placed,
    same_outside, Plan,
};
use super::laws::{lemma_full_leads, represents};
use super::lazy::{capped, found, rebuilt, rebuilt_from, MAX_SAMPLES};
use super::shape::{
    arrivals, distinct, end_of, exact, full, is_inner, led, lemma_end_path, lemma_linked_at,
    lemma_room, linked, reaches, shallow, Nodes,
};
use super::DynFrsTree;
use crate::node::node_id::{
    law_parent_of_child, lemma_within_children, lemma_within_order, lemma_within_root, within,
    MAX_PARENT, ROOT,
};
use crate::sample::{
    ids, lemma_rows, lemma_rows_empty, lemma_rows_push, plus, rows, Rows, Sample, SampleData,
};
use vstd::prelude::*;

verus! {

/// Whether each of some samples is known by its identifier.
pub open spec fn knows<S: Sample>(known: Map<u64, &S>, m: Rows) -> bool {
    forall|d: SampleData| #[trigger]
        m.count(d) > 0 ==> known.contains_key(d.id) && known[d.id].data() == d
}

/// In a tree that represents some samples, a leaf names a sample if the sample ends there.
proof fn lemma_named_where_it_ends(nodes: Nodes, m: Rows, max_depth: int, id: u64, sid: u64)
    requires
        exact(nodes, m),
        linked(nodes, max_depth),
        max_depth <= 63,
        nodes.contains_key(id),
        nodes[id] is Leaf,
        nodes[id]->sample_ids.contains(sid),
    ensures
        exists|d: SampleData| #[trigger]
            m.count(d) > 0 && d.id == sid && end_of(nodes, d.values, ROOT) == id,
{
    lemma_linked_at(nodes, max_depth, id);
    lemma_room(nodes, max_depth);
    let part = arrivals(nodes, m, ROOT, id);
    assert(ids(part).contains(sid));
    let d = choose|d: SampleData| part.count(d) > 0 && #[trigger] d.id == sid;
    assert(m.count(d) > 0 && reaches(nodes, d.values, ROOT, id));
    lemma_end_path(nodes, d.values, ROOT, id);
    lemma_leaf_end(nodes, end_of(nodes, d.values, ROOT), id, max_depth, d.values);
}

/// A list of the samples of the leaves below a node names no sample twice.
pub proof fn lemma_lists_once(nodes: Nodes, m: Rows, max_depth: int, top: u64, list: Seq<u64>)
    requires
        exact(nodes, m),
        distinct(m),
        linked(nodes, max_depth),
        max_depth <= 63,
        top >= 1,
        lists(nodes, top, list),
    ensures
        list.no_duplicates(),
    decreases u64::MAX - top,
{
    if nodes.contains_key(top) && nodes[top] is Internal {
        let l = (2 * top) as u64;
        let r = (2 * top + 1) as u64;
        let k = choose|k: int|
            0 <= k <= list.len() && lists(nodes, l, #[trigger] list.take(k)) && lists(
                nodes,
                r,
                list.skip(k),
            );
        let a = list.take(k);
        let b = list.skip(k);
        lemma_lists_once(nodes, m, max_depth, l, a);
        lemma_lists_once(nodes, m, max_depth, r, b);
        lemma_lists_named(nodes, max_depth, l, a);
        lemma_lists_named(nodes, max_depth, r, b);
        assert forall|i: int, j: int| 0 <= i < k <= j < list.len() implies list[i] != list[j] by {
            if list[i] == list[j] {
                let sid = list[i];
                assert(a[i] == sid && b[j - k] == sid);
                assert(a.to_set().contains(sid) && b.to_set().contains(sid));
                let x = choose|x: u64| #[trigger]
                    nodes.contains_key(x) && within(x, l) && nodes[x] is Leaf
                        && nodes[x]->sample_ids.contains(sid);
                let y = choose|y: u64| #[trigger]
                    nodes.contains_key(y) && within(y, r) && nodes[y] is Leaf
                        && nodes[y]->sample_ids.contains(sid);
                lemma_named_where_it_ends(nodes, m, max_depth, x, sid);
                lemma_named_where_it_ends(nodes, m, max_depth, y, sid);
                let d = choose|d: SampleData| #[trigger]
                    m.count(d) > 0 && d.id == sid && end_of(nodes, d.values, ROOT) == x;
                let e = choose|e: SampleData| #[trigger]
                    m.count(e) > 0 && e.id == sid && end_of(nodes, e.values, ROOT) == y;
                assert(d == e);
                lemma_within_children(x, top);
            }
        }
        assert forall|i: int, j: int|
            0 <= i < list.len() && 0 <= j < list.len() && i != j implies list[i] != list[j] by {
            if i < k && j < k {
                assert(a[i] == list[i] && a[j] == list[j]);
            } else if i >= k && j >= k {
                assert(b[i - k] == list[i] && b[j - k] == list[j]);
            } else if i < k {
                assert(list[i] != list[j]);
            } else {
                assert(list[j] != list[i]);
            }
        }
    }
}

/// The leaves of a tree that represents some samples name those samples.
proof fn lemma_named_all(nodes: Nodes, leaves: Map<u64, u64>, m: Rows, max_depth: int)
    requires
        represents(nodes, leaves, m),
        m.len() > 0,
        linked(nodes, max_depth),
        max_depth <= 63,
    ensures
        named_below(nodes, ROOT) == ids(m),
{
    assert forall|sid: u64| named_below(nodes, ROOT).contains(sid) == ids(m).contains(sid) by {
        if named_below(nodes, ROOT).contains(sid) {
            let x = choose|x: u64| #[trigger]
                nodes.contains_key(x) && within(x, ROOT) && nodes[x] is Leaf
                    && nodes[x]->sample_ids.contains(sid);
            lemma_named_where_it_ends(nodes, m, max_depth, x, sid);
        }
        if ids(m).contains(sid) {
            let d = choose|d: SampleData| m.count(d) > 0 && #[trigger] d.id == sid;
            let end = end_of(nodes, d.values, ROOT);
            assert(m.count(d) > 0);
            lemma_end_path(nodes, d.values, ROOT, end);
            let part = arrivals(nodes, m, ROOT, end);
            assert(part.count(d) > 0);
            assert(ids(part).contains(sid));
            assert(nodes.contains_key(end) && within(end, ROOT));
        }
    }
    assert(named_below(nodes, ROOT) =~= ids(m));
}

/// What is found for a list that names no sample twice.
proof fn lemma_found_rows<S: Sample>(known: Map<u64, &S>, list: Seq<u64>)
    requires
        list.no_duplicates(),
        forall|i: int|
            0 <= i < list.len() ==> known.contains_key(#[trigger] list[i])
                && known[list[i]].data().id == list[i],
    ensures
        found(known, list).len() == list.len(),
        forall|d: SampleData| #[trigger]
            rows(found(known, list)).count(d) == (if list.contains(d.id) && known[d.id].data()
                == d {
                1nat
            } else {
                0nat
            }),
    decreases list.len(),
{
    let all = found(known, list);
    if list.len() == 0 {
        lemma_rows_empty(all);
    } else {
        let front = list.drop_last();
        let id = list.last();
        assert forall|i: int| 0 <= i < front.len() implies known.contains_key(#[trigger] front[i])
            && known[front[i]].data().id == front[i] by {
            assert(front[i] == list[i]);
        }
        lemma_found_rows(known, front);
        let before = found(known, front);
        assert(known.contains_key(list[list.len() - 1]));
        assert(all == before.push(known[id]));
        lemma_rows_push(all, before.len() as int);
        assert(all.take(before.len() as int) =~= before);
        assert(all.take(before.len() as int + 1) =~= all);
        assert(!front.contains(id)) by {
            if front.contains(id) {
                let i = front.index_of(id);
                assert(list[i] == list[list.len() - 1]);
            }
        }
        assert forall|d: SampleData| #[trigger]
            rows(all).count(d) == (if list.contains(d.id) && known[d.id].data() == d {
                1nat
            } else {
                0nat
            }) by {
            assert(rows(before).count(d) == (if front.contains(d.id) && known[d.id].data() == d {
                1nat
            } else {
                0nat
            }));
            assert(list.contains(d.id) == (front.contains(d.id) || d.id == id)) by {
                if front.contains(d.id) {
                    assert(list[front.index_of(d.id)] == d.id);
                }
                if d.id == id {
                    assert(list[list.len() - 1] == id);
                }
                if list.contains(d.id) && d.id != id {
                    assert(front[list.index_of(d.id)] == d.id);
                }
            }
        }
    }
}

/// A list of exactly the samples that there are finds exactly those samples.
pub proof fn lemma_found_all<S: Sample>(known: Map<u64, &S>, list: Seq<u64>, m: Rows)
    requires
        list.no_duplicates(),
        list.to_set() == ids(m),
        distinct(m),
        knows(known, m),
    ensures
        rows(found(known, list)) == m,
        found(known, list).len() == list.len(),
        list.len() == m.len(),
{
    assert forall|i: int| 0 <= i < list.len() implies known.contains_key(#[trigger] list[i])
        && known[list[i]].data().id == list[i] by {
        assert(list.to_set().contains(list[i]));
        let d = choose|d: SampleData| m.count(d) > 0 && #[trigger] d.id == list[i];
        assert(m.count(d) > 0);
    }
    lemma_found_rows(known, list);
    let all = rows(found(known, list));
    assert forall|d: SampleData| all.count(d) == m.count(d) by {
        if m.count(d) > 0 {
            assert(ids(m).contains(d.id));
            assert(list.to_set().contains(d.id));
            assert(m.count(d) == 1);
        } else if all.count(d) > 0 {
            assert(list.to_set().contains(d.id));
            let e = choose|e: SampleData| m.count(e) > 0 && #[trigger] e.id == d.id;
            assert(known[e.id].data() == e);
        }
    }
    assert(all =~= m);
    lemma_rows(found(known, list));
}

/// A tree that represents some samples and is grown anew from its root is then a tree that
/// growing from those samples alone may give: nothing is left in it of what was learnt
/// and forgotten before.
pub proof fn law_rebuilding_is_retraining<S: Sample>(
    before: DynFrsTree,
    after: DynFrsTree,
    plan: Plan,
    known: Map<u64, &S>,
    m: Rows,
)
    requires
        before.wf(),
        after.wf(),
        after.same_setting(&before),
        represents(before.structure(), before.placement(), m),
        0 < m.len() <= MAX_SAMPLES,
        knows(known, m),
        plan.config == before.limits(),
        plan.width <= plan.types.len(),
        rebuilt(before, after, plan, known, ROOT),
    ensures
        fitted(after, after, plan, m),
        represents(after.structure(), after.placement(), m),
{
    let nodes = before.structure();
    let max_depth = before.limits().max_depth as int;
    let list = choose|list: Seq<u64>| #[trigger]
        lists(nodes, ROOT, list) && rebuilt_from(before, after, plan, known, ROOT, list);
    lemma_lists_once(nodes, m, max_depth, ROOT, list);
    lemma_lists_named(nodes, max_depth, ROOT, list);
    lemma_named_all(nodes, before.placement(), m, max_depth);
    lemma_found_all(known, list, m);
    assert(capped(list) == list);
    assert(rebuilt_from(before, after, plan, known, ROOT, list));
    let grown = after.structure();
    assert(plan.grown(grown, m, ROOT));
    let cleared = before.placement().remove_keys(list.to_set());
    assert(cleared =~= Map::<u64, u64>::empty()) by {
        assert forall|sid: u64| !cleared.contains_key(sid) by {
            if before.placement().contains_key(sid) {
                assert(before.placement().dom().contains(sid));
            }
        }
    }
    assert(placed(Map::<u64, u64>::empty(), after.placement(), grown, ids(m), ROOT));
    law_grown_is_exact(plan, grown, m);
    law_grown_is_mapped(plan, grown, after.placement(), m);
    lemma_full_leads(grown, m);
    lemma_grown_suits(plan, grown, m, ROOT);
    assert(plan.suits_all(grown)) by {
        assert forall|id: u64| #[trigger] is_inner(grown, id) implies plan.suits(
            grown[id]->split,
        ) by {
            lemma_linked_at(grown, max_depth, id);
            lemma_within_root(id);
        }
    }
}

/// A tree whose root is due is grown anew from its root when it is developed, so that it
/// is then a tree that growing from the samples that are left may give.
pub proof fn law_development_is_retraining<S: Sample>(
    before: DynFrsTree,
    after: DynFrsTree,
    plan: Plan,
    known: Map<u64, &S>,
    max_age: Option<u64>,
    m: Rows,
)
    requires
        before.wf(),
        after.wf(),
        after.same_setting(&before),
        represents(before.structure(), before.placement(), m),
        0 < m.len() <= MAX_SAMPLES,
        knows(known, m),
        plan.config == before.limits(),
        plan.width <= plan.types.len(),
        developed(before, after, plan, known, ROOT, max_age),
        due(before.structure()[ROOT], plan.position, max_age),
    ensures
        fitted(after, after, plan, m),
        represents(after.structure(), after.placement(), m),
{
    lemma_room(before.structure(), before.limits().max_depth as int);
    assert(is_inner(before.structure(), ROOT));
    law_rebuilding_is_retraining(before, after, plan, known, m);
}

/// To come to a node below another one is to come to that one first.
proof fn lemma_reaches_through(nodes: Nodes, values: Seq<i64>, top: u64, mid: u64, id: u64)
    requires
        within(mid, top),
        within(id, mid),
    ensures
        reaches(nodes, values, top, id) == (reaches(nodes, values, top, mid) && reaches(
            nodes,
            values,
            mid,
            id,
        )),
    decreases id,
{
    if id != mid {
        lemma_reaches_through(nodes, values, top, mid, id / 2);
        lemma_within_order(mid, top);
    }
}

/// What comes to a node outside a part of a tree, or to the top of that part, does not
/// rest on the part.
pub proof fn lemma_reaches_outside(a: Nodes, b: Nodes, values: Seq<i64>, part: u64, id: u64)
    requires
        same_outside(a, b, part),
        !within(id, part) || id == part,
    ensures
        reaches(a, values, ROOT, id) == reaches(b, values, ROOT, id),
    decreases id,
{
    if id > ROOT {
        assert(!within(id / 2, part)) by {
            if within(id / 2, part) {
                lemma_within_order(id / 2, part);
            }
        }
        lemma_reaches_outside(a, b, values, part, id / 2);
    }
}

/// Where a row ends that does not come to a part of a tree does not rest on the part.
proof fn lemma_end_outside(a: Nodes, b: Nodes, values: Seq<i64>, part: u64, id: u64)
    requires
        same_outside(a, b, part),
        !reaches(a, values, ROOT, part),
        reaches(a, values, ROOT, id),
        !within(id, part),
        id >= 1,
    ensures
        end_of(a, values, id) == end_of(b, values, id),
    decreases u64::MAX - id,
{
    assert(is_inner(a, id) == is_inner(b, id));
    if is_inner(a, id) && id <= MAX_PARENT {
        let c = if a[id]->split.routes_left(values) {
            (2 * id) as u64
        } else {
            (2 * id + 1) as u64
        };
        law_parent_of_child(id);
        assert(c / 2 == id);
        lemma_within_root(id);
        lemma_within_order(id, ROOT);
        assert(reaches(a, values, ROOT, c));
        assert(!within(c, part));
        lemma_end_outside(a, b, values, part, c);
    }
}

/// The leaves below a node name exactly the samples that come to the node.
pub proof fn lemma_named_part(nodes: Nodes, m: Rows, max_depth: int, top: u64)
    requires
        exact(nodes, m),
        led(nodes, m),
        linked(nodes, max_depth),
        max_depth <= 63,
        top >= 1,
    ensures
        named_below(nodes, top) == ids(arrivals(nodes, m, ROOT, top)),
{
    let part = arrivals(nodes, m, ROOT, top);
    lemma_within_root(top);
    lemma_room(nodes, max_depth);
    assert forall|sid: u64| named_below(nodes, top).contains(sid) == ids(part).contains(sid) by {
        if named_below(nodes, top).contains(sid) {
            let x = choose|x: u64| #[trigger]
                nodes.contains_key(x) && within(x, top) && nodes[x] is Leaf
                    && nodes[x]->sample_ids.contains(sid);
            let there = arrivals(nodes, m, ROOT, x);
            assert(ids(there).contains(sid));
            let d = choose|d: SampleData| there.count(d) > 0 && #[trigger] d.id == sid;
            lemma_reaches_through(nodes, d.values, ROOT, top, x);
            assert(part.count(d) > 0);
        }
        if ids(part).contains(sid) {
            let d = choose|d: SampleData| part.count(d) > 0 && #[trigger] d.id == sid;
            let end = end_of(nodes, d.values, ROOT);
            assert(m.count(d) > 0);
            lemma_end_path(nodes, d.values, ROOT, top);
            lemma_end_path(nodes, d.values, ROOT, end);
            let there = arrivals(nodes, m, ROOT, end);
            assert(there.count(d) > 0);
            assert(ids(there).contains(sid));
            assert(nodes.contains_key(end) && within(end, top));
        }
    }
    assert(named_below(nodes, top) =~= ids(part));
}

/// Growing a part of a tree anew keeps every count exact.
proof fn lemma_rebuilt_exact<S: Sample>(
    before: DynFrsTree,
    after: DynFrsTree,
    plan: Plan,
    known: Map<u64, &S>,
    m: Rows,
    top: u64,
    list: Seq<u64>,
)
    requires
        before.wf(),
        represents(before.structure(), before.placement(), m),
        m.len() <= MAX_SAMPLES,
        knows(known, m),
        top >= 1,
        lists(before.structure(), top, list),
        rebuilt_from(before, after, plan, known, top, list),
    ensures
        exact(after.structure(), m),
        same_outside(before.structure(), after.structure(), top),
        list.to_set() == ids(arrivals(before.structure(), m, ROOT, top)),
        list.len() == arrivals(before.structure(), m, ROOT, top).len(),
        list.len() > 0 ==> {
            let part = arrivals(before.structure(), m, ROOT, top);
            &&& plan.grown(after.structure(), part, top)
            &&& placed(
                before.placement().remove_keys(list.to_set()),
                after.placement(),
                after.structure(),
                ids(part),
                top,
            )
        },
{
    let nodes = before.structure();
    let now = after.structure();
    let max_depth = before.limits().max_depth as int;
    let part = arrivals(nodes, m, ROOT, top);
    lemma_within_root(top);
    lemma_lists_once(nodes, m, max_depth, top, list);
    lemma_lists_named(nodes, max_depth, top, list);
    lemma_named_part(nodes, m, max_depth, top);
    assert(distinct(part)) by {
        assert forall|a: SampleData, b: SampleData|
            #![trigger part.count(a), part.count(b)]
            part.count(a) > 0 && part.count(b) > 0 && a.id == b.id implies a == b && part.count(a)
            == 1 by {
            assert(m.count(a) > 0 && m.count(b) > 0);
        }
    }
    assert(knows(known, part)) by {
        assert forall|d: SampleData| #[trigger] part.count(d) > 0 implies known.contains_key(d.id)
            && known[d.id].data() == d by {
            assert(m.count(d) > 0);
        }
    }
    lemma_found_all(known, list, part);
    assert(part.len() <= m.len()) by {
        assert(part.subset_of(m));
        assert(m =~= part.add(m.sub(part)));
    }
    assert(capped(list) == list);
    assert(same_outside(nodes, now, top));
    assert forall|id: u64| #[trigger] now.contains_key(id) implies {
        &&& now[id].samples() == arrivals(now, m, ROOT, id).len()
        &&& now[id].plus() == plus(arrivals(now, m, ROOT, id)).len()
        &&& now[id] is Leaf ==> now[id]->sample_ids == ids(arrivals(now, m, ROOT, id))
    } by {
        if !within(id, top) {
            assert(nodes.contains_key(id) && nodes[id] == now[id]);
            assert(arrivals(now, m, ROOT, id) =~= arrivals(nodes, m, ROOT, id)) by {
                assert forall|d: SampleData|
                    reaches(now, d.values, ROOT, id) == reaches(nodes, d.values, ROOT, id) by {
                    lemma_reaches_outside(nodes, now, d.values, top, id);
                }
            }
        } else {
            assert(list.len() > 0);
            assert(plan.grown(now, part, top));
            assert(plan.good(now, arrivals(now, part, top, id), id));
            assert(arrivals(now, m, ROOT, id) =~= arrivals(now, part, top, id)) by {
                assert forall|d: SampleData|
                    reaches(now, d.values, ROOT, id) == (reaches(nodes, d.values, ROOT, top)
                        && reaches(now, d.values, top, id)) by {
                    lemma_reaches_through(now, d.values, ROOT, top, id);
                    lemma_reaches_outside(nodes, now, d.values, top, top);
                }
            }
        }
    }
}

/// A tree that represents some samples still represents them after a part of it has been
/// grown anew. A part without samples is gone; any other part leaves every inner node with
/// its children.
pub proof fn law_rebuilding_is_exact<S: Sample>(
    before: DynFrsTree,
    after: DynFrsTree,
    plan: Plan,
    known: Map<u64, &S>,
    m: Rows,
    top: u64,
)
    requires
        before.wf(),
        after.wf(),
        after.same_setting(&before),
        represents(before.structure(), before.placement(), m),
        m.len() <= MAX_SAMPLES,
        knows(known, m),
        top >= 1,
        before.structure().contains_key(top),
        rebuilt(before, after, plan, known, top),
    ensures
        represents(after.structure(), after.placement(), m),
        full(before.structure()) && before.structure()[top].samples() > 0 ==> full(
            after.structure(),
        ),
{
    let nodes = before.structure();
    let now = after.structure();
    let leaves = before.placement();
    let to = after.placement();
    let max_depth = before.limits().max_depth as int;
    let list = choose|list: Seq<u64>| #[trigger]
        lists(nodes, top, list) && rebuilt_from(before, after, plan, known, top, list);
    lemma_rebuilt_exact(before, after, plan, known, m, top, list);
    assert(rebuilt_from(before, after, plan, known, top, list));
    let part = arrivals(nodes, m, ROOT, top);
    lemma_within_root(top);
    lemma_room(nodes, max_depth);
    lemma_room(now, max_depth);
    assert(shallow(now));
    assert(ids(part).subset_of(ids(m))) by {
        assert forall|sid: u64| ids(part).contains(sid) implies ids(m).contains(sid) by {
            let d = choose|d: SampleData| part.count(d) > 0 && #[trigger] d.id == sid;
            assert(m.count(d) > 0);
        }
    }
    assert(to.dom() =~= ids(m)) by {
        assert forall|sid: u64| to.dom().contains(sid) == ids(m).contains(sid) by {
            assert(leaves.dom().contains(sid) == ids(m).contains(sid));
            assert(to.contains_key(sid) == to.dom().contains(sid));
            assert(leaves.contains_key(sid) == leaves.dom().contains(sid));
            let cleared = leaves.remove_keys(list.to_set());
            assert(cleared.contains_key(sid) == (leaves.contains_key(sid)
                && !list.to_set().contains(sid)));
        }
    }
    assert forall|d: SampleData| #[trigger] m.count(d) > 0 implies now.contains_key(
        end_of(now, d.values, ROOT),
    ) && now[end_of(now, d.values, ROOT)] is Leaf && to[d.id] == end_of(now, d.values, ROOT) by {
        let end = end_of(nodes, d.values, ROOT);
        assert(ids(m).contains(d.id));
        assert(leaves[d.id] == end);
        lemma_end_path(nodes, d.values, ROOT, top);
        if reaches(nodes, d.values, ROOT, top) {
            assert(part.count(d) > 0);
            assert(ids(part).contains(d.id));
            assert(list.to_set().contains(d.id));
            assert(list.len() > 0);
            let x = to[d.id];
            assert(now.contains_key(x) && now[x] is Leaf && now[x]->sample_ids.contains(d.id));
            lemma_named_where_it_ends(now, m, max_depth, x, d.id);
            let e = choose|e: SampleData| #[trigger]
                m.count(e) > 0 && e.id == d.id && end_of(now, e.values, ROOT) == x;
            assert(e == d);
        } else {
            assert(!within(ROOT, top)) by {
                if within(ROOT, top) {
                    lemma_within_order(ROOT, top);
                    assert(top == ROOT);
                }
            }
            lemma_end_outside(nodes, now, d.values, top, ROOT);
            assert(!within(end, top));
            assert(!ids(part).contains(d.id)) by {
                if ids(part).contains(d.id) {
                    let e = choose|e: SampleData| part.count(e) > 0 && #[trigger] e.id == d.id;
                    assert(m.count(e) > 0);
                    assert(e == d);
                }
            }
            let cleared = leaves.remove_keys(list.to_set());
            assert(cleared.contains_key(d.id) && cleared[d.id] == end);
        }
    }
    assert(m.len() > 0 ==> now.contains_key(ROOT)) by {
        if m.len() > 0 {
            if within(ROOT, top) {
                lemma_within_order(ROOT, top);
                assert(top == ROOT);
                assert(part =~= m);
                assert(list.len() > 0);
            }
        }
    }
    if full(nodes) && nodes[top].samples() > 0 {
        assert(list.len() > 0);
        assert forall|id: u64| #[trigger] is_inner(now, id) implies id <= MAX_PARENT
            && now.contains_key((2 * id) as u64) && now.contains_key((2 * id + 1) as u64) by {
            if within(id, top) {
                assert(plan.good(now, arrivals(now, part, top, id), id));
            } else {
                assert(is_inner(nodes, id));
                law_parent_of_child(id);
                let l = (2 * id) as u64;
                let r = (2 * id + 1) as u64;
                assert(l / 2 == id && r / 2 == id);
                assert(within(l, top) ==> l == top);
                assert(within(r, top) ==> r == top);
                assert(now.contains_key(top));
            }
        }
    }
}

/// Whether every node that is due, below a node, has samples.
pub open spec fn fruitful(nodes: Nodes, position: u64, max_age: Option<u64>, top: u64) -> bool {
    forall|id: u64|
        is_inner(nodes, id) && #[trigger] within(id, top) && due(nodes[id], position, max_age)
            ==> nodes[id].samples() > 0
}

/// A tree that represents some samples still represents them after a part of it has been
/// developed. Where every node that was due had samples, every inner node still has its
/// children.
pub proof fn law_development_is_exact<S: Sample>(
    before: DynFrsTree,
    after: DynFrsTree,
    plan: Plan,
    known: Map<u64, &S>,
    max_age: Option<u64>,
    m: Rows,
    top: u64,
)
    requires
        before.wf(),
        after.wf(),
        after.same_setting(&before),
        represents(before.structure(), before.placement(), m),
        m.len() <= MAX_SAMPLES,
        knows(known, m),
        top >= 1,
        developed(before, after, plan, known, top, max_age),
    ensures
        represents(after.structure(), after.placement(), m),
        full(before.structure()) && fruitful(before.structure(), plan.position, max_age, top)
            ==> full(after.structure()),
    decreases u64::MAX - top,
{
    let nodes = before.structure();
    if !(is_inner(nodes, top) && 1 <= top <= MAX_PARENT) {
    } else if due(nodes[top], plan.position, max_age) {
        law_rebuilding_is_exact(before, after, plan, known, m, top);
        assert(within(top, top));
    } else {
        let l = (2 * top) as u64;
        let r = (2 * top + 1) as u64;
        let mid = choose|mid: DynFrsTree|
            mid.wf() && #[trigger] mid.same_setting(&before) && developed(
                before,
                mid,
                plan,
                known,
                l,
                max_age,
            ) && developed(mid, after, plan, known, r, max_age);
        assert forall|id: u64| #[trigger] within(id, l) || within(id, r) implies within(id, top) by {
            lemma_within_children(id, top);
        }
        law_development_is_exact(before, mid, plan, known, max_age, m, l);
        lemma_developed_outside(before, mid, plan, known, l, max_age);
        law_development_is_exact(mid, after, plan, known, max_age, m, r);
        if full(nodes) && fruitful(nodes, plan.position, max_age, top) {
            assert(fruitful(nodes, plan.position, max_age, l));
            assert(full(mid.structure()));
            assert(fruitful(mid.structure(), plan.position, max_age, r)) by {
                assert forall|id: u64|
                    is_inner(mid.structure(), id) && #[trigger] within(id, r) && due(
                        mid.structure()[id],
                        plan.position,
                        max_age,
                    ) implies mid.structure()[id].samples() > 0 by {
                    lemma_within_children(id, top);
                    assert(!within(id, l));
                    assert(is_inner(nodes, id) && within(id, top));
                }
            }
        }
    }
}

} // verus!
