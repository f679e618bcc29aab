//! What putting off work leaves exact, and what it leaves for later.

use super::collect::{lemma_linked_up, lemma_lists_named, lists, states_made};
use super::grow::{fitted, pick, same_outside, Plan};
use super::laws::{law_tree_forgets_exactly, represents};
use super::lazy::{
    answered, capped, divided, divided_at, found, ids_in_order, leafed, rebuilt, resolved,
    unchanged, walked, MAX_SAMPLES,
};
use super::retrain::{
    knows, law_rebuilding_is_retraining, lemma_found_all, lemma_lists_once, lemma_named_part,
    lemma_reaches_outside,
};
use super::shape::{
    arrivals, distinct, end_of, exact, is_inner, lemma_end_path, lemma_linked_at, lemma_room,
    lemma_same_splits, reaches, same_splits, vote, Nodes,
};
use super::stream::{nodes_removed, removed_from, without, Change};
use super::DynFrsTree;
use crate::node::node_id::{
    law_parent_of_child, lemma_within_children, lemma_within_root, lemma_within_trans, level,
    within, ROOT,
};
use crate::node::LazyTag;
use crate::sample::{ids, lemma_rows, plus, rows, side, Rows, Sample, SampleData};
use crate::scan::{is_side, picked};
use crate::split::Split;
use crate::streaming::StateView;
use vstd::prelude::*;

verus! {

/// Whether a node counts exactly the samples that pass through it, and names them if it is
/// a leaf.
pub open spec fn exact_at(nodes: Nodes, m: Rows, id: u64) -> bool {
    let part = arrivals(nodes, m, ROOT, id);
    &&& nodes[id].samples() == part.len()
    &&& nodes[id].plus() == plus(part).len()
    &&& nodes[id] is Leaf ==> nodes[id]->sample_ids == ids(part)
}

/// Whether a node lies below a marked one, so that its counts may be stale.
pub open spec fn stale(nodes: Nodes, id: u64) -> bool {
    exists|a: u64| #[trigger] within(id, a) && a != id && nodes.contains_key(a) && nodes[a].pending()
}

/// Whether every node that does not lie below a marked one counts exactly the samples that
/// pass through it.
pub open spec fn sound(nodes: Nodes, m: Rows) -> bool {
    forall|id: u64| #[trigger]
        nodes.contains_key(id) && !stale(nodes, id) ==> exact_at(nodes, m, id)
}

/// Whether no node of a tree is marked.
pub open spec fn settled(tree: DynFrsTree) -> bool {
    forall|id: u64| #[trigger]
        tree.structure().contains_key(id) ==> !tree.structure()[id].pending()
}

/// Whether the state of a node lists, once each, exactly the samples that come to it.
pub open spec fn lists_arrivals(tree: DynFrsTree, m: Rows, id: u64) -> bool {
    &&& tree.states().contains_key(id)
    &&& tree.states()[id].sample_ids.no_duplicates()
    &&& tree.states()[id].sample_ids.to_set() == ids(arrivals(tree.structure(), m, ROOT, id))
}

/// Whether every node has a state that lists, once each, exactly the samples that come to
/// it.
pub open spec fn all_listed(tree: DynFrsTree, m: Rows) -> bool {
    forall|id: u64| #[trigger]
        tree.structure().contains_key(id) ==> lists_arrivals(tree, m, id)
}

/// States that have just been made for the nodes of a tree that represents some samples
/// list what comes to the nodes.
pub proof fn law_new_states_list_arrivals<S: Sample>(
    tree: DynFrsTree,
    states: Map<u64, StateView>,
    known: Map<u64, &S>,
    m: Rows,
)
    requires
        tree.wf(),
        represents(tree.structure(), tree.placement(), m),
        states_made(states, tree.states(), known, tree.width(), tree.structure(), ROOT),
    ensures
        all_listed(tree, m),
{
    let nodes = tree.structure();
    let max_depth = tree.limits().max_depth as int;
    assert forall|id: u64| #[trigger] nodes.contains_key(id) implies lists_arrivals(tree, m, id) by {
        lemma_linked_at(nodes, max_depth, id);
        lemma_within_root(id);
        assert(tree.states().contains_key(id));
        let list = tree.states()[id].sample_ids;
        assert(lists(nodes, id, list));
        lemma_lists_once(nodes, m, max_depth, id, list);
        lemma_lists_named(nodes, max_depth, id, list);
        lemma_named_part(nodes, m, max_depth, id);
    }
}

/// A list without an entry.
proof fn lemma_without(list: Seq<u64>, x: u64)
    requires
        list.no_duplicates(),
    ensures
        without(list, x).no_duplicates(),
        without(list, x).to_set() == list.to_set().remove(x),
    decreases list.len(),
{
    if list.len() > 0 {
        let front = list.drop_last();
        let last = list.last();
        lemma_without(front, x);
        let rest = without(front, x);
        let all = without(list, x);
        assert(!front.contains(last)) by {
            if front.contains(last) {
                assert(list[front.index_of(last)] == list[list.len() - 1]);
            }
        }
        assert forall|y: u64| rest.contains(y) == (front.contains(y) && y != x) by {
            assert(rest.to_set().contains(y) == front.to_set().remove(x).contains(y));
        }
        assert forall|y: u64| list.contains(y) == (front.contains(y) || y == last) by {
            if front.contains(y) {
                assert(list[front.index_of(y)] == y);
            }
            assert(list[list.len() - 1] == last);
            if list.contains(y) && y != last {
                assert(front[list.index_of(y)] == y);
            }
        }
        if last != x {
            assert(all == rest.push(last));
            assert forall|y: u64| all.contains(y) == (rest.contains(y) || y == last) by {
                if rest.contains(y) {
                    assert(all[rest.index_of(y)] == y);
                }
                assert(all[rest.len() as int] == last);
                if all.contains(y) && y != last {
                    assert(rest[all.index_of(y)] == y);
                }
            }
            assert(all.no_duplicates());
        }
        assert(all.to_set() =~= list.to_set().remove(x));
    } else {
        assert(list.to_set().remove(x) =~= list.to_set());
    }
}

/// States that list what comes to the nodes still do after a sample has been forgotten, so
/// that the work that this puts off can be done exactly.
pub proof fn law_forgetting_keeps_lists(
    before: DynFrsTree,
    after: DynFrsTree,
    m: Rows,
    d: SampleData,
    features: Seq<i64>,
    lazy: bool,
    r: (Option<u64>, bool),
)
    requires
        before.wf(),
        before.streams(),
        represents(before.structure(), before.placement(), m),
        m.count(d) > 0,
        all_listed(before, m),
        removed_from(before, after, d.id, features, d.label, lazy, r),
    ensures
        all_listed(after, m.remove(d)),
        exact(after.structure(), m.remove(d)),
{
    let a = before.structure();
    let b = after.structure();
    let less = m.remove(d);
    let leaf = before.placement()[d.id];
    let c = Change {
        id: d.id,
        route: features,
        values: features,
        label: d.label,
        lazy,
        inline: false,
    };
    assert(ids(m).contains(d.id));
    assert(before.placement().dom().contains(d.id));
    assert(leaf == end_of(a, d.values, ROOT));
    assert(b == nodes_removed(a, before.states(), before.streams(), leaf, c));
    law_tree_forgets_exactly(
        a,
        before.states(),
        before.streams(),
        before.placement(),
        m,
        d,
        c,
    );
    assert(b.dom() =~= a.dom());
    assert(same_splits(a, b));
    assert forall|id: u64| #[trigger] b.contains_key(id) implies lists_arrivals(after, less, id) by {
        lemma_linked_at(a, before.limits().max_depth as int, id);
        lemma_within_root(id);
        lemma_end_path(a, d.values, ROOT, id);
        assert(lists_arrivals(before, m, id));
        let list = before.states()[id].sample_ids;
        let part = arrivals(a, m, ROOT, id);
        let left = arrivals(b, less, ROOT, id);
        assert forall|x: SampleData| reaches(b, x.values, ROOT, id) == reaches(
            a,
            x.values,
            ROOT,
            id,
        ) by {
            lemma_same_splits(a, b, x.values, id);
        }
        if within(leaf, id) {
            lemma_without(list, d.id);
            assert(left =~= part.remove(d));
            assert(ids(left) =~= ids(part).remove(d.id)) by {
                assert forall|sid: u64| ids(left).contains(sid) == ids(part).remove(
                    d.id,
                ).contains(sid) by {
                    if ids(left).contains(sid) {
                        let x = choose|x: SampleData| left.count(x) > 0 && #[trigger] x.id == sid;
                        assert(part.count(x) > 0 && m.count(x) > 0);
                        if sid == d.id {
                            assert(x == d);
                            assert(m.count(d) == 1);
                        }
                    }
                    if ids(part).contains(sid) && sid != d.id {
                        let x = choose|x: SampleData| part.count(x) > 0 && #[trigger] x.id == sid;
                        assert(left.count(x) > 0);
                    }
                }
            }
            assert(after.states()[id].sample_ids == without(list, d.id));
        } else {
            assert(part.count(d) == 0);
            assert(left =~= part);
            assert(after.states()[id].sample_ids == list);
        }
    }
}

/// A tree in which every count is exact is one in which those above the marks are.
pub proof fn law_exact_is_sound(nodes: Nodes, m: Rows)
    requires
        exact(nodes, m),
    ensures
        sound(nodes, m),
{
}

/// A row that passes no marked node gets the majority of the samples that end where it
/// ends, however much work has been put off elsewhere.
pub proof fn law_answer_is_exact(tree: DynFrsTree, m: Rows, values: Seq<i64>)
    requires
        tree.wf(),
        sound(tree.structure(), m),
        tree.structure().contains_key(end_of(tree.structure(), values, ROOT)),
        forall|id: u64|
            #[trigger] reaches(tree.structure(), values, ROOT, id)
                && tree.structure().contains_key(id) ==> !tree.structure()[id].pending(),
    ensures
        ({
            let end = end_of(tree.structure(), values, ROOT);
            let part = arrivals(tree.structure(), m, ROOT, end);
            vote(tree.structure(), values) == (2 * plus(part).len() > part.len())
        }),
{
    let nodes = tree.structure();
    let max_depth = tree.limits().max_depth as int;
    let end = end_of(nodes, values, ROOT);
    lemma_room(nodes, max_depth);
    assert(!stale(nodes, end)) by {
        if stale(nodes, end) {
            let a = choose|a: u64| #[trigger]
                within(end, a) && a != end && nodes.contains_key(a) && nodes[a].pending();
            lemma_linked_at(nodes, max_depth, a);
            lemma_within_root(a);
            lemma_end_path(nodes, values, ROOT, a);
        }
    }
    assert(exact_at(nodes, m, end));
}

/// What lies outside a part of a tree is as exact as it was before the part changed.
pub proof fn lemma_outside_sound(a: Nodes, b: Nodes, m: Rows, top: u64, id: u64)
    requires
        sound(a, m),
        same_outside(a, b, top),
        b.contains_key(id),
        !within(id, top),
        !stale(b, id),
    ensures
        exact_at(b, m, id),
{
    assert(a.contains_key(id) && a[id] == b[id]);
    assert(!stale(a, id)) by {
        if stale(a, id) {
            let x = choose|x: u64| #[trigger]
                within(id, x) && x != id && a.contains_key(x) && a[x].pending();
            assert(!within(x, top)) by {
                if within(x, top) {
                    lemma_within_trans(id, x, top);
                }
            }
            assert(b.contains_key(x) && b[x] == a[x]);
            assert(stale(b, id));
        }
    }
    assert(exact_at(a, m, id));
    assert(arrivals(b, m, ROOT, id) =~= arrivals(a, m, ROOT, id)) by {
        assert forall|d: SampleData|
            reaches(b, d.values, ROOT, id) == reaches(a, d.values, ROOT, id) by {
            lemma_reaches_outside(a, b, d.values, top, id);
        }
    }
}

/// What is found for a list of known samples is what is known of them, in order.
proof fn lemma_found_in_order<S: Sample>(known: Map<u64, &S>, list: Seq<u64>)
    requires
        forall|i: int| 0 <= i < list.len() ==> known.contains_key(#[trigger] list[i]),
    ensures
        found(known, list).len() == list.len(),
        forall|i: int| 0 <= i < list.len() ==> #[trigger] found(known, list)[i] == known[list[i]],
    decreases list.len(),
{
    if list.len() > 0 {
        let front = list.drop_last();
        assert forall|i: int| 0 <= i < front.len() implies known.contains_key(#[trigger] front[i]) by {
            assert(front[i] == list[i]);
        }
        lemma_found_in_order(known, front);
        assert(known.contains_key(list[list.len() - 1]));
    }
}

/// The samples on one side of a split, by identifier.
proof fn lemma_side_ids<S: Sample>(
    refs: Seq<&S>,
    split: Split,
    left: bool,
    places: Seq<usize>,
)
    requires
        is_side(refs, refs.len() as int, split, left, places),
        refs.len() <= MAX_SAMPLES,
        forall|i: int, j: int|
            0 <= i < j < refs.len() ==> (#[trigger] refs[i]).data().id != (
            #[trigger] refs[j]).data().id,
    ensures
        ids_in_order(picked(refs, places)).to_set() == ids(side(rows(refs), split, left)),
        ids_in_order(picked(refs, places)).no_duplicates(),
{
    let m = rows(refs);
    let part = side(m, split, left);
    let list = ids_in_order(picked(refs, places));
    lemma_rows(refs);
    assert forall|sid: u64| list.to_set().contains(sid) == ids(part).contains(sid) by {
        if list.to_set().contains(sid) {
            let i = choose|i: int| 0 <= i < list.len() && list[i] == sid;
            let k = places[i] as int;
            assert(k < refs.len());
            let d = refs[k].data();
            assert(m.count(d) > 0);
            assert(part.count(d) > 0 && d.id == sid);
        }
        if ids(part).contains(sid) {
            let d = choose|d: SampleData| part.count(d) > 0 && #[trigger] d.id == sid;
            assert(m.count(d) > 0);
            let k = choose|k: int| 0 <= k < refs.len() && #[trigger] refs[k].data() == d;
            let u = k as usize;
            assert(split.routes_left(refs[u as int].data().values) == left);
            assert(places.contains(u));
            let i = places.index_of(u);
            assert(list[i] == sid);
        }
    }
    assert(list.to_set() =~= ids(part));
    assert forall|i: int, j: int| 0 <= i < list.len() && 0 <= j < list.len() && i != j implies list[i]
        != list[j] by {
        let x = places[i] as int;
        let y = places[j] as int;
        assert(x < refs.len() && y < refs.len());
        if i < j {
            assert(x < y);
            assert(refs[x].data().id != refs[y].data().id);
        } else {
            assert(y < x);
            assert(refs[y].data().id != refs[x].data().id);
        }
    }
}

/// What comes to a child of a node that has a split.
pub proof fn lemma_child_arrivals(nodes: Nodes, m: Rows, id: u64, child: u64)
    requires
        is_inner(nodes, id),
        id >= 1,
        child == 2 * id || child == 2 * id + 1,
    ensures
        arrivals(nodes, m, ROOT, child) == side(
            arrivals(nodes, m, ROOT, id),
            nodes[id]->split,
            child == 2 * id,
        ),
{
    assert(child / 2 == id && (child % 2 == 0) == (child == 2 * id));
    assert(arrivals(nodes, m, ROOT, child) =~= side(
        arrivals(nodes, m, ROOT, id),
        nodes[id]->split,
        child == 2 * id,
    ));
}

/// Dividing the samples of a node anew keeps every node exact that does not lie below a
/// marked one.
pub proof fn lemma_divided_sound<S: Sample>(
    before: DynFrsTree,
    after: DynFrsTree,
    known: Map<u64, &S>,
    m: Rows,
    id: u64,
    refs: Seq<&S>,
    split: Split,
)
    requires
        before.wf(),
        after.wf(),
        after.same_setting(&before),
        sound(before.structure(), m),
        m.len() <= MAX_SAMPLES,
        is_inner(before.structure(), id),
        rows(refs) == arrivals(before.structure(), m, ROOT, id),
        refs.len() <= MAX_SAMPLES,
        forall|i: int, j: int|
            0 <= i < j < refs.len() ==> (#[trigger] refs[i]).data().id != (
            #[trigger] refs[j]).data().id,
        divided(before, after, known, id, refs, split),
    ensures
        sound(after.structure(), m),
        forall|c: u64|
            (c == 2 * id || c == 2 * id + 1) && #[trigger] after.states().contains_key(c)
                ==> lists_arrivals(after, m, c),
{
    let a = before.structure();
    let b = after.structure();
    let max_depth = before.limits().max_depth as int;
    let part = rows(refs);
    let (lefts, rights) = choose|lefts: Seq<usize>, rights: Seq<usize>|
        {
            &&& is_side(refs, refs.len() as int, split, true, lefts)
            &&& is_side(refs, refs.len() as int, split, false, rights)
            &&& #[trigger] divided_at(before, after, known, id, refs, split, lefts, rights)
        };
    lemma_room(a, max_depth);
    lemma_side_ids(refs, split, true, lefts);
    lemma_side_ids(refs, split, false, rights);
    lemma_rows(refs);
    let l = (2 * id) as u64;
    let r = (2 * id + 1) as u64;
    law_parent_of_child(id);
    assert(within(l, id) && within(r, id)) by {
        assert(within(l / 2, id) && within(r / 2, id));
    }
    assert(same_outside(a, b, id));
    assert(is_inner(b, id) && b[id]->split == split);
    assert(arrivals(b, m, ROOT, id) =~= part) by {
        assert forall|d: SampleData|
            reaches(b, d.values, ROOT, id) == reaches(a, d.values, ROOT, id) by {
            lemma_reaches_outside(a, b, d.values, id, id);
        }
    }
    lemma_child_arrivals(b, m, id, l);
    lemma_child_arrivals(b, m, id, r);
    let left = side(part, split, true);
    let right = side(part, split, false);
    lemma_part_sizes(part, split);
    assert(exact_at(b, m, id));
    assert(b.contains_key(l) ==> exact_at(b, m, l));
    assert(b.contains_key(r) ==> exact_at(b, m, r));
    assert forall|x: u64| #[trigger] b.contains_key(x) && !stale(b, x) implies exact_at(b, m, x) by {
        if !within(x, id) {
            lemma_outside_sound(a, b, m, id, x);
        } else if x != id && x != l && x != r {
            lemma_within_children(x, id);
            let c = if within(x, l) {
                l
            } else {
                r
            };
            lemma_linked_up(b, max_depth, x, c);
            assert(is_inner(b, c));
            assert(b[c].pending());
            assert(within(x, c) && c != x && b.contains_key(c));
            assert(stale(b, x));
        }
    }
}

/// The sides of a split are no larger than what is split.
proof fn lemma_part_sizes(m: Rows, split: Split)
    ensures
        side(m, split, true).len() <= m.len(),
        side(m, split, false).len() <= m.len(),
        plus(side(m, split, true)).len() <= m.len(),
        plus(side(m, split, false)).len() <= m.len(),
        plus(m).len() <= m.len(),
{
    crate::sample::lemma_sides(m, split);
}

/// What the state of a node lists is found in full, if it lists what comes to the node.
pub proof fn lemma_listed_refs<S: Sample>(tree: DynFrsTree, known: Map<u64, &S>, m: Rows, id: u64)
    requires
        distinct(m),
        m.len() <= MAX_SAMPLES,
        knows(known, m),
        lists_arrivals(tree, m, id),
    ensures
        ({
            let list = tree.states()[id].sample_ids;
            let refs = found(known, capped(list));
            &&& capped(list) == list
            &&& refs.len() == list.len()
            &&& refs.len() <= MAX_SAMPLES
            &&& rows(refs) == arrivals(tree.structure(), m, ROOT, id)
            &&& forall|i: int, j: int|
                0 <= i < j < refs.len() ==> (#[trigger] refs[i]).data().id != (
                #[trigger] refs[j]).data().id
        }),
{
    let list = tree.states()[id].sample_ids;
    let part = arrivals(tree.structure(), m, ROOT, id);
    let refs = found(known, capped(list));
    assert(distinct(part)) by {
        assert forall|x: SampleData, y: SampleData|
            #![trigger part.count(x), part.count(y)]
            part.count(x) > 0 && part.count(y) > 0 && x.id == y.id implies x == y && part.count(x)
            == 1 by {
            assert(m.count(x) > 0 && m.count(y) > 0);
        }
    }
    assert(knows(known, part)) by {
        assert forall|d: SampleData| #[trigger] part.count(d) > 0 implies known.contains_key(d.id)
            && known[d.id].data() == d by {
            assert(m.count(d) > 0);
        }
    }
    lemma_found_all(known, list, part);
    assert(part.len() <= m.len()) by {
        assert(part.subset_of(m));
        assert(m =~= part.add(m.sub(part)));
    }
    assert(capped(list) == list);
    assert(rows(refs) == part);
    assert forall|i: int| 0 <= i < list.len() implies known.contains_key(#[trigger] list[i])
        && known[list[i]].data().id == list[i] by {
        assert(list.to_set().contains(list[i]));
        let d = choose|d: SampleData| part.count(d) > 0 && #[trigger] d.id == list[i];
        assert(part.count(d) > 0);
    }
    lemma_found_in_order(known, list);
    assert forall|i: int, j: int| 0 <= i < j < refs.len() implies (#[trigger] refs[i]).data().id != (
    #[trigger] refs[j]).data().id by {
        assert(refs[i] == known[list[i]] && refs[j] == known[list[j]]);
    }
}

/// Doing the work that has been put off at a node keeps every node exact that does not lie
/// below a marked one, if the state of the node lists the samples that come to it. Where a
/// new split sends other samples to the children, those that are inner nodes are marked,
/// and their states list what comes to them now, so that the work can go on there. Only
/// where no split helps is the node taken for up to date with what lies below it.
pub proof fn law_resolving_is_sound<S: Sample>(
    before: DynFrsTree,
    after: DynFrsTree,
    plan: Plan,
    known: Map<u64, &S>,
    m: Rows,
    id: u64,
)
    requires
        before.wf(),
        after.wf(),
        after.same_setting(&before),
        sound(before.structure(), m),
        distinct(m),
        m.len() <= MAX_SAMPLES,
        knows(known, m),
        before.structure().contains_key(id),
        before.structure()[id].pending(),
        lists_arrivals(before, m, id),
        before.states()[id].sample_ids.len() > 0,
        resolved(before, after, plan, known, id),
    ensures
        ({
            ||| after.structure() == before.structure().insert(
                id,
                before.structure()[id].with_tag(LazyTag::Clean),
            )
            ||| sound(after.structure(), m) && (forall|c: u64|
                (c == 2 * id || c == 2 * id + 1) && #[trigger] after.structure().contains_key(c)
                    && after.states().contains_key(c) ==> lists_arrivals(after, m, c))
        }),
{
    let a = before.structure();
    let b = after.structure();
    let max_depth = before.limits().max_depth as int;
    let list = before.states()[id].sample_ids;
    let part = arrivals(a, m, ROOT, id);
    let refs = found(known, capped(list));
    lemma_linked_at(a, max_depth, id);
    lemma_room(a, max_depth);
    assert(is_inner(a, id));
    lemma_listed_refs(before, known, m, id);
    if plan.must_stop(part, level(id) as int) {
        assert(leafed(before, after, id, list, part));
        assert(same_outside(a, b, id));
        lemma_part_sizes(part, a[id]->split);
        assert(arrivals(b, m, ROOT, id) =~= part) by {
            assert forall|d: SampleData|
                reaches(b, d.values, ROOT, id) == reaches(a, d.values, ROOT, id) by {
                lemma_reaches_outside(a, b, d.values, id, id);
            }
        }
        assert forall|x: u64| #[trigger] b.contains_key(x) && !stale(b, x) implies exact_at(
            b,
            m,
            x,
        ) by {
            if !within(x, id) {
                lemma_outside_sound(a, b, m, id, x);
            }
        }
        assert forall|c: u64| c == 2 * id || c == 2 * id + 1 implies !b.contains_key(c) by {
            law_parent_of_child(id);
            assert(within(c / 2, id));
        }
    } else {
        let splits = choose|splits: Seq<Split>| #[trigger]
            plan.drawn(part, splits) && match pick(part, splits) {
                Some(split) => divided(before, after, known, id, refs, split),
                None => {
                    &&& after.structure() == a.insert(id, a[id].with_tag(LazyTag::Clean))
                    &&& after.placement() == before.placement()
                    &&& after.states() == before.states()
                },
            };
        match pick(part, splits) {
            Some(split) => {
                lemma_divided_sound(before, after, known, m, id, refs, split);
            },
            None => {},
        }
    }
}

/// After the first step of a walk over a tree without marks nothing changes.
proof fn lemma_rest_of_walk<S: Sample>(
    steps: Seq<DynFrsTree>,
    path: Seq<u64>,
    plan: Plan,
    known: Map<u64, &S>,
    values: Seq<i64>,
    n: int,
)
    requires
        walked(steps, path, plan, known, values),
        1 <= n <= path.len(),
        settled(steps[1]),
    ensures
        unchanged(steps[1], steps[n]),
    decreases n,
{
    if n > 1 {
        lemma_rest_of_walk(steps, path, plan, known, values, n - 1);
        assert(resolved(steps[n - 1], steps[n], plan, known, path[n - 1]));
    }
}

/// What a tree answers whose root is marked is what a tree answers that is grown from the
/// samples that are left: the work that was put off is done first, and leaves a tree that
/// growing from those samples alone may give.
pub proof fn law_lazy_answer_is_retrained<S: Sample>(
    before: DynFrsTree,
    after: DynFrsTree,
    plan: Plan,
    known: Map<u64, &S>,
    m: Rows,
    values: Seq<i64>,
    r: bool,
)
    requires
        represents(before.structure(), before.placement(), m),
        0 < m.len() <= MAX_SAMPLES,
        knows(known, m),
        plan.config == before.limits(),
        plan.width <= plan.types.len(),
        before.structure()[ROOT].pending(),
        !before.states().contains_key(ROOT),
        answered(before, after, plan, known, values, r),
    ensures
        fitted(after, after, plan, m),
        represents(after.structure(), after.placement(), m),
        settled(after),
        r == vote(after.structure(), values),
{
    let (steps, path) = choose|steps: Seq<DynFrsTree>, path: Seq<u64>|
        {
            &&& #[trigger] walked(steps, path, plan, known, values)
            &&& !is_inner(steps.last().structure(), path.last())
            &&& steps[0] == before
            &&& steps.last() == after
        };
    let first = steps[1];
    assert(steps[0].wf() && first.wf());
    assert(resolved(steps[0], steps[1], plan, known, path[0]));
    assert(rebuilt(before, first, plan, known, ROOT));
    law_rebuilding_is_retraining(before, first, plan, known, m);
    assert forall|id: u64| #[trigger] first.structure().contains_key(id) implies
        !first.structure()[id].pending() by {
        lemma_linked_at(first.structure(), first.limits().max_depth as int, id);
        lemma_within_root(id);
        assert(plan.good(first.structure(), arrivals(first.structure(), m, ROOT, id), id));
    }
    lemma_rest_of_walk(steps, path, plan, known, values, path.len() as int);
}

} // verus!
