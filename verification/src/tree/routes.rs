//! Where rows end, and what is predicted for them.

use super::grow::lemma_leaf_end;
use super::laws::lemma_end_exists;
use super::lazy::{first_pending, found};
use super::shape::{
    arrivals, end_of, exact, full, is_inner, lemma_end_path, reaches, vote, Nodes,
};
use crate::node::node_id::{MAX_PARENT, ROOT};
use crate::sample::{plus, Rows, Sample, SampleData};
use crate::split::Split;
use vstd::prelude::*;

verus! {

/// At an inner node with a threshold a row goes on to the left child if its value is not
/// above the threshold, and to the right one otherwise; where there is no inner node it
/// ends.
pub proof fn law_row_follows_threshold(
    nodes: Nodes,
    values: Seq<i64>,
    id: u64,
    attribute_index: u8,
    threshold: i64,
)
    requires
        1 <= id <= MAX_PARENT,
    ensures
        is_inner(nodes, id) && nodes[id]->split == (Split::Numerical { attribute_index, threshold })
            ==> end_of(nodes, values, id) == (if values[attribute_index as int] <= threshold {
            end_of(nodes, values, (2 * id) as u64)
        } else {
            end_of(nodes, values, (2 * id + 1) as u64)
        }),
        !nodes.contains_key(id) || nodes[id] is Leaf ==> end_of(nodes, values, id) == id,
{
}

/// A row passes through the node that it starts at, and from an inner node that it passes
/// through to exactly one of both children.
pub proof fn law_row_takes_one_way(nodes: Nodes, values: Seq<i64>, top: u64, id: u64)
    requires
        1 <= top <= id <= MAX_PARENT,
    ensures
        reaches(nodes, values, top, top),
        is_inner(nodes, id) && reaches(nodes, values, top, id) ==> {
            &&& reaches(nodes, values, top, (2 * id) as u64) <==> !reaches(
                nodes,
                values,
                top,
                (2 * id + 1) as u64,
            )
            &&& reaches(nodes, values, top, (2 * id) as u64) <==> nodes[id]->split.routes_left(
                values,
            )
        },
        !reaches(nodes, values, top, id) || !is_inner(nodes, id) ==> !reaches(
            nodes,
            values,
            top,
            (2 * id) as u64,
        ) && !reaches(nodes, values, top, (2 * id + 1) as u64),
{
    assert((2 * id) as u64 / 2 == id && (2 * id) as u64 % 2 == 0);
    assert((2 * id + 1) as u64 / 2 == id && (2 * id + 1) as u64 % 2 == 1);
}

/// The samples of a class that end where a row ends.
pub open spec fn companions(nodes: Nodes, m: Rows, values: Seq<i64>, label: bool) -> Rows {
    m.filter(
        |d: SampleData|
            end_of(nodes, d.values, ROOT) == end_of(nodes, values, ROOT) && d.label == label,
    )
}

/// A tree that counts its samples exactly predicts for a row what more of the samples are
/// that end where the row ends; with equally many of either class it predicts the negative
/// one.
pub proof fn law_vote_follows_companions(nodes: Nodes, m: Rows, values: Seq<i64>)
    requires
        exact(nodes, m),
        full(nodes),
        nodes.contains_key(ROOT),
    ensures
        vote(nodes, values) <==> companions(nodes, m, values, true).len() > companions(
            nodes,
            m,
            values,
            false,
        ).len(),
{
    let end = end_of(nodes, values, ROOT);
    lemma_end_exists(nodes, values, ROOT);
    assert forall|x: u64| #[trigger] is_inner(nodes, x) implies x <= MAX_PARENT by {}
    let part = arrivals(nodes, m, ROOT, end);
    let yes = companions(nodes, m, values, true);
    let no = companions(nodes, m, values, false);
    assert forall|d: SampleData| #[trigger] m.count(d) > 0 implies reaches(
        nodes,
        d.values,
        ROOT,
        end,
    ) == (end_of(nodes, d.values, ROOT) == end) by {
        lemma_end_path(nodes, d.values, ROOT, end);
        lemma_end_path(nodes, values, ROOT, end);
        if reaches(nodes, d.values, ROOT, end) {
            lemma_leaf_end(nodes, end_of(nodes, d.values, ROOT), end, 0, d.values);
        }
    }
    assert(plus(part) =~= yes);
    assert(part =~= yes.add(no));
    assert(part.len() == yes.len() + no.len());
}

/// The first node on the way of a row that has to be looked at is one that the row passes
/// through and that has to be, and no node that it passes through above it has to be; there is
/// none only if no node on the way has to be looked at.
pub proof fn law_first_pending_is_first(nodes: Nodes, values: Seq<i64>, top: u64)
    requires
        1 <= top,
        forall|x: u64| #[trigger] is_inner(nodes, x) ==> x <= MAX_PARENT,
    ensures
        first_pending(nodes, values, top) matches Some(id) ==> {
            &&& reaches(nodes, values, top, id)
            &&& is_inner(nodes, id) && nodes[id].pending()
            &&& forall|x: u64| #[trigger]
                reaches(nodes, values, top, x) && x < id && is_inner(nodes, x)
                    ==> !nodes[x].pending()
        },
        first_pending(nodes, values, top) is None ==> forall|x: u64| #[trigger]
            reaches(nodes, values, top, x) && is_inner(nodes, x) ==> !nodes[x].pending(),
    decreases u64::MAX - top,
{
    if is_inner(nodes, top) && !nodes[top].pending() {
        let c = if nodes[top]->split.routes_left(values) {
            (2 * top) as u64
        } else {
            (2 * top + 1) as u64
        };
        assert(c / 2 == top);
        law_first_pending_is_first(nodes, values, c);
        assert forall|x: u64| #[trigger] reaches(nodes, values, top, x) && x != top implies reaches(
            nodes,
            values,
            c,
            x,
        ) by {
            lemma_reaches_child(nodes, values, top, c, x);
        }
        assert forall|x: u64| #[trigger] reaches(nodes, values, c, x) implies reaches(
            nodes,
            values,
            top,
            x,
        ) by {
            lemma_reaches_above(nodes, values, top, c, x);
        }
        if first_pending(nodes, values, c) is Some {
            let id = first_pending(nodes, values, c)->0;
            assert(reaches(nodes, values, c, id));
            assert(reaches(nodes, values, top, id));
        }
    } else {
        assert forall|x: u64| #[trigger] reaches(nodes, values, top, x) && !is_inner(
            nodes,
            top,
        ) implies x == top by {
            if x != top {
                lemma_leaf_ends(nodes, values, top, x);
            }
        }
        assert forall|x: u64| #[trigger] reaches(nodes, values, top, x) implies x >= top by {}
    }
}

/// Nothing lies below a node that is not an inner one.
proof fn lemma_leaf_ends(nodes: Nodes, values: Seq<i64>, top: u64, id: u64)
    requires
        1 <= top,
        !is_inner(nodes, top),
        reaches(nodes, values, top, id),
    ensures
        id == top,
    decreases id,
{
    if id != top {
        lemma_leaf_ends(nodes, values, top, id / 2);
    }
}

/// What a row passes through below a node it passes through below the child that it goes on
/// to.
proof fn lemma_reaches_child(nodes: Nodes, values: Seq<i64>, top: u64, child: u64, id: u64)
    requires
        1 <= top <= MAX_PARENT,
        is_inner(nodes, top),
        child == (if nodes[top]->split.routes_left(values) {
            2 * top
        } else {
            2 * top + 1
        }),
        reaches(nodes, values, top, id),
        id != top,
    ensures
        reaches(nodes, values, child, id),
    decreases id,
{
    if id / 2 == top {
        assert(id == child);
    } else {
        lemma_reaches_child(nodes, values, top, child, id / 2);
        lemma_reaches_order(nodes, values, child, id / 2);
    }
}

/// What a row passes through lies below where it starts.
proof fn lemma_reaches_order(nodes: Nodes, values: Seq<i64>, top: u64, id: u64)
    requires
        reaches(nodes, values, top, id),
    ensures
        id >= top,
{
}

/// What a row passes through below the child that it goes on to it passes through below the
/// node.
proof fn lemma_reaches_above(nodes: Nodes, values: Seq<i64>, top: u64, child: u64, id: u64)
    requires
        1 <= top <= MAX_PARENT,
        is_inner(nodes, top),
        child == (if nodes[top]->split.routes_left(values) {
            2 * top
        } else {
            2 * top + 1
        }),
        reaches(nodes, values, child, id),
    ensures
        reaches(nodes, values, top, id),
    decreases id,
{
    if id == child {
        assert(id / 2 == top);
        assert(reaches(nodes, values, top, top));
    } else {
        lemma_reaches_above(nodes, values, top, child, id / 2);
    }
}

/// Of some samples those that are known are found, in order.
pub proof fn law_known_samples_are_found<S: Sample>(known: Map<u64, &S>, list: Seq<u64>)
    ensures
        found(known, list).len() == list.filter(|id: u64| known.contains_key(id)).len(),
        forall|i: int|
            0 <= i < found(known, list).len() ==> #[trigger] found(known, list)[i]
                == known[list.filter(|id: u64| known.contains_key(id))[i]],
    decreases list.len(),
{
    reveal(Seq::filter);
    if list.len() > 0 {
        law_known_samples_are_found(known, list.drop_last());
    }
}

} // verus!
