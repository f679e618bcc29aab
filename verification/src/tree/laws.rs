//! What learning and forgetting do to the counts of a tree.

use super::shape::{
    arrivals, distinct, end_of, exact, forgotten, full, is_inner, law_forgetting_is_exact,
    law_learning_is_exact, learnt, led, lemma_end_path, lemma_ids_insert, lemma_same_splits,
    mapped, reaches, same_splits, shallow, vote, Nodes,
};
use super::stream::{lemma_above_is_inner, nodes_added, nodes_removed, single_leaf, Change};
use crate::node::node_id::{lemma_within_root, within, MAX_PARENT, ROOT};
use crate::sample::{ids, plus, Rows, SampleData};
use crate::streaming::StateView;
use vstd::multiset::Multiset;
use vstd::prelude::*;

verus! {

/// Whether a tree counts exactly some samples and leads each of them to its leaf.
pub open spec fn represents(nodes: Nodes, leaves: Map<u64, u64>, m: Rows) -> bool {
    &&& exact(nodes, m)
    &&& shallow(nodes)
    &&& distinct(m)
    &&& led(nodes, m)
    &&& mapped(nodes, leaves, m)
    &&& m.len() > 0 ==> nodes.contains_key(ROOT)
}

/// Where every inner node has its children, every row ends at a node.
pub proof fn lemma_end_exists(nodes: Nodes, values: Seq<i64>, top: u64)
    requires
        full(nodes),
        top >= 1,
        nodes.contains_key(top),
    ensures
        nodes.contains_key(end_of(nodes, values, top)),
        nodes[end_of(nodes, values, top)] is Leaf,
    decreases u64::MAX - top,
{
    if is_inner(nodes, top) {
        let c = if nodes[top]->split.routes_left(values) {
            (2 * top) as u64
        } else {
            (2 * top + 1) as u64
        };
        lemma_end_exists(nodes, values, c);
    }
}

/// Where every inner node has its children, each sample ends at a leaf.
pub proof fn lemma_full_leads(nodes: Nodes, m: Rows)
    requires
        full(nodes),
        m.len() > 0 ==> nodes.contains_key(ROOT),
    ensures
        shallow(nodes),
        led(nodes, m),
{
    assert forall|d: SampleData| #[trigger] m.count(d) > 0 implies nodes.contains_key(
        end_of(nodes, d.values, ROOT),
    ) && nodes[end_of(nodes, d.values, ROOT)] is Leaf by {
        assert(m.len() > 0);
        lemma_end_exists(nodes, d.values, ROOT);
    }
}

/// Trees that ask the same questions lead each sample to the same node, and have the same
/// children below their nodes.
proof fn lemma_same_shape(a: Nodes, b: Nodes)
    requires
        same_splits(a, b),
        shallow(a),
    ensures
        shallow(b),
        full(a) ==> full(b),
        forall|values: Seq<i64>| #[trigger]
            end_of(b, values, ROOT) == end_of(a, values, ROOT),
{
    assert forall|id: u64| #[trigger] is_inner(b, id) implies id <= MAX_PARENT by {
        assert(is_inner(a, id));
    }
    if full(a) {
        assert forall|id: u64| #[trigger] is_inner(b, id) implies id <= MAX_PARENT
            && b.contains_key((2 * id) as u64) && b.contains_key((2 * id + 1) as u64) by {
            assert(is_inner(a, id));
            assert(a.contains_key((2 * id) as u64) == b.contains_key((2 * id) as u64));
            assert(a.contains_key((2 * id + 1) as u64) == b.contains_key((2 * id + 1) as u64));
        }
    }
    assert forall|values: Seq<i64>| #[trigger] end_of(b, values, ROOT) == end_of(
        a,
        values,
        ROOT,
    ) by {
        lemma_same_splits(a, b, values, ROOT);
    }
}

/// A tree that represents some samples represents those and a new one after the new one
/// has been added, if the new one ends at a leaf. Where every inner node has its children
/// it does, and every inner node still has them afterwards.
pub proof fn law_tree_learns_exactly(
    nodes: Nodes,
    states: Map<u64, StateView>,
    streams: bool,
    leaves: Map<u64, u64>,
    m: Rows,
    d: SampleData,
    c: Change,
)
    requires
        represents(nodes, leaves, m),
        nodes.contains_key(ROOT),
        full(nodes) || nodes.contains_key(end_of(nodes, d.values, ROOT)),
        m.len() < u32::MAX,
        !ids(m).contains(d.id),
        c.id == d.id,
        c.route == d.values,
        c.label == d.label,
    ensures
        full(nodes) ==> full(nodes_added(nodes, states, streams, c)),
        represents(
            nodes_added(nodes, states, streams, c),
            leaves.insert(d.id, end_of(nodes, d.values, ROOT)),
            m.insert(d),
        ),
{
    let after = nodes_added(nodes, states, streams, c);
    let to = leaves.insert(d.id, end_of(nodes, d.values, ROOT));
    let more = m.insert(d);
    assert(after.dom() =~= nodes.dom());
    assert(learnt(nodes, after, d));
    law_learning_is_exact(nodes, after, m, d);
    lemma_same_shape(nodes, after);
    if full(nodes) {
        lemma_end_exists(nodes, d.values, ROOT);
    }
    lemma_end_path(nodes, d.values, ROOT, ROOT);
    lemma_ids_insert(m, d);
    assert(m.count(d) == 0) by {
        if m.count(d) > 0 {
            assert(ids(m).contains(d.id));
        }
    }
    assert forall|a: SampleData, b: SampleData|
        #![trigger more.count(a), more.count(b)]
        more.count(a) > 0 && more.count(b) > 0 && a.id == b.id implies a == b && more.count(a)
        == 1 by {
        if a != d {
            assert(m.count(a) > 0);
            assert(ids(m).contains(a.id));
        }
        if b != d {
            assert(m.count(b) > 0);
            assert(ids(m).contains(b.id));
        }
    }
    assert(to.dom() =~= ids(more));
    assert forall|x: SampleData| #[trigger] more.count(x) > 0 implies after.contains_key(
        end_of(after, x.values, ROOT),
    ) && after[end_of(after, x.values, ROOT)] is Leaf by {
        if x != d {
            assert(m.count(x) > 0);
        }
    }
    assert forall|x: SampleData| #[trigger] more.count(x) > 0 implies to[x.id] == end_of(
        after,
        x.values,
        ROOT,
    ) by {
        if x != d {
            assert(m.count(x) > 0);
            assert(ids(m).contains(x.id));
        }
    }
}

/// A tree that has taken a sample out of the counts on its way represents the other
/// samples.
pub proof fn lemma_forgotten_represents(
    nodes: Nodes,
    after: Nodes,
    leaves: Map<u64, u64>,
    m: Rows,
    d: SampleData,
)
    requires
        represents(nodes, leaves, m),
        m.count(d) > 0,
        forgotten(nodes, after, d),
    ensures
        represents(after, leaves.remove(d.id), m.remove(d)),
        full(nodes) ==> full(after),
{
    let less = m.remove(d);
    let to = leaves.remove(d.id);
    law_forgetting_is_exact(nodes, after, m, d);
    lemma_same_shape(nodes, after);
    assert(m =~= less.insert(d));
    lemma_ids_insert(less, d);
    assert(!ids(less).contains(d.id)) by {
        if ids(less).contains(d.id) {
            let x = choose|x: SampleData| less.count(x) > 0 && #[trigger] x.id == d.id;
            assert(m.count(x) > 0);
            assert(x == d);
        }
    }
    assert(to.dom() =~= ids(less));
    assert forall|x: SampleData| #[trigger] less.count(x) > 0 implies after.contains_key(
        end_of(after, x.values, ROOT),
    ) && after[end_of(after, x.values, ROOT)] is Leaf by {
        assert(m.count(x) > 0);
    }
    assert forall|x: SampleData| #[trigger] less.count(x) > 0 implies to[x.id] == end_of(
        after,
        x.values,
        ROOT,
    ) by {
        assert(m.count(x) > 0);
        assert(ids(less).contains(x.id));
    }
}

/// A tree that represents some samples represents those without one of them after that
/// one has been removed.
pub proof fn law_tree_forgets_exactly(
    nodes: Nodes,
    states: Map<u64, StateView>,
    streams: bool,
    leaves: Map<u64, u64>,
    m: Rows,
    d: SampleData,
    c: Change,
)
    requires
        represents(nodes, leaves, m),
        m.count(d) > 0,
        c.id == d.id,
        c.label == d.label,
    ensures
        represents(
            nodes_removed(nodes, states, streams, leaves[d.id], c),
            leaves.remove(d.id),
            m.remove(d),
        ),
        full(nodes) ==> full(nodes_removed(nodes, states, streams, leaves[d.id], c)),
{
    let leaf = leaves[d.id];
    let after = nodes_removed(nodes, states, streams, leaf, c);
    assert(leaf == end_of(nodes, d.values, ROOT));
    assert(after.dom() =~= nodes.dom());
    assert(exact(nodes, m));
    assert forall|id: u64| nodes.contains_key(id) && id == 0 implies nodes[id].samples() == 0
        && nodes[id].plus() == 0 && (nodes[id] is Leaf ==> nodes[id]->sample_ids
        == Set::<u64>::empty()) by {
        let part = arrivals(nodes, m, ROOT, 0);
        assert(part =~= Multiset::<SampleData>::empty());
        assert(plus(part) =~= Multiset::<SampleData>::empty());
        assert(ids(part) =~= Set::<u64>::empty());
    }
    assert(forgotten(nodes, after, d)) by {
        assert forall|id: u64| #[trigger] nodes.contains_key(id) implies {
            let n = if reaches(nodes, d.values, ROOT, id) {
                nodes[id].without_sample(d.id, d.label)
            } else {
                nodes[id]
            };
            &&& after[id].samples() == n.samples()
            &&& after[id].plus() == n.plus()
            &&& nodes[id] is Leaf ==> after[id]->sample_ids == n->sample_ids
        } by {
            lemma_end_path(nodes, d.values, ROOT, id);
            if id >= 1 {
                lemma_within_root(id);
                if within(leaf, id) && id != leaf {
                    lemma_above_is_inner(nodes, d.values, leaf, id);
                }
            }
        }
    }
    lemma_forgotten_represents(nodes, after, leaves, m, d);
}

/// A tree that has learnt a sample and forgotten it again predicts as it did before, for
/// every row, if the sample ended at a leaf.
pub proof fn law_forgetting_undoes_learning(
    nodes: Nodes,
    states: Map<u64, StateView>,
    later: Map<u64, StateView>,
    streams: bool,
    leaves: Map<u64, u64>,
    m: Rows,
    d: SampleData,
    come: Change,
    go: Change,
    values: Seq<i64>,
)
    requires
        represents(nodes, leaves, m),
        nodes.contains_key(ROOT),
        nodes.contains_key(end_of(nodes, d.values, ROOT)),
        m.len() < u32::MAX,
        !ids(m).contains(d.id),
        come.id == d.id,
        come.route == d.values,
        come.label == d.label,
        go.id == d.id,
        go.label == d.label,
    ensures
        ({
            let end = end_of(nodes, d.values, ROOT);
            let learnt = nodes_added(nodes, states, streams, come);
            let forgot = nodes_removed(learnt, later, streams, end, go);
            &&& vote(forgot, values) == vote(nodes, values)
            &&& represents(forgot, leaves, m)
        }),
{
    let end = end_of(nodes, d.values, ROOT);
    let more = nodes_added(nodes, states, streams, come);
    let to = leaves.insert(d.id, end);
    let forgot = nodes_removed(more, later, streams, end, go);
    law_tree_learns_exactly(nodes, states, streams, leaves, m, d, come);
    law_tree_forgets_exactly(more, later, streams, to, m.insert(d), d, go);
    assert(m.insert(d).remove(d) =~= m);
    assert(!leaves.contains_key(d.id)) by {
        assert(leaves.dom().contains(d.id) == ids(m).contains(d.id));
    }
    assert(to.remove(d.id) =~= leaves);
    assert(same_splits(nodes, forgot)) by {
        assert(nodes.dom() =~= forgot.dom());
    }
    super::shape::law_exact_unlearning(nodes, forgot, m);
}

/// A tree without nodes that has learnt its first sample represents it.
pub proof fn law_first_sample(leaves: Map<u64, u64>, d: SampleData)
    requires
        leaves.dom().is_empty(),
    ensures
        represents(
            single_leaf(d),
            leaves.insert(d.id, ROOT),
            Multiset::<SampleData>::empty().insert(d),
        ),
        full(single_leaf(d)),
{
    let none = Multiset::<SampleData>::empty();
    let m = none.insert(d);
    let nodes = single_leaf(d);
    let to = leaves.insert(d.id, ROOT);
    assert(arrivals(nodes, m, ROOT, ROOT) =~= m);
    lemma_ids_insert(none, d);
    assert(ids(none) =~= Set::<u64>::empty());
    assert(plus(none) =~= none);
    crate::sample::lemma_insert_parts(
        none,
        d,
        crate::split::Split::Numerical { attribute_index: 0, threshold: 0 },
    );
    assert forall|id: u64| !leaves.contains_key(id) by {
        assert(!leaves.dom().contains(id));
    }
    assert(to.dom() =~= ids(m));
}

} // verus!
