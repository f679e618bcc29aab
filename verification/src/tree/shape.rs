//! What a tree is: which samples pass through which node, and where a row ends up.

use crate::node::node_id::{
    law_level_bounds, lemma_within_children, lemma_within_order, level, within, MAX_PARENT, ROOT,
};
use crate::node::NodeView;
use crate::sample::{ids, plus, Rows, SampleData};
use crate::split::Split;
use vstd::prelude::*;

verus! {

/// The nodes of a tree by identifier.
pub type Nodes = Map<u64, NodeView>;

/// Whether a node is there and is an inner one.
pub open spec fn is_inner(nodes: Nodes, id: u64) -> bool {
    nodes.contains_key(id) && nodes[id] is Internal
}

/// Whether every node but the root hangs below an inner node, none lies too deep, and
/// inner nodes leave room for their children.
#[verifier::opaque]
pub open spec fn linked(nodes: Nodes, max_depth: int) -> bool {
    forall|id: u64| #[trigger]
        nodes.contains_key(id) ==> {
            &&& id >= 1
            &&& level(id) <= max_depth
            &&& nodes[id] is Internal ==> level(id) < max_depth
            &&& id != ROOT ==> is_inner(nodes, id / 2)
        }
}

/// Whether every inner node has both its children.
pub open spec fn full(nodes: Nodes) -> bool {
    forall|id: u64| #[trigger]
        is_inner(nodes, id) ==> id <= MAX_PARENT && nodes.contains_key((2 * id) as u64)
            && nodes.contains_key((2 * id + 1) as u64)
}

/// Whether no inner node is so deep that its children would have no identifiers.
pub open spec fn shallow(nodes: Nodes) -> bool {
    forall|id: u64| #[trigger] is_inner(nodes, id) ==> id <= MAX_PARENT
}

/// Whether every split looks at one of the first attributes.
pub open spec fn narrow(nodes: Nodes, num_attributes: u8) -> bool {
    forall|id: u64| #[trigger]
        is_inner(nodes, id) ==> nodes[id]->split.attribute() < num_attributes
}

/// Whether every split can decide about a row of values.
pub open spec fn routable(nodes: Nodes, values: Seq<i64>) -> bool {
    forall|id: u64| #[trigger] is_inner(nodes, id) ==> nodes[id]->split.applies(values)
}

/// Whether a row that starts at a top node passes through a node.
pub open spec fn reaches(nodes: Nodes, values: Seq<i64>, top: u64, id: u64) -> bool
    decreases id,
{
    id == top || (id > top && is_inner(nodes, id / 2) && reaches(nodes, values, top, id / 2)
        && nodes[id / 2]->split.routes_left(values) == (id % 2 == 0))
}

/// The samples that pass through a node when all start at a top node.
pub open spec fn arrivals(nodes: Nodes, m: Rows, top: u64, id: u64) -> Rows {
    m.filter(|d: SampleData| reaches(nodes, d.values, top, id))
}

/// The node at which a row ends that is at a node now.
pub open spec fn end_of(nodes: Nodes, values: Seq<i64>, id: u64) -> u64
    decreases u64::MAX - id,
{
    if is_inner(nodes, id) && 1 <= id <= MAX_PARENT {
        if nodes[id]->split.routes_left(values) {
            end_of(nodes, values, (2 * id) as u64)
        } else {
            end_of(nodes, values, (2 * id + 1) as u64)
        }
    } else {
        id
    }
}

/// What a tree predicts for a row: the majority at the leaf where the row ends, and
/// negative where there is no such leaf.
pub open spec fn vote(nodes: Nodes, values: Seq<i64>) -> bool {
    let end = end_of(nodes, values, ROOT);
    nodes.contains_key(end) && nodes[end].majority()
}

/// Whether every node counts exactly the samples that pass through it, and every leaf
/// names them.
pub open spec fn exact(nodes: Nodes, m: Rows) -> bool {
    forall|id: u64| #[trigger]
        nodes.contains_key(id) ==> {
            &&& nodes[id].samples() == arrivals(nodes, m, ROOT, id).len()
            &&& nodes[id].plus() == plus(arrivals(nodes, m, ROOT, id)).len()
            &&& nodes[id] is Leaf ==> nodes[id]->sample_ids == ids(arrivals(nodes, m, ROOT, id))
        }
}

/// Whether no two samples share an identifier.
pub open spec fn distinct(m: Rows) -> bool {
    forall|a: SampleData, b: SampleData|
        #![trigger m.count(a), m.count(b)]
        m.count(a) > 0 && m.count(b) > 0 && a.id == b.id ==> a == b && m.count(a) == 1
}

/// Whether a map leads from each sample to the leaf where it ends, and from nothing
/// else.
pub open spec fn mapped(nodes: Nodes, leaves: Map<u64, u64>, m: Rows) -> bool {
    &&& leaves.dom() == ids(m)
    &&& forall|d: SampleData| #[trigger]
        m.count(d) > 0 ==> leaves[d.id] == end_of(nodes, d.values, ROOT)
}

/// Whether each sample ends at a leaf.
pub open spec fn led(nodes: Nodes, m: Rows) -> bool {
    forall|d: SampleData| #[trigger]
        m.count(d) > 0 ==> nodes.contains_key(end_of(nodes, d.values, ROOT)) && nodes[end_of(
            nodes,
            d.values,
            ROOT,
        )] is Leaf
}

/// Whether two trees ask the same questions at the same nodes.
pub open spec fn same_splits(a: Nodes, b: Nodes) -> bool {
    &&& a.dom() == b.dom()
    &&& forall|id: u64| #[trigger]
        a.contains_key(id) ==> {
            &&& a[id] is Internal <==> b[id] is Internal
            &&& a[id] is Internal ==> a[id]->split == b[id]->split
        }
}

/// A row passes through the nodes of a part of a tree as that part alone decides.
pub proof fn lemma_reaches_frame(a: Nodes, b: Nodes, values: Seq<i64>, top: u64, id: u64)
    requires
        forall|x: u64| #[trigger]
            within(x, top) ==> is_inner(a, x) == is_inner(b, x) && (is_inner(a, x) ==> a[x]->split
                == b[x]->split),
    ensures
        reaches(a, values, top, id) == reaches(b, values, top, id),
    decreases id,
{
    if id > top {
        lemma_reaches_frame(a, b, values, top, id / 2);
        if reaches(a, values, top, id / 2) {
            lemma_reaches_within(a, values, top, id / 2);
        }
    }
}

/// A row stays below the node that it starts at.
pub proof fn lemma_reaches_within(nodes: Nodes, values: Seq<i64>, top: u64, id: u64)
    requires
        reaches(nodes, values, top, id),
    ensures
        within(id, top),
    decreases id,
{
    if id != top {
        lemma_reaches_within(nodes, values, top, id / 2);
    }
}

/// To pass through a node below a child is to go to the child first.
pub proof fn lemma_reaches_child(nodes: Nodes, values: Seq<i64>, top: u64, id: u64)
    requires
        is_inner(nodes, top),
        1 <= top <= MAX_PARENT,
    ensures
        within(id, (2 * top) as u64) ==> reaches(nodes, values, top, id) == (
        nodes[top]->split.routes_left(values) && reaches(nodes, values, (2 * top) as u64, id)),
        within(id, (2 * top + 1) as u64) ==> reaches(nodes, values, top, id) == (
        !nodes[top]->split.routes_left(values) && reaches(
            nodes,
            values,
            (2 * top + 1) as u64,
            id,
        )),
    decreases id,
{
    let l = (2 * top) as u64;
    let r = (2 * top + 1) as u64;
    lemma_within_children(id, top);
    if within(id, l) || within(id, r) {
        if id == l || id == r {
            assert(id / 2 == top);
            assert(reaches(nodes, values, top, top));
        } else {
            lemma_reaches_child(nodes, values, top, id / 2);
            lemma_within_children(id / 2, top);
            assert(id > top);
        }
    }
}

/// The nodes that a row passes through are those between the node that it starts at
/// and the node where it ends.
pub proof fn lemma_end_path(nodes: Nodes, values: Seq<i64>, top: u64, id: u64)
    requires
        1 <= top,
        forall|x: u64| #[trigger] is_inner(nodes, x) ==> x <= MAX_PARENT,
    ensures
        within(end_of(nodes, values, top), top),
        reaches(nodes, values, top, end_of(nodes, values, top)),
        !is_inner(nodes, end_of(nodes, values, top)),
        reaches(nodes, values, top, id) <==> within(id, top) && within(
            end_of(nodes, values, top),
            id,
        ),
    decreases u64::MAX - top,
{
    let e = end_of(nodes, values, top);
    if is_inner(nodes, top) {
        let left = nodes[top]->split.routes_left(values);
        let l = (2 * top) as u64;
        let r = (2 * top + 1) as u64;
        let c = if left { l } else { r };
        lemma_end_path(nodes, values, c, id);
        lemma_within_children(id, top);
        lemma_within_children(e, top);
        lemma_reaches_child(nodes, values, top, id);
        lemma_reaches_child(nodes, values, top, e);
        if reaches(nodes, values, top, id) {
            lemma_reaches_within(nodes, values, top, id);
        }
        if within(id, top) && within(e, id) && id != top {
            // The end lies below the chosen child, so what is between lies there too.
            if !within(id, c) {
                let o = if left { r } else { l };
                assert(within(id, o));
                crate::node::node_id::lemma_within_trans(e, id, o);
                assert(within(e, c));
                assert(within(e, l) && within(e, r));
            }
        }
    } else {
        assert(e == top);
        if reaches(nodes, values, top, id) {
            lemma_reaches_within(nodes, values, top, id);
            if id != top {
                lemma_stuck(nodes, values, top, id);
            }
        }
        if within(id, top) && within(top, id) {
            lemma_within_order(id, top);
            lemma_within_order(top, id);
        }
    }
}

/// A row that starts at a node without children stays there.
proof fn lemma_stuck(nodes: Nodes, values: Seq<i64>, top: u64, id: u64)
    requires
        !is_inner(nodes, top),
    ensures
        reaches(nodes, values, top, id) ==> id == top,
    decreases id,
{
    if id > top {
        lemma_stuck(nodes, values, top, id / 2);
    }
}

/// Where a row ends rests on the part of the tree that it starts at.
pub proof fn lemma_end_frame(a: Nodes, b: Nodes, values: Seq<i64>, top: u64)
    requires
        1 <= top,
        forall|x: u64| #[trigger]
            within(x, top) ==> is_inner(a, x) == is_inner(b, x) && (is_inner(a, x) ==> a[x]->split
                == b[x]->split),
    ensures
        end_of(a, values, top) == end_of(b, values, top),
    decreases u64::MAX - top,
{
    assert(within(top, top));
    if is_inner(a, top) && top <= MAX_PARENT {
        let c = if a[top]->split.routes_left(values) {
            (2 * top) as u64
        } else {
            (2 * top + 1) as u64
        };
        assert forall|x: u64| #[trigger] within(x, c) implies is_inner(a, x) == is_inner(b, x) && (
        is_inner(a, x) ==> a[x]->split == b[x]->split) by {
            lemma_within_children(x, top);
            assert(within(x, top));
        }
        lemma_end_frame(a, b, values, c);
    }
}

/// Inner nodes have room for their children.
pub proof fn lemma_room(nodes: Nodes, max_depth: int)
    requires
        linked(nodes, max_depth),
        max_depth <= 63,
    ensures
        forall|x: u64| #[trigger] is_inner(nodes, x) ==> 1 <= x <= MAX_PARENT,
{
    assert forall|x: u64| #[trigger] is_inner(nodes, x) implies 1 <= x <= MAX_PARENT by {
        lemma_linked_at(nodes, max_depth, x);
        law_level_bounds(x);
    }
}

/// Where a node hangs.
pub proof fn lemma_linked_at(nodes: Nodes, max_depth: int, id: u64)
    requires
        linked(nodes, max_depth),
        nodes.contains_key(id),
    ensures
        id >= 1,
        level(id) <= max_depth,
        nodes[id] is Internal ==> level(id) < max_depth,
        id != ROOT ==> is_inner(nodes, id / 2),
{
    reveal(linked);
}

/// Node identifiers are positive.
pub proof fn lemma_ids_positive(nodes: Nodes, max_depth: int)
    requires
        linked(nodes, max_depth),
    ensures
        forall|id: u64| #[trigger] nodes.contains_key(id) ==> id >= 1,
{
    assert forall|id: u64| #[trigger] nodes.contains_key(id) implies id >= 1 by {
        lemma_linked_at(nodes, max_depth, id);
    }
}

/// Trees that ask the same questions send every row the same way.
pub proof fn lemma_same_splits(a: Nodes, b: Nodes, values: Seq<i64>, id: u64)
    requires
        same_splits(a, b),
    ensures
        reaches(a, values, ROOT, id) == reaches(b, values, ROOT, id),
        end_of(a, values, ROOT) == end_of(b, values, ROOT),
{
    assert forall|x: u64| #[trigger] within(x, ROOT) implies is_inner(a, x) == is_inner(b, x) && (
    is_inner(a, x) ==> a[x]->split == b[x]->split) by {
        assert(a.contains_key(x) == b.contains_key(x));
    }
    lemma_reaches_frame(a, b, values, ROOT, id);
    lemma_end_frame(a, b, values, ROOT);
}

/// Forgetting is exact: of two trees that ask the same questions, and that both count
/// exactly the same samples, every node has the same counts, every leaf names the same
/// samples, and every row gets the same prediction. So a tree that has learnt more and
/// forgotten it again cannot be told from one that never saw it.
pub proof fn law_exact_unlearning(a: Nodes, b: Nodes, m: Rows)
    requires
        same_splits(a, b),
        exact(a, m),
        exact(b, m),
    ensures
        forall|id: u64| #[trigger]
            a.contains_key(id) ==> {
                &&& a[id].samples() == b[id].samples()
                &&& a[id].plus() == b[id].plus()
                &&& a[id] is Leaf ==> a[id]->sample_ids == b[id]->sample_ids
            },
        forall|values: Seq<i64>| #[trigger] vote(a, values) == vote(b, values),
{
    assert forall|id: u64| #[trigger] a.contains_key(id) implies {
        &&& a[id].samples() == b[id].samples()
        &&& a[id].plus() == b[id].plus()
        &&& a[id] is Leaf ==> a[id]->sample_ids == b[id]->sample_ids
    } by {
        assert(b.contains_key(id));
        assert forall|d: SampleData| reaches(a, d.values, ROOT, id) == reaches(
            b,
            d.values,
            ROOT,
            id,
        ) by {
            lemma_same_splits(a, b, d.values, id);
        }
        assert(arrivals(a, m, ROOT, id) =~= arrivals(b, m, ROOT, id));
    }
    assert forall|values: Seq<i64>| #[trigger] vote(a, values) == vote(b, values) by {
        lemma_same_splits(a, b, values, ROOT);
        let end = end_of(a, values, ROOT);
        assert(a.contains_key(end) == b.contains_key(end));
    }
}

/// The nodes of a tree after a sample has come: those that it passes through have
/// counted it, and all others are as before.
pub open spec fn learnt(a: Nodes, b: Nodes, d: SampleData) -> bool {
    &&& same_splits(a, b)
    &&& forall|id: u64| #[trigger]
        a.contains_key(id) ==> {
            let n = if reaches(a, d.values, ROOT, id) {
                a[id].with_sample(d.id, d.label)
            } else {
                a[id]
            };
            &&& b[id].samples() == n.samples()
            &&& b[id].plus() == n.plus()
            &&& a[id] is Leaf ==> b[id]->sample_ids == n->sample_ids
        }
}

/// The nodes of a tree after a sample has gone.
pub open spec fn forgotten(a: Nodes, b: Nodes, d: SampleData) -> bool {
    &&& same_splits(a, b)
    &&& forall|id: u64| #[trigger]
        a.contains_key(id) ==> {
            let n = if reaches(a, d.values, ROOT, id) {
                a[id].without_sample(d.id, d.label)
            } else {
                a[id]
            };
            &&& b[id].samples() == n.samples()
            &&& b[id].plus() == n.plus()
            &&& a[id] is Leaf ==> b[id]->sample_ids == n->sample_ids
        }
}

/// Learning keeps every count exact: a tree that counts exactly some samples counts
/// exactly those and the new one afterwards.
pub proof fn law_learning_is_exact(a: Nodes, b: Nodes, m: Rows, d: SampleData)
    requires
        exact(a, m),
        learnt(a, b, d),
        m.len() < u32::MAX,
    ensures
        exact(b, m.insert(d)),
{
    assert forall|id: u64| #[trigger] b.contains_key(id) implies {
        &&& b[id].samples() == arrivals(b, m.insert(d), ROOT, id).len()
        &&& b[id].plus() == plus(arrivals(b, m.insert(d), ROOT, id)).len()
        &&& b[id] is Leaf ==> b[id]->sample_ids == ids(arrivals(b, m.insert(d), ROOT, id))
    } by {
        assert(a.contains_key(id));
        let old = arrivals(a, m, ROOT, id);
        let new = arrivals(b, m.insert(d), ROOT, id);
        assert forall|x: SampleData| reaches(a, x.values, ROOT, id) == reaches(
            b,
            x.values,
            ROOT,
            id,
        ) by {
            lemma_same_splits(a, b, x.values, id);
        }
        lemma_part(m, |x: SampleData| reaches(a, x.values, ROOT, id));
        crate::sample::lemma_plus(old);
        if reaches(a, d.values, ROOT, id) {
            assert(new =~= old.insert(d));
            lemma_ids_insert(old, d);
            crate::sample::lemma_insert_parts(
                old,
                d,
                Split::Numerical { attribute_index: 0, threshold: 0 },
            );
        } else {
            assert(new =~= old);
        }
    }
}

/// Forgetting keeps every count exact: a tree that counts exactly some samples counts
/// exactly those without the forgotten one afterwards.
pub proof fn law_forgetting_is_exact(a: Nodes, b: Nodes, m: Rows, d: SampleData)
    requires
        exact(a, m),
        distinct(m),
        m.count(d) > 0,
        forgotten(a, b, d),
    ensures
        exact(b, m.remove(d)),
        distinct(m.remove(d)),
{
    assert forall|id: u64| #[trigger] b.contains_key(id) implies {
        &&& b[id].samples() == arrivals(b, m.remove(d), ROOT, id).len()
        &&& b[id].plus() == plus(arrivals(b, m.remove(d), ROOT, id)).len()
        &&& b[id] is Leaf ==> b[id]->sample_ids == ids(arrivals(b, m.remove(d), ROOT, id))
    } by {
        assert(a.contains_key(id));
        let old = arrivals(a, m, ROOT, id);
        let new = arrivals(b, m.remove(d), ROOT, id);
        assert forall|x: SampleData| reaches(a, x.values, ROOT, id) == reaches(
            b,
            x.values,
            ROOT,
            id,
        ) by {
            lemma_same_splits(a, b, x.values, id);
        }
        if reaches(a, d.values, ROOT, id) {
            assert(new =~= old.remove(d));
            assert(old =~= new.insert(d));
            lemma_ids_insert(new, d);
            crate::sample::lemma_insert_parts(
                new,
                d,
                Split::Numerical { attribute_index: 0, threshold: 0 },
            );
            assert(!ids(new).contains(d.id)) by {
                if ids(new).contains(d.id) {
                    let x = choose|x: SampleData| new.count(x) > 0 && #[trigger] x.id == d.id;
                    assert(m.count(x) > 0);
                    assert(x == d);
                }
            }
            assert(ids(old).remove(d.id) =~= ids(new));
            if a[id] is Leaf {
                assert(ids(old).contains(d.id));
            }
        } else {
            assert(new =~= old);
        }
    }
    assert forall|x: SampleData, y: SampleData|
        #![trigger m.remove(d).count(x), m.remove(d).count(y)]
        m.remove(d).count(x) > 0 && m.remove(d).count(y) > 0 && x.id == y.id implies x == y
        && m.remove(d).count(x) == 1 by {
        assert(m.count(x) > 0 && m.count(y) > 0);
    }
}

/// A part has no more samples than the whole.
pub proof fn lemma_part(m: Rows, f: spec_fn(SampleData) -> bool)
    ensures
        m.filter(f).len() <= m.len(),
{
    let rest = m.filter(|d: SampleData| !f(d));
    assert(m.filter(f).add(rest) =~= m);
}

/// One sample more brings one identifier more, or one that was there.
pub proof fn lemma_ids_insert(m: Rows, d: SampleData)
    ensures
        ids(m.insert(d)) == ids(m).insert(d.id),
{
    assert forall|id: u64| ids(m.insert(d)).contains(id) == ids(m).insert(d.id).contains(id) by {
        if ids(m.insert(d)).contains(id) {
            let x = choose|x: SampleData| m.insert(d).count(x) > 0 && #[trigger] x.id == id;
            assert(x == d || m.count(x) > 0);
        }
        if ids(m).contains(id) {
            let x = choose|x: SampleData| m.count(x) > 0 && #[trigger] x.id == id;
            assert(m.insert(d).count(x) > 0);
        }
        if id == d.id {
            assert(m.insert(d).count(d) > 0);
        }
    }
    assert(ids(m.insert(d)) =~= ids(m).insert(d.id));
}

} // verus!
