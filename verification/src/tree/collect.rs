//! Gathering what lies below a node, and clearing it away.

use super::shape::{is_inner, lemma_linked_at, lemma_room, linked, Nodes};
use super::DynFrsTree;
use crate::node::node_id::{
    law_level_bounds, law_parent_of_child, left_child, lemma_within_children, lemma_within_order,
    lemma_within_root, level, right_child, within, MAX_PARENT, ROOT,
};
use crate::node::{Node, NodeView};
use crate::random::draw_seed;
use crate::sample::Sample;
use crate::split::Split;
use crate::streaming::{
    row_views, DelayTag, Row, RowView, StateView, StatsView, StreamingNodeState, P_COUNT,
};
use crate::table::IdTable;
use vstd::prelude::*;

verus! {

/// Whether a list names the samples of the leaves below a node, leaf by leaf from left
/// to right, those of one leaf in any order.
pub open spec fn lists(nodes: Nodes, top: u64, list: Seq<u64>) -> bool
    decreases u64::MAX - top,
{
    if !nodes.contains_key(top) || top == 0 {
        list.len() == 0
    } else {
        match nodes[top] {
            NodeView::Leaf { sample_ids, .. } => list.no_duplicates() && list.to_set()
                == sample_ids,
            NodeView::Internal { .. } => top <= MAX_PARENT && exists|k: int|
                0 <= k <= list.len() && lists(nodes, (2 * top) as u64, #[trigger] list.take(k))
                    && lists(nodes, (2 * top + 1) as u64, list.skip(k)),
        }
    }
}

/// The samples that are named by the leaves below a node.
pub open spec fn named_below(nodes: Nodes, top: u64) -> Set<u64> {
    Set::new(
        |sid: u64|
            exists|id: u64| #[trigger]
                nodes.contains_key(id) && within(id, top) && nodes[id] is Leaf
                    && nodes[id]->sample_ids.contains(sid),
    )
}

/// The nodes without what lies below a node.
pub open spec fn pruned(nodes: Nodes, top: u64) -> Nodes {
    nodes.remove_keys(Set::new(|id: u64| within(id, top) && id != top))
}

/// The nodes without a node and what lies below it.
pub open spec fn felled(nodes: Nodes, top: u64) -> Nodes {
    nodes.remove_keys(Set::new(|id: u64| within(id, top)))
}

/// A map in which some keys have been taken out and others lead to one place.
pub open spec fn relead(
    leaves: Map<u64, u64>,
    gone: Set<u64>,
    come: Set<u64>,
    to: u64,
) -> Map<u64, u64> {
    Map::new(
        |sid: u64| come.contains(sid) || (leaves.contains_key(sid) && !gone.contains(sid)),
        |sid: u64|
            if come.contains(sid) {
                to
            } else {
                leaves[sid]
            },
    )
}

/// The row of a sample that may be known; an unknown sample has no values and is
/// negative.
pub open spec fn row_of<S: Sample>(known: Map<u64, &S>, width: u8, id: u64) -> RowView {
    if known.contains_key(id) {
        RowView {
            values: known[id].data().values.take(width as int),
            label: known[id].data().label,
        }
    } else {
        RowView { values: Seq::empty(), label: false }
    }
}

/// The rows of some samples.
pub open spec fn rows_of<S: Sample>(
    known: Map<u64, &S>,
    width: u8,
    list: Seq<u64>,
) -> Seq<RowView> {
    Seq::new(list.len(), |i: int| row_of(known, width, list[i]))
}

/// Whether every known sample has a value for each attribute.
pub open spec fn all_wide<S: Sample>(known: Map<u64, &S>, width: u8) -> bool {
    forall|id: u64| #[trigger]
        known.contains_key(id) ==> known[id].data().values.len() >= width
}

/// Whether a state has just been made for a node.
pub open spec fn state_made<S: Sample>(
    s: StateView,
    known: Map<u64, &S>,
    width: u8,
    nodes: Nodes,
    id: u64,
    depth: u32,
) -> bool {
    &&& lists(nodes, id, s.sample_ids)
    &&& s.attr_stats.redrawn(
        StatsView {
            num_attributes: width,
            total_samples: 0,
            total_positive: 0,
            candidates: Seq::empty(),
            constant: Seq::new(width as nat, |i: int| false),
        },
        rows_of(known, width, s.sample_ids),
        P_COUNT as int,
    )
    &&& s.delay == DelayTag::NoDelay
    &&& s.depth == depth
    &&& match nodes[id] {
        NodeView::Leaf { .. } => s.split_attr is None && s.split_threshold == 0,
        NodeView::Internal { split, .. } => s.split_attr == Some(split.attribute()) && (match split {
            Split::Numerical { threshold, .. } => s.split_threshold == threshold,
            Split::Categorical { .. } => s.split_threshold == 0,
        }),
    }
}

/// Whether the states of the nodes below a node have just been made, and the others are
/// as they were.
pub open spec fn states_made<S: Sample>(
    before: Map<u64, StateView>,
    after: Map<u64, StateView>,
    known: Map<u64, &S>,
    width: u8,
    nodes: Nodes,
    top: u64,
) -> bool {
    forall|id: u64|
        #![trigger after.contains_key(id)]
        #![trigger before.contains_key(id)]
        if nodes.contains_key(id) && within(id, top) {
            after.contains_key(id) && state_made(
                after[id],
                known,
                width,
                nodes,
                id,
                level(id) as u32,
            )
        } else {
            after.contains_key(id) == before.contains_key(id) && (after.contains_key(id)
                ==> after[id] == before[id])
        }
}

/// What hangs below a node hangs on it.
pub proof fn lemma_linked_up(nodes: Nodes, max_depth: int, id: u64, top: u64)
    requires
        linked(nodes, max_depth),
        nodes.contains_key(id),
        within(id, top),
        top >= 1,
    ensures
        nodes.contains_key(top),
        id != top ==> is_inner(nodes, top),
    decreases id,
{
    lemma_linked_at(nodes, max_depth, id);
    if id != top {
        assert(within(id / 2, top));
        assert(id != ROOT) by {
            lemma_within_order(id / 2, top);
        }
        assert(is_inner(nodes, id / 2));
        if id / 2 != top {
            lemma_linked_up(nodes, max_depth, id / 2, top);
        }
    }
}

/// Below a leaf there is nothing.
pub proof fn lemma_nothing_below(nodes: Nodes, max_depth: int, id: u64, top: u64)
    requires
        linked(nodes, max_depth),
        top >= 1,
        !is_inner(nodes, top),
        within(id, top),
        id != top,
    ensures
        !nodes.contains_key(id),
{
    if nodes.contains_key(id) {
        lemma_linked_up(nodes, max_depth, id, top);
    }
}

/// A list of the samples below a node names exactly them.
pub proof fn lemma_lists_named(nodes: Nodes, max_depth: int, top: u64, list: Seq<u64>)
    requires
        linked(nodes, max_depth),
        top >= 1,
        lists(nodes, top, list),
    ensures
        list.to_set() == named_below(nodes, top),
    decreases u64::MAX - top,
{
    if !nodes.contains_key(top) {
        assert forall|id: u64| within(id, top) implies !nodes.contains_key(id) by {
            if nodes.contains_key(id) {
                lemma_linked_up(nodes, max_depth, id, top);
            }
        }
        assert(list.to_set() =~= named_below(nodes, top));
    } else if nodes[top] is Leaf {
        assert forall|id: u64| within(id, top) && id != top implies !nodes.contains_key(id) by {
            lemma_nothing_below(nodes, max_depth, id, top);
        }
        assert(within(top, top));
        assert(list.to_set() =~= named_below(nodes, top)) by {
            assert forall|sid: u64| nodes[top]->sample_ids.contains(sid) implies named_below(
                nodes,
                top,
            ).contains(sid) by {
                assert(nodes.contains_key(top) && within(top, top));
            }
        }
    } else {
        let l = (2 * top) as u64;
        let r = (2 * top + 1) as u64;
        let k = choose|k: int|
            0 <= k <= list.len() && lists(nodes, l, #[trigger] list.take(k)) && lists(
                nodes,
                r,
                list.skip(k),
            );
        lemma_lists_named(nodes, max_depth, l, list.take(k));
        lemma_lists_named(nodes, max_depth, r, list.skip(k));
        assert forall|sid: u64| list.to_set().contains(sid) == named_below(nodes, top).contains(
            sid,
        ) by {
            if list.to_set().contains(sid) {
                let i = choose|i: int| 0 <= i < list.len() && list[i] == sid;
                if i < k {
                    assert(list.take(k)[i] == sid);
                    assert(list.take(k).to_set().contains(sid));
                    assert(named_below(nodes, l).contains(sid));
                    let id = choose|id: u64| #[trigger]
                        nodes.contains_key(id) && within(id, l) && nodes[id] is Leaf
                            && nodes[id]->sample_ids.contains(sid);
                    lemma_within_children(id, top);
                    assert(nodes.contains_key(id) && within(id, top));
                } else {
                    assert(list.skip(k)[i - k] == sid);
                    assert(list.skip(k).to_set().contains(sid));
                    assert(named_below(nodes, r).contains(sid));
                    let id = choose|id: u64| #[trigger]
                        nodes.contains_key(id) && within(id, r) && nodes[id] is Leaf
                            && nodes[id]->sample_ids.contains(sid);
                    lemma_within_children(id, top);
                    assert(nodes.contains_key(id) && within(id, top));
                }
            }
            if named_below(nodes, top).contains(sid) {
                let id = choose|id: u64| #[trigger]
                    nodes.contains_key(id) && within(id, top) && nodes[id] is Leaf
                        && nodes[id]->sample_ids.contains(sid);
                lemma_within_children(id, top);
                if within(id, l) {
                    assert(named_below(nodes, l).contains(sid));
                    assert(list.take(k).to_set().contains(sid));
                    let i = choose|i: int| 0 <= i < k && list.take(k)[i] == sid;
                    assert(list[i] == sid);
                } else {
                    assert(named_below(nodes, r).contains(sid));
                    assert(list.skip(k).to_set().contains(sid));
                    let i = choose|i: int| 0 <= i < list.len() - k && list.skip(k)[i] == sid;
                    assert(list[i + k] == sid);
                }
            }
        }
        assert(list.to_set() =~= named_below(nodes, top));
    }
}

/// A list of the samples below a node rests on the nodes there.
pub proof fn lemma_lists_frame(a: Nodes, b: Nodes, top: u64, list: Seq<u64>)
    requires
        top >= 1,
        lists(a, top, list),
        forall|id: u64| #[trigger]
            within(id, top) ==> a.contains_key(id) == b.contains_key(id) && (a.contains_key(id)
                ==> (a[id] is Leaf) == (b[id] is Leaf) && (a[id] is Leaf ==> a[id]->sample_ids
                == b[id]->sample_ids)),
    ensures
        lists(b, top, list),
    decreases u64::MAX - top,
{
    assert(within(top, top));
    if a.contains_key(top) && a[top] is Internal {
        let l = (2 * top) as u64;
        let r = (2 * top + 1) as u64;
        let k = choose|k: int|
            0 <= k <= list.len() && lists(a, l, #[trigger] list.take(k)) && lists(
                a,
                r,
                list.skip(k),
            );
        assert forall|id: u64|
            #![trigger within(id, l)]
            #![trigger within(id, r)]
            within(id, l) || within(id, r) implies within(id, top) by {
            lemma_within_children(id, top);
        }
        lemma_lists_frame(a, b, l, list.take(k));
        lemma_lists_frame(a, b, r, list.skip(k));
        assert(lists(b, l, list.take(k)) && lists(b, r, list.skip(k)));
    }
}

impl DynFrsTree {
    /// Where there is a node there is a root.
    pub proof fn lemma_node_has_root(&self, id: u64)
        requires
            self.wf(),
            self.structure().contains_key(id),
        ensures
            self.structure().contains_key(ROOT),
    {
        lemma_linked_at(self.structure(), self.config.max_depth as int, id);
        lemma_within_root(id);
        lemma_linked_up(self.structure(), self.config.max_depth as int, id, ROOT);
    }

    /// Lists the samples of the leaves below a node.
    pub(super) fn collect_samples_from_subtree(&self, node_id: u64) -> (r: Vec<u64>)
        requires
            self.wf(),
            node_id >= 1,
        ensures
            lists(self.structure(), node_id, r@),
    {
        let mut sample_ids: Vec<u64> = Vec::new();
        self.collect_samples_recursive(node_id, &mut sample_ids);
        assert(sample_ids@.skip(0) =~= sample_ids@);
        sample_ids
    }

    /// Appends the samples of the leaves below a node to a list.
    fn collect_samples_recursive(&self, node_id: u64, sample_ids: &mut Vec<u64>)
        requires
            self.wf(),
            node_id >= 1,
        ensures
            old(sample_ids)@.len() <= final(sample_ids)@.len(),
            final(sample_ids)@.take(old(sample_ids)@.len() as int) == old(sample_ids)@,
            lists(
                self.structure(),
                node_id,
                final(sample_ids)@.skip(old(sample_ids)@.len() as int),
            ),
        decreases u64::MAX - node_id,
    {
        let ghost nodes = self.structure();
        let ghost before = sample_ids@;
        match self.nodes.get(node_id) {
            Some(node) => {
                assert(nodes.contains_key(node_id) && nodes[node_id] == node@);
                match node {
                    Node::Leaf { sample_ids: named, .. } => {
                        let n: usize = named.len();
                        let mut i: usize = 0;
                        while i < n
                            invariant
                                i <= n == named.order().len(),
                                sample_ids@ == before + named.order().take(i as int),
                            decreases n - i,
                        {
                            sample_ids.push(named.key_at(i));
                            assert(sample_ids@ =~= before + named.order().take(i as int + 1));
                            i = i + 1;
                        }
                        assert(sample_ids@.skip(before.len() as int) =~= named.order());
                        assert(sample_ids@.take(before.len() as int) =~= before);
                    },
                    Node::Internal { .. } => {
                        proof {
                            lemma_room(nodes, self.config.max_depth as int);
                            assert(is_inner(nodes, node_id));
                        }
                        self.collect_samples_recursive(left_child(node_id), sample_ids);
                        let ghost middle = sample_ids@;
                        self.collect_samples_recursive(right_child(node_id), sample_ids);
                        proof {
                            let all = sample_ids@;
                            let b = before.len() as int;
                            let k = middle.len() - before.len();
                            let list = all.skip(b);
                            assert(middle.skip(b) =~= list.take(k)) by {
                                assert(all.take(middle.len() as int) =~= middle);
                                assert forall|i: int| 0 <= i < k implies middle.skip(b)[i]
                                    == list.take(k)[i] by {
                                    assert(all.take(middle.len() as int)[b + i] == all[b + i]);
                                }
                            }
                            assert(all.skip(middle.len() as int) =~= list.skip(k));
                            assert(all.take(b) =~= before) by {
                                assert forall|i: int| 0 <= i < b implies all[i] == before[i] by {
                                    assert(all.take(middle.len() as int)[i] == all[i]);
                                    assert(middle.take(b)[i] == middle[i]);
                                }
                            }
                            assert(lists(nodes, (2 * node_id) as u64, list.take(k)));
                        }
                    },
                }
            },
            None => {
                assert(sample_ids@.skip(before.len() as int) =~= Seq::<u64>::empty());
                assert(sample_ids@.take(before.len() as int) =~= before);
            },
        }
    }

    /// Takes out the nodes below a node.
    pub(super) fn remove_subtree_batch(&mut self, node_id: u64)
        requires
            old(self).wf(),
            node_id >= 1,
        ensures
            final(self).same_but_nodes(old(self)),
            final(self).wf_states(),
            final(self).states() == old(self).states(),
            final(self).placement() == old(self).placement(),
            final(self).same_setting(old(self)),
            final(self).structure() == pruned(old(self).structure(), node_id),
    {
        let mut nodes_to_remove: Vec<u64> = Vec::new();
        self.collect_subtree_nodes(node_id, &mut nodes_to_remove);
        let ghost all = nodes_to_remove@;
        let mut i: usize = 0;
        while i < nodes_to_remove.len()
            invariant
                i <= nodes_to_remove@.len(),
                all == nodes_to_remove@,
                self.same_but_nodes(old(self)),
                self.nodes@ == old(self).nodes@.remove_keys(all.take(i as int).to_set()),
            decreases nodes_to_remove@.len() - i,
        {
            let id: u64 = nodes_to_remove[i];
            self.nodes.remove(id);
            proof {
                assert(all.take(i as int + 1).to_set() =~= all.take(i as int).to_set().insert(
                    id,
                )) by {
                    assert(all.take(i as int + 1) =~= all.take(i as int).push(id));
                    assert forall|x: u64| all.take(i as int + 1).to_set().contains(x) == all.take(
                        i as int,
                    ).to_set().insert(id).contains(x) by {
                        if all.take(i as int).to_set().contains(x) {
                            let j = choose|j: int| 0 <= j < i && all.take(i as int)[j] == x;
                            assert(all.take(i as int + 1)[j] == x);
                        }
                        if x == id {
                            assert(all.take(i as int + 1)[i as int] == x);
                        }
                    }
                }
                assert(self.nodes@ =~= old(self).nodes@.remove_keys(
                    all.take(i as int + 1).to_set(),
                ));
            }
            i = i + 1;
        }
        proof {
            assert(all.take(i as int) =~= all);
            assert(self.structure() =~= pruned(old(self).structure(), node_id));
        }
    }

    /// Lists the nodes below a node.
    fn collect_subtree_nodes(&self, node_id: u64, result: &mut Vec<u64>)
        requires
            self.wf(),
            node_id >= 1,
        ensures
            forall|id: u64| #[trigger]
                final(result)@.contains(id) <==> old(result)@.contains(id) || (
                self.structure().contains_key(id) && within(id, node_id) && id != node_id),
        decreases u64::MAX - node_id,
    {
        let ghost nodes = self.structure();
        let ghost before = result@;
        proof {
            lemma_room(nodes, self.config.max_depth as int);
            if node_id > MAX_PARENT {
                assert forall|id: u64| within(id, node_id) && id != node_id implies false by {
                    assert(within(id / 2, node_id));
                    lemma_within_order(id / 2, node_id);
                }
            }
        }
        if node_id > MAX_PARENT {
            return;
        }
        let left: u64 = left_child(node_id);
        let right: u64 = right_child(node_id);
        if self.nodes.contains_key(left) {
            result.push(left);
            let ghost pushed = result@;
            proof {
                assert(pushed[before.len() as int] == left);
                lemma_contains_push(before, left);
            }
            self.collect_subtree_nodes(left, result);
        }
        let ghost middle = result@;
        proof {
            assert forall|id: u64| middle.contains(id) == (before.contains(id) || (
            nodes.contains_key(id) && within(id, left))) by {
                if nodes.contains_key(id) && within(id, left) {
                    lemma_linked_up(nodes, self.config.max_depth as int, id, left);
                }
                assert(within(left, left));
            }
        }
        if self.nodes.contains_key(right) {
            result.push(right);
            proof {
                lemma_contains_push(middle, right);
            }
            self.collect_subtree_nodes(right, result);
        }
        proof {
            let all = result@;
            assert forall|id: u64| #[trigger] all.contains(id) <==> before.contains(id) || (
            nodes.contains_key(id) && within(id, node_id) && id != node_id) by {
                assert(all.contains(id) == (middle.contains(id) || (nodes.contains_key(id)
                    && within(id, right)))) by {
                    if nodes.contains_key(id) && within(id, right) {
                        lemma_linked_up(nodes, self.config.max_depth as int, id, right);
                    }
                    assert(within(right, right));
                }
                lemma_within_children(id, node_id);
            }
        }
    }

    /// Looks up the row of a sample.
    fn read_row<S: Sample>(&self, sample_map: &IdTable<&S>, id: u64) -> (r: Row)
        requires
            all_wide(sample_map@, self.width()),
        ensures
            r@ == row_of(sample_map@, self.width(), id),
    {
        match sample_map.get(id) {
            Some(sample) => {
                let mut values: Vec<i64> = Vec::new();
                let mut a: u8 = 0;
                while a < self.num_attributes
                    invariant
                        a <= self.num_attributes,
                        sample.data().values.len() >= self.num_attributes,
                        values@ == sample.data().values.take(a as int),
                    decreases self.num_attributes - a,
                {
                    values.push(sample.attribute_value(a));
                    a = a + 1;
                    assert(values@ =~= sample.data().values.take(a as int));
                }
                Row { values, label: sample.label() }
            },
            None => {
                let r = Row { values: Vec::new(), label: false };
                assert(r@.values =~= Seq::<i64>::empty());
                r
            },
        }
    }

    /// Looks up the rows of some samples.
    pub(super) fn read_rows<S: Sample>(&self, sample_map: &IdTable<&S>, list: &Vec<u64>) -> (r: Vec<
        Row,
    >)
        requires
            all_wide(sample_map@, self.width()),
        ensures
            row_views(r@) == rows_of(sample_map@, self.width(), list@),
    {
        let mut rows: Vec<Row> = Vec::new();
        let mut i: usize = 0;
        while i < list.len()
            invariant
                i <= list@.len(),
                all_wide(sample_map@, self.width()),
                row_views(rows@) =~= rows_of(sample_map@, self.width(), list@.take(i as int)),
            decreases list@.len() - i,
        {
            let row = self.read_row(sample_map, list[i]);
            let ghost before = rows@;
            rows.push(row);
            assert(row_views(rows@) =~= row_views(before).push(row@));
            assert(rows_of(sample_map@, self.width(), list@.take(i as int + 1)) =~= rows_of(
                sample_map@,
                self.width(),
                list@.take(i as int),
            ).push(row@));
            i = i + 1;
        }
        assert(list@.take(i as int) =~= list@);
        rows
    }

    /// Makes the states of a node and of the nodes below it.
    pub(super) fn init_streaming_states_recursive<S: Sample>(
        &mut self,
        node_id: u64,
        depth: u32,
        sample_map: &IdTable<&S>,
    )
        requires
            old(self).wf(),
            node_id >= 1,
            depth == level(node_id),
            all_wide(sample_map@, old(self).width()),
        ensures
            final(self).wf(),
            final(self).same_setting(old(self)),
            final(self).nodes == old(self).nodes,
            final(self).structure() == old(self).structure(),
            final(self).placement() == old(self).placement(),
            states_made(
                old(self).states(),
                final(self).states(),
                sample_map@,
                old(self).width(),
                old(self).structure(),
                node_id,
            ),
        decreases u64::MAX - node_id,
    {
        let ghost nodes = self.structure();
        let ghost first = self.states();
        let ghost width = self.width();
        let ghost known = sample_map@;
        proof {
            lemma_room(nodes, self.config.max_depth as int);
        }
        let split: Option<Split> = match self.nodes.get(node_id) {
            Some(node) => match node.split() {
                Some(s) => Some(*s),
                None => None,
            },
            None => {
                proof {
                    assert forall|id: u64| within(id, node_id) implies !nodes.contains_key(id) by {
                        if nodes.contains_key(id) {
                            lemma_linked_up(nodes, self.config.max_depth as int, id, node_id);
                        }
                    }
                }
                return;
            },
        };
        let seed: u64 = draw_seed(&mut self.rng);
        let mut state = StreamingNodeState::new(self.num_attributes, seed, depth);
        let list = self.collect_samples_from_subtree(node_id);
        let rows = self.read_rows(sample_map, &list);
        state.attr_stats.init_from_batch(&rows, P_COUNT);
        state.sample_ids = list;
        state.delay = DelayTag::NoDelay;
        match split {
            Some(s) => {
                state.split_attr = Some(s.attribute_index());
                match s {
                    Split::Numerical { threshold, .. } => {
                        state.split_threshold = threshold;
                    },
                    Split::Categorical { .. } => {},
                }
                assert(is_inner(nodes, node_id));
                proof {
                    law_parent_of_child(node_id);
                    law_level_bounds((2 * node_id) as u64);
                }
                self.init_streaming_states_recursive(left_child(node_id), depth + 1, sample_map);
                let ghost second = self.states();
                self.init_streaming_states_recursive(right_child(node_id), depth + 1, sample_map);
                proof {
                    lemma_states_made_children(
                        first,
                        second,
                        self.states(),
                        known,
                        width,
                        nodes,
                        node_id,
                    );
                }
            },
            None => {
                proof {
                    assert forall|id: u64| within(id, node_id) && id != node_id implies
                        !nodes.contains_key(id) by {
                        lemma_nothing_below(nodes, self.config.max_depth as int, id, node_id);
                    }
                }
            },
        }
        let ghost third = self.states();
        self.streaming_states.insert(node_id, state);
        proof {
            assert(self.states() =~= third.insert(node_id, state@));
            assert(state_made(state@, known, width, nodes, node_id, depth));
            assert(within(node_id, node_id));
        }
    }

    /// Turns streaming on, and makes the state of every node from the samples that are
    /// given.
    pub fn init_streaming_states<S: Sample>(&mut self, samples: &[S])
        requires
            old(self).wf(),
            forall|i: int|
                0 <= i < samples@.len() ==> (#[trigger] samples@[i].data()).values.len() >= old(
                    self,
                ).width(),
        ensures
            final(self).wf(),
            final(self).limits() == old(self).limits(),
            final(self).width() == old(self).width(),
            final(self).number() == old(self).number(),
            final(self).streams(),
            final(self).structure() == old(self).structure(),
            final(self).placement() == old(self).placement(),
            final(self).states().dom() == final(self).structure().dom(),
            final(self).states().len() == final(self).structure().len(),
            exists|known: Map<u64, &S>|
                by_id(samples@, known) && #[trigger] states_made(
                    Map::<u64, StateView>::empty(),
                    final(self).states(),
                    known,
                    old(self).width(),
                    old(self).structure(),
                    ROOT,
                ),
    {
        self.streaming_enabled = true;
        self.streaming_states.clear();
        assert(self.states() =~= Map::<u64, StateView>::empty());
        let sample_map = index_samples(samples);
        assert forall|id: u64| #[trigger] sample_map@.contains_key(
            id,
        ) implies sample_map@[id].data().values.len() >= self.num_attributes by {
            let i = choose|i: int|
                0 <= i < samples@.len() && samples@[i].data().id == id && *sample_map@[id]
                    == samples@[i];
            assert(samples@[i].data().values.len() >= old(self).width());
        }
        self.init_streaming_states_recursive(ROOT, 0, &sample_map);
        proof {
            law_one_state_for_each_node(
                self.structure(),
                self.config.max_depth as int,
                self.states(),
                sample_map@,
                self.num_attributes,
            );
        }
    }
}

/// Once the states of a tree have been made there is one for each node and no other.
pub proof fn law_one_state_for_each_node<S: Sample>(
    nodes: Nodes,
    max_depth: int,
    states: Map<u64, StateView>,
    known: Map<u64, &S>,
    width: u8,
)
    requires
        linked(nodes, max_depth),
        states_made(Map::<u64, StateView>::empty(), states, known, width, nodes, ROOT),
    ensures
        states.dom() == nodes.dom(),
        states.len() == nodes.len(),
{
    assert forall|id: u64| states.dom().contains(id) == nodes.dom().contains(id) by {
        assert(states.contains_key(id) == states.dom().contains(id));
        assert(!Map::<u64, StateView>::empty().contains_key(id));
        if nodes.contains_key(id) {
            lemma_linked_at(nodes, max_depth, id);
            lemma_within_root(id);
        }
    }
    assert(states.dom() =~= nodes.dom());
}

/// Whether a map leads from each identifier to the last sample that has it.
pub open spec fn by_id<S: Sample>(samples: Seq<S>, known: Map<u64, &S>) -> bool {
    &&& forall|id: u64| #[trigger]
        known.contains_key(id) ==> exists|i: int|
            {
                &&& 0 <= i < samples.len()
                &&& #[trigger] samples[i].data().id == id
                &&& *known[id] == samples[i]
                &&& forall|j: int| i < j < samples.len() ==> samples[j].data().id != id
            }
    &&& forall|i: int| 0 <= i < samples.len() ==> known.contains_key(#[trigger] samples[i].data().id)
}

/// Leads from each identifier to the last sample that has it.
pub fn index_samples<S: Sample>(samples: &[S]) -> (r: IdTable<&S>)
    ensures
        by_id(samples@, r@),
{
    let mut table: IdTable<&S> = IdTable::new();
    let mut i: usize = 0;
    while i < samples.len()
        invariant
            i <= samples@.len(),
            by_id(samples@.take(i as int), table@),
        decreases samples@.len() - i,
    {
        let id: u64 = samples[i].id();
        let ghost before = table@;
        let ghost a = samples@.take(i as int);
        let ghost b = samples@.take(i as int + 1);
        table.insert(id, &samples[i]);
        proof {
            assert(b[i as int] == samples@[i as int]);
            assert forall|x: u64| #[trigger] table@.contains_key(x) implies exists|j: int|
                {
                    &&& 0 <= j < b.len()
                    &&& #[trigger] b[j].data().id == x
                    &&& *table@[x] == b[j]
                    &&& forall|k: int| j < k < b.len() ==> b[k].data().id != x
                } by {
                if x == id {
                    assert(b[i as int].data().id == x);
                } else {
                    assert(before.contains_key(x));
                    let j = choose|j: int|
                        {
                            &&& 0 <= j < a.len()
                            &&& #[trigger] a[j].data().id == x
                            &&& *before[x] == a[j]
                            &&& forall|k: int| j < k < a.len() ==> a[k].data().id != x
                        };
                    assert(b[j] == a[j]);
                    assert forall|k: int| j < k < b.len() implies b[k].data().id != x by {
                        if k < i {
                            assert(b[k] == a[k]);
                        }
                    }
                    assert(b[j].data().id == x);
                }
            }
            assert forall|j: int| 0 <= j < b.len() implies table@.contains_key(
                #[trigger] b[j].data().id,
            ) by {
                if j < i {
                    assert(b[j] == a[j]);
                }
            }
        }
        i = i + 1;
    }
    assert(samples@.take(i as int) =~= samples@);
    table
}

/// A longer list has one entry more.
proof fn lemma_contains_push(list: Seq<u64>, x: u64)
    ensures
        forall|y: u64| #[trigger] list.push(x).contains(y) == (list.contains(y) || y == x),
{
    assert forall|y: u64| #[trigger] list.push(x).contains(y) == (list.contains(y) || y == x) by {
        if list.contains(y) {
            let i = list.index_of(y);
            assert(list.push(x)[i] == y);
        }
        if y == x {
            assert(list.push(x)[list.len() as int] == y);
        }
    }
}

/// States that were made for the parts below both children were made for all that lies
/// below the node.
proof fn lemma_states_made_children<S: Sample>(
    first: Map<u64, StateView>,
    second: Map<u64, StateView>,
    third: Map<u64, StateView>,
    known: Map<u64, &S>,
    width: u8,
    nodes: Nodes,
    top: u64,
)
    requires
        1 <= top <= MAX_PARENT,
        states_made(first, second, known, width, nodes, (2 * top) as u64),
        states_made(second, third, known, width, nodes, (2 * top + 1) as u64),
    ensures
        forall|id: u64|
            #![trigger third.contains_key(id)]
            #![trigger first.contains_key(id)]
            if nodes.contains_key(id) && within(id, top) && id != top {
                third.contains_key(id) && state_made(
                    third[id],
                    known,
                    width,
                    nodes,
                    id,
                    level(id) as u32,
                )
            } else {
                third.contains_key(id) == first.contains_key(id) && (third.contains_key(id)
                    ==> third[id] == first[id])
            },
{
    assert forall|id: u64|
        #![trigger third.contains_key(id)]
        #![trigger first.contains_key(id)]
        if nodes.contains_key(id) && within(id, top) && id != top {
            third.contains_key(id) && state_made(
                third[id],
                known,
                width,
                nodes,
                id,
                level(id) as u32,
            )
        } else {
            third.contains_key(id) == first.contains_key(id) && (third.contains_key(id)
                ==> third[id] == first[id])
        } by {
        lemma_within_children(id, top);
        assert(second.contains_key(id) || !second.contains_key(id));
    }
}

} // verus!
