//! Which nodes are marked when samples come and go.

use super::shape::{end_of, is_inner, reaches, Nodes};
use super::stream::{
    nodes_added, nodes_removed, splits_leaf, states_added, states_removed, work_after_add,
    work_after_remove, Change,
};
use super::TreeConfig;
use crate::node::node_id::{within, ROOT};
use crate::node::LazyTag;
use crate::streaming::laws::{
    differs, is_lowest, law_arrival_keeps_candidates, law_best_split_is_lowest,
    law_departure_keeps_candidates, law_moved_split, scores_are_fractions,
};
use crate::sample::SampleData;
use crate::streaming::StateView;
use vstd::prelude::*;

verus! {

/// A sample that comes marks every inner node on its way whose best split is another one than
/// the split in use: the first candidate with the lowest score has another attribute, or its
/// threshold is further off than rounding explains. Such a node is marked to be grown anew, if
/// that may be put off, and work is asked for. A node whose split in use is still the best one
/// keeps its mark, if no candidate has become void. So a node that is not marked is split at
/// its best candidate.
pub proof fn law_arrival_marks_moved_split(
    nodes: Nodes,
    states: Map<u64, StateView>,
    config: TreeConfig,
    c: Change,
    id: u64,
    i: int,
)
    requires
        is_inner(nodes, id),
        states.contains_key(id),
        states[id].split_attr is Some,
        reaches(nodes, c.route, ROOT, id),
    ensures
        ({
            let before = states[id];
            let after = states_added(nodes, states, true, config, c)[id];
            let node = nodes_added(nodes, states, true, c)[id];
            let list = after.attr_stats.candidates;
            &&& node is Internal && node->split == nodes[id]->split
            &&& after.split_attr == before.split_attr
            &&& after.split_threshold == before.split_threshold
            &&& is_lowest(list, i) && differs(after, i) ==> work_after_add(
                nodes,
                states,
                true,
                config,
                c,
            )
            &&& is_lowest(list, i) && differs(after, i) && c.lazy ==> node->lazy_tag
                == LazyTag::Rebuild
            &&& is_lowest(list, i) && !differs(after, i) && list.len()
                == before.attr_stats.candidates.len() ==> node->lazy_tag == nodes[id]->lazy_tag
            &&& c.lazy && node->lazy_tag != LazyTag::Rebuild && (exists|k: int|
                0 <= k < list.len() && (#[trigger] list[k]).best_score is Some) ==> exists|k: int|
                #[trigger]
                is_lowest(list, k) && !differs(after, k)
        }),
{
    let before = states[id];
    let moved = c.stats_added(before);
    let after = states_added(nodes, states, true, config, c)[id];
    let list = after.attr_stats.candidates;
    let had = before.attr_stats.candidates;
    assert(list == moved.attr_stats.candidates);
    assert(scores_are_fractions(list)) by {
        if had.len() > 0 {
            law_arrival_keeps_candidates(
                had,
                c.values,
                c.label,
                moved.attr_stats.total_samples,
                moved.attr_stats.total_positive,
                0,
            );
        }
    }
    law_moved_split(moved, i);
    if is_lowest(list, i) && differs(after, i) {
        assert(differs(moved, i));
        assert(states.contains_key(id) && c.moved_by_add(states[id]));
    }
    if is_lowest(list, i) && !differs(after, i) {
        assert(!differs(moved, i));
    }
    law_best_split_is_lowest(list, i);
    if exists|k: int| 0 <= k < list.len() && (#[trigger] list[k]).best_score is Some {
        let k = choose|k: int| is_lowest(list, k);
        law_moved_split(moved, k);
        assert(differs(after, k) == differs(moved, k));
    }
}

/// A sample that goes marks every inner node above the leaf that it leaves whose best split is
/// another one than the split in use, or of which a candidate has become void, if growing anew
/// may be put off, and asks for work. Any other node keeps its mark. So a node that is not
/// marked is split at its best candidate.
pub proof fn law_departure_marks_moved_split(
    nodes: Nodes,
    states: Map<u64, StateView>,
    leaf: u64,
    c: Change,
    id: u64,
    i: int,
)
    requires
        is_inner(nodes, id),
        states.contains_key(id),
        states[id].split_attr is Some,
        within(leaf, id),
        id != leaf,
        id >= 1,
    ensures
        ({
            let before = states[id];
            let after = states_removed(states, true, leaf, c)[id];
            let node = nodes_removed(nodes, states, true, leaf, c)[id];
            let list = after.attr_stats.candidates;
            &&& node is Internal && node->split == nodes[id]->split
            &&& after.split_attr == before.split_attr
            &&& after.split_threshold == before.split_threshold
            &&& (is_lowest(list, i) && differs(after, i)) || list.len()
                < before.attr_stats.candidates.len() ==> work_after_remove(states, true, leaf, c)
            &&& ((is_lowest(list, i) && differs(after, i)) || list.len()
                < before.attr_stats.candidates.len()) && c.lazy ==> node->lazy_tag
                == LazyTag::Rebuild
            &&& is_lowest(list, i) && !differs(after, i) && list.len()
                == before.attr_stats.candidates.len() ==> node->lazy_tag == nodes[id]->lazy_tag
            &&& c.lazy && node->lazy_tag != LazyTag::Rebuild && (exists|k: int|
                0 <= k < list.len() && (#[trigger] list[k]).best_score is Some) ==> exists|k: int|
                #[trigger]
                is_lowest(list, k) && !differs(after, k)
        }),
{
    let before = states[id];
    let moved = c.stats_removed(before);
    let after = states_removed(states, true, leaf, c)[id];
    let list = after.attr_stats.candidates;
    let had = before.attr_stats.candidates;
    assert(list == moved.attr_stats.candidates);
    assert(scores_are_fractions(list)) by {
        if had.len() > 0 {
            law_departure_keeps_candidates(
                had,
                c.values,
                c.label,
                moved.attr_stats.total_samples,
                moved.attr_stats.total_positive,
                0,
            );
        }
    }
    law_moved_split(moved, i);
    assert(differs(after, i) == differs(moved, i));
    if (is_lowest(list, i) && differs(after, i)) || list.len() < had.len() {
        assert(states.contains_key(id) && c.moved_by_remove(states[id]));
    }
    law_best_split_is_lowest(list, i);
    if exists|k: int| 0 <= k < list.len() && (#[trigger] list[k]).best_score is Some {
        let k = choose|k: int| is_lowest(list, k);
        law_moved_split(moved, k);
        assert(differs(after, k) == differs(moved, k));
    }
}

/// A sample that comes or goes leaves every node alone that is not on its way: its counts, its
/// mark and its statistics stay.
pub proof fn law_changes_stay_on_the_way(
    nodes: Nodes,
    states: Map<u64, StateView>,
    streams: bool,
    config: TreeConfig,
    leaf: u64,
    c: Change,
    id: u64,
)
    requires
        nodes.contains_key(id),
    ensures
        !reaches(nodes, c.route, ROOT, id) ==> nodes_added(nodes, states, streams, c)[id]
            == nodes[id],
        !reaches(nodes, c.route, ROOT, id) && states.contains_key(id) ==> states_added(
            nodes,
            states,
            streams,
            config,
            c,
        )[id] == states[id],
        !within(leaf, id) ==> nodes_removed(nodes, states, streams, leaf, c)[id] == nodes[id],
        !within(leaf, id) && states.contains_key(id) ==> states_removed(states, streams, leaf, c)[id]
            == states[id],
        nodes_added(nodes, states, streams, c).dom() == nodes.dom(),
        nodes_removed(nodes, states, streams, leaf, c).dom() == nodes.dom(),
{
    assert(nodes_added(nodes, states, streams, c).dom() =~= nodes.dom());
    assert(nodes_removed(nodes, states, streams, leaf, c).dom() =~= nodes.dom());
}

/// A leaf that has got enough samples of both classes asks to be split when another sample
/// comes: at least as many as a node must have to be split, and at least one of each class.
pub proof fn law_ripe_leaf_asks_for_work(
    nodes: Nodes,
    states: Map<u64, StateView>,
    streams: bool,
    config: TreeConfig,
    c: Change,
)
    requires
        config.min_samples_split <= u32::MAX,
        nodes.contains_key(end_of(nodes, c.route, ROOT)),
        nodes[end_of(nodes, c.route, ROOT)] is Leaf,
        nodes[end_of(nodes, c.route, ROOT)].samples() < u32::MAX,
        nodes[end_of(nodes, c.route, ROOT)].plus() < u32::MAX,
        !c.inline,
    ensures
        ({
            let leaf = nodes[end_of(nodes, c.route, ROOT)];
            let positive = leaf.plus() + if c.label {
                1int
            } else {
                0int
            };
            let all = leaf.samples() + 1;
            all >= config.min_samples_split && positive > 0 && all > positive ==> work_after_add(
                nodes,
                states,
                streams,
                config,
                c,
            )
        }),
{
    let end = end_of(nodes, c.route, ROOT);
    let leaf = nodes[end].with_sample(c.id, c.label);
    assert(splits_leaf(config, leaf) == (leaf.samples() >= config.min_samples_split as u32 && 0
        < leaf.plus() < leaf.samples()));
}

/// A node on the way of a sample that comes and makes candidates void is to be looked at once
/// fewer than five are left, unless it is marked to be grown anew.
pub proof fn law_worn_node_is_looked_at(
    nodes: Nodes,
    states: Map<u64, StateView>,
    config: TreeConfig,
    c: Change,
    id: u64,
)
    requires
        is_inner(nodes, id),
        states.contains_key(id),
        reaches(nodes, c.route, ROOT, id),
    ensures
        ({
            let before = states[id].attr_stats.candidates;
            let after = states_added(nodes, states, true, config, c)[id].attr_stats.candidates;
            let node = nodes_added(nodes, states, true, c)[id];
            &&& after.len() < before.len() && after.len() < 5 ==> node.pending()
            &&& after.len() < before.len() && after.len() < 5 && !c.lazy ==> node->lazy_tag
                == LazyTag::Dirty
            &&& !c.lazy && (after.len() >= before.len() || after.len() >= 5) ==> node->lazy_tag
                == nodes[id]->lazy_tag
        }),
{
}

/// A list without an entry holds all other entries in order.
pub proof fn law_entry_is_taken_out(list: Seq<u64>, id: u64)
    ensures
        super::stream::without(list, id) == list.filter(|x: u64| x != id),
    decreases list.len(),
{
    reveal(Seq::filter);
    if list.len() > 0 {
        law_entry_is_taken_out(list.drop_last(), id);
    } else {
        assert(super::stream::without(list, id) =~= list.filter(|x: u64| x != id));
    }
}

/// The first sample of a tree makes it a leaf that names it, counts it and votes for its
/// class.
pub proof fn law_first_sample_is_a_leaf(d: SampleData, values: Seq<i64>)
    ensures
        ({
            let nodes = super::stream::single_leaf(d);
            &&& nodes.dom() == set![ROOT]
            &&& nodes[ROOT] is Leaf
            &&& nodes[ROOT]->sample_ids == set![d.id]
            &&& nodes[ROOT].samples() == 1
            &&& nodes[ROOT].plus() == (if d.label {
                1int
            } else {
                0
            })
            &&& super::shape::vote(nodes, values) == d.label
        }),
{
    let nodes = super::stream::single_leaf(d);
    assert(nodes.dom() =~= set![ROOT]);
    assert(nodes[ROOT]->sample_ids =~= set![d.id]);
    assert(end_of(nodes, values, ROOT) == ROOT);
}

} // verus!
