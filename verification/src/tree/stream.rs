//! Learning and forgetting one sample at a time.

use super::shape::{
    end_of, is_inner, lemma_end_path, lemma_ids_positive, lemma_room, linked, narrow, reaches,
    routable, vote, Nodes,
};
use super::grow::Plan;
use super::{DynFrsTree, TreeConfig};
use crate::node::node_id::{
    law_parent_of_child, left_child, lemma_within_order, lemma_within_root, level, parent,
    right_child, within, MAX_PARENT, ROOT,
};
use crate::node::{lower, lowered, LazyTag, Node, NodeView};
use crate::random::draw_seed;
use crate::sample::{Sample, SampleData};
use crate::streaming::{DelayTag, StateView, StatsView, StreamingNodeState, P_COUNT};
use crate::table::IdSet;
use vstd::prelude::*;

verus! {

/// A sample that comes or goes, and whether nodes may be marked for later work.
pub struct Change {
    pub id: u64,
    /// The values by which the sample finds its way down.
    pub route: Seq<i64>,
    /// The values that statistics are kept of.
    pub values: Seq<i64>,
    pub label: bool,
    pub lazy: bool,
    /// Whether leaves are split on the spot instead of being marked.
    pub inline: bool,
}

/// Whether a leaf has enough samples of both classes to be split.
pub open spec fn splits_leaf(config: TreeConfig, node: NodeView) -> bool {
    &&& node is Leaf
    &&& node.samples() >= config.min_samples_split as u32
    &&& 0 < node.plus() < node.samples()
}

impl Change {
    /// The statistics of a node after the sample has come.
    pub open spec fn stats_added(&self, s: StateView) -> StateView {
        StateView { attr_stats: s.attr_stats.with_sample(self.values, self.label), ..s }
    }

    /// Whether the sample has made so many candidates void that the node has to be
    /// looked at.
    pub open spec fn worn_by_add(&self, s: StateView) -> bool {
        let after = self.stats_added(s).attr_stats.candidates.len();
        after < s.attr_stats.candidates.len() && after < P_COUNT / 2
    }

    /// Whether the sample has changed the best split of a node.
    pub open spec fn moved_by_add(&self, s: StateView) -> bool {
        self.stats_added(s).split_changed()
    }

    /// What streaming knows of a node after the sample has come.
    pub open spec fn state_added(&self, s: StateView) -> StateView {
        let after = self.stats_added(s);
        if self.moved_by_add(s) && self.lazy {
            StateView { delay: DelayTag::NeedsSeparateAndBuild, ..after }
        } else {
            after
        }
    }

    /// A node after the sample has passed through it.
    pub open spec fn node_added(&self, n: NodeView, s: Option<StateView>) -> NodeView {
        let tagged = match s {
            Some(s) => if self.moved_by_add(s) && self.lazy {
                n.with_tag(LazyTag::Rebuild)
            } else if self.worn_by_add(s) {
                n.with_tag(LazyTag::Dirty)
            } else {
                n
            },
            None => n,
        };
        tagged.with_sample(self.id, self.label)
    }

    /// The statistics of a node after the sample has gone.
    pub open spec fn stats_removed(&self, s: StateView) -> StateView {
        StateView { attr_stats: s.attr_stats.without_sample(self.values, self.label), ..s }
    }

    /// Whether the departure of the sample asks for a new split of a node.
    pub open spec fn moved_by_remove(&self, s: StateView) -> bool {
        let after = self.stats_removed(s);
        after.attr_stats.candidates.len() < s.attr_stats.candidates.len() || after.split_changed()
    }

    /// What streaming knows of a node after the sample has gone.
    pub open spec fn state_removed(&self, s: StateView) -> StateView {
        let after = self.stats_removed(s);
        StateView {
            delay: if self.moved_by_remove(s) && self.lazy {
                DelayTag::NeedsSeparateAndBuild
            } else {
                s.delay
            },
            sample_ids: without(s.sample_ids, self.id),
            ..after
        }
    }

    /// A node above the leaf, or the leaf itself, after the sample has gone.
    pub open spec fn node_removed(&self, n: NodeView, s: Option<StateView>, leaf: bool) -> NodeView {
        let left = if leaf {
            n.without_sample(self.id, self.label)
        } else {
            n
        };
        let tagged = match s {
            Some(s) => if self.moved_by_remove(s) && self.lazy {
                left.with_tag(LazyTag::Rebuild)
            } else {
                left
            },
            None => left,
        };
        if tagged is Internal {
            tagged.with_counts(lowered(tagged.samples(), true), lowered(tagged.plus(), self.label))
        } else {
            tagged
        }
    }
}

/// A list without an entry.
pub open spec fn without(list: Seq<u64>, id: u64) -> Seq<u64>
    decreases list.len(),
{
    if list.len() == 0 {
        list
    } else {
        let rest = without(list.drop_last(), id);
        if list.last() == id {
            rest
        } else {
            rest.push(list.last())
        }
    }
}

/// What is known of a node, if streaming is on.
pub open spec fn known(states: Map<u64, StateView>, streams: bool, id: u64) -> Option<StateView> {
    if streams && states.contains_key(id) {
        Some(states[id])
    } else {
        None
    }
}

/// The nodes after a sample has come: those that it passes through have counted it.
pub open spec fn nodes_added(
    nodes: Nodes,
    states: Map<u64, StateView>,
    streams: bool,
    c: Change,
) -> Nodes {
    Map::new(
        |id: u64| nodes.contains_key(id),
        |id: u64|
            if reaches(nodes, c.route, ROOT, id) {
                c.node_added(nodes[id], known(states, streams, id))
            } else {
                nodes[id]
            },
    )
}

/// What streaming knows after a sample has come. The leaf where it ends also lists it,
/// and has to be split if it has enough samples of both classes.
pub open spec fn states_added(
    nodes: Nodes,
    states: Map<u64, StateView>,
    streams: bool,
    config: TreeConfig,
    c: Change,
) -> Map<u64, StateView> {
    Map::new(
        |id: u64| states.contains_key(id),
        |id: u64|
            if streams && reaches(nodes, c.route, ROOT, id) {
                let s = c.state_added(states[id]);
                if nodes.contains_key(id) && nodes[id] is Leaf {
                    StateView {
                        sample_ids: s.sample_ids.push(c.id),
                        delay: if !c.inline && splits_leaf(
                            config,
                            nodes[id].with_sample(c.id, c.label),
                        ) {
                            DelayTag::NeedsBuild
                        } else {
                            s.delay
                        },
                        ..s
                    }
                } else {
                    s
                }
            } else {
                states[id]
            },
    )
}

/// Whether a sample that has come asks for work on the tree.
pub open spec fn work_after_add(
    nodes: Nodes,
    states: Map<u64, StateView>,
    streams: bool,
    config: TreeConfig,
    c: Change,
) -> bool {
    let end = end_of(nodes, c.route, ROOT);
    ||| streams && exists|id: u64| #[trigger]
        states.contains_key(id) && reaches(nodes, c.route, ROOT, id) && c.moved_by_add(states[id])
    ||| !c.inline && nodes.contains_key(end) && splits_leaf(
        config,
        nodes[end].with_sample(c.id, c.label),
    )
}

/// The nodes after a sample has gone from a leaf.
pub open spec fn nodes_removed(
    nodes: Nodes,
    states: Map<u64, StateView>,
    streams: bool,
    leaf: u64,
    c: Change,
) -> Nodes {
    Map::new(
        |id: u64| nodes.contains_key(id),
        |id: u64|
            if within(leaf, id) {
                c.node_removed(nodes[id], known(states, streams, id), id == leaf)
            } else {
                nodes[id]
            },
    )
}

/// What streaming knows after a sample has gone from a leaf.
pub open spec fn states_removed(
    states: Map<u64, StateView>,
    streams: bool,
    leaf: u64,
    c: Change,
) -> Map<u64, StateView> {
    Map::new(
        |id: u64| states.contains_key(id),
        |id: u64|
            if streams && within(leaf, id) && id >= 1 {
                c.state_removed(states[id])
            } else {
                states[id]
            },
    )
}

/// Whether a sample that has gone from a leaf asks for work on the tree.
pub open spec fn work_after_remove(
    states: Map<u64, StateView>,
    streams: bool,
    leaf: u64,
    c: Change,
) -> bool {
    streams && exists|id: u64| #[trigger]
        states.contains_key(id) && within(leaf, id) && id >= 1 && c.moved_by_remove(states[id])
}

/// Takes an entry out of a list.
fn take_out(list: &Vec<u64>, id: u64) -> (r: Vec<u64>)
    ensures
        r@ == without(list@, id),
{
    let mut kept: Vec<u64> = Vec::new();
    let mut i: usize = 0;
    assert(list@.take(0) =~= Seq::<u64>::empty());
    while i < list.len()
        invariant
            i <= list@.len(),
            kept@ == without(list@.take(i as int), id),
        decreases list@.len() - i,
    {
        assert(list@.take(i as int + 1).drop_last() =~= list@.take(i as int));
        if list[i] != id {
            kept.push(list[i]);
        }
        i = i + 1;
    }
    assert(list@.take(i as int) =~= list@);
    kept
}

impl DynFrsTree {
    /// Predicts the class of a sample.
    pub fn predict<S: Sample>(&self, sample: &S) -> (r: bool)
        requires
            self.wf(),
            routable(self.structure(), sample.data().values),
        ensures
            r == vote(self.structure(), sample.data().values),
    {
        let ghost nodes = self.structure();
        let ghost values = sample.data().values;
        let mut id: u64 = ROOT;
        proof {
            lemma_room(nodes, self.config.max_depth as int);
        }
        loop
            invariant
                self.wf(),
                nodes == self.structure(),
                values == sample.data().values,
                routable(nodes, values),
                forall|x: u64| #[trigger] is_inner(nodes, x) ==> 1 <= x <= MAX_PARENT,
                id >= 1,
                end_of(nodes, values, ROOT) == end_of(nodes, values, id),
            decreases u64::MAX - id,
        {
            match self.nodes.get(id) {
                Some(node) => {
                    assert(nodes.contains_key(id) && nodes[id] == node@);
                    match node {
                        Node::Internal { split, .. } => {
                            assert(is_inner(nodes, id));
                            if sample.is_left_of(split) {
                                id = left_child(id);
                            } else {
                                id = right_child(id);
                            }
                        },
                        Node::Leaf { .. } => {
                            return node.predict();
                        },
                    }
                },
                None => {
                    return false;
                },
            }
        }
    }

    /// Whether the tree has learnt a sample and not forgotten it.
    pub fn contains_sample(&self, sample_id: u64) -> (r: bool)
        ensures
            r == self.placement().contains_key(sample_id),
    {
        self.sample_leaf_map.contains_key(sample_id)
    }

    /// Makes the tree a single leaf with one sample.
    fn create_initial_leaf<S: Sample>(&mut self, sample: &S)
        requires
            old(self).wf(),
            old(self).structure().dom().is_empty(),
        ensures
            final(self).wf(),
            final(self).same_setting(old(self)),
            final(self).states() == old(self).states(),
            final(self).streaming_states == old(self).streaming_states,
            final(self).structure() == single_leaf(sample.data()),
            final(self).placement() == old(self).placement().insert(sample.data().id, ROOT),
    {
        let mut sample_ids = IdSet::new();
        sample_ids.insert(sample.id());
        let num_plus: u32 = if sample.label() {
            1
        } else {
            0
        };
        let node = Node::leaf_with_samples(1, num_plus, sample_ids);
        self.nodes.insert(ROOT, node);
        self.sample_leaf_map.insert(sample.id(), ROOT);
        proof {
            reveal(linked);
            assert forall|id: u64| !old(self).nodes@.contains_key(id) by {
                assert(!old(self).structure().dom().contains(id));
            }
            assert(self.structure() =~= single_leaf(sample.data()));
        }
    }

    /// Leads a sample to the leaf where it ends and counts it on the way. A tree without
    /// nodes becomes a leaf. Says which leaf it is; there is none if the way leads to a
    /// node that is missing.
    pub fn add_sample_incremental<S: Sample>(&mut self, sample: &S) -> (r: Option<u64>)
        requires
            old(self).wf(),
            routable(old(self).structure(), sample.data().values),
        ensures
            final(self).wf(),
            final(self).same_setting(old(self)),
            final(self).states() == old(self).states(),
            old(self).structure().dom().is_empty() ==> {
                &&& r == Some(ROOT)
                &&& final(self).structure() == single_leaf(sample.data())
                &&& final(self).placement() == old(self).placement().insert(
                    sample.data().id,
                    ROOT,
                )
            },
            !old(self).structure().dom().is_empty() ==> {
                let c = change_of(sample.data(), false);
                let end = end_of(old(self).structure(), c.route, ROOT);
                &&& final(self).structure() == nodes_added(
                    old(self).structure(),
                    old(self).states(),
                    false,
                    c,
                )
                &&& if old(self).structure().contains_key(end) {
                    &&& r == Some(end)
                    &&& final(self).placement() == old(self).placement().insert(c.id, end)
                } else {
                    &&& r is None
                    &&& final(self).placement() == old(self).placement()
                }
            },
    {
        if self.nodes.is_empty() {
            assert(self.structure().dom() =~= self.nodes@.dom());
            self.create_initial_leaf(sample);
            return Some(ROOT);
        }
        let features: Vec<i64> = Vec::new();
        let ghost c = change_of(sample.data(), false);
        let (r, _) = self.descend(sample, features.as_slice(), false, false, false, Ghost(c));
        r
    }

    /// Leads a sample down the tree and counts it on the way.
    pub(super) fn descend<S: Sample>(
        &mut self,
        sample: &S,
        features: &[i64],
        use_lazy_rebuild: bool,
        streams: bool,
        inline: bool,
        Ghost(c): Ghost<Change>,
    ) -> (r: (Option<u64>, bool))
        requires
            old(self).wf(),
            routable(old(self).structure(), sample.data().values),
            c.id == sample.data().id,
            c.label == sample.data().label,
            c.route == sample.data().values,
            c.lazy == use_lazy_rebuild,
            c.inline == inline,
            streams ==> features@ == c.values,
        ensures
            final(self).wf(),
            final(self).same_setting(old(self)),
            final(self).structure() == nodes_added(
                old(self).structure(),
                old(self).states(),
                streams,
                c,
            ),
            final(self).states() == states_added(
                old(self).structure(),
                old(self).states(),
                streams,
                old(self).limits(),
                c,
            ),
            r.1 == work_after_add(
                old(self).structure(),
                old(self).states(),
                streams,
                old(self).limits(),
                c,
            ),
            ({
                let end = end_of(old(self).structure(), c.route, ROOT);
                if old(self).structure().contains_key(end) {
                    &&& r.0 == Some(end)
                    &&& final(self).placement() == old(self).placement().insert(c.id, end)
                } else {
                    &&& r.0 is None
                    &&& final(self).placement() == old(self).placement()
                }
            }),
    {
        let ghost nodes = self.structure();
        let ghost states = self.states();
        let ghost placement = self.placement();
        let label = sample.label();
        let mut current: u64 = ROOT;
        let mut needs_rebuild = false;
        let ghost end = end_of(nodes, c.route, ROOT);
        proof {
            lemma_room(nodes, self.config.max_depth as int);
            lemma_ids_positive(nodes, self.config.max_depth as int);
            lemma_start(nodes, states, streams, c);
        }
        loop
            invariant_except_break
                end == end_of(nodes, c.route, current),
                self.structure() == passed(nodes, states, streams, c, current),
                self.states() == states_passed(states, streams, c, current),
                needs_rebuild == (streams && moved_above(states, c, current)),
            invariant
                self.wf_states(),
                forall|id: u64| #[trigger] nodes.contains_key(id) ==> id >= 1,
                self.same_setting(old(self)),
                routable(nodes, c.route),
                c.id == sample.data().id,
                c.label == sample.data().label,
                c.route == sample.data().values,
                c.lazy == use_lazy_rebuild,
                streams ==> features@ == c.values,
                label == c.label,
                forall|x: u64| #[trigger] is_inner(nodes, x) ==> 1 <= x <= MAX_PARENT,
                current >= 1,
                end == end_of(nodes, c.route, ROOT),
                self.placement() == placement,
            ensures
                self.wf_states(),
                self.same_setting(old(self)),
                current == end,
                current >= 1,
                self.structure() == nodes_added(nodes, states, streams, c),
                self.states() == states_seen(nodes, states, streams, c),
                self.placement() == placement,
                needs_rebuild == (streams && exists|id: u64| #[trigger]
                    states.contains_key(id) && reaches(nodes, c.route, ROOT, id)
                        && c.moved_by_add(states[id])),
                !is_inner(nodes, end),
            decreases u64::MAX - current,
        {
            proof {
                lemma_seen(nodes, states, streams, c, current);
                assert(is_inner(nodes, current) == is_inner(self.structure(), current));
                if is_inner(nodes, current) {
                    law_parent_of_child(current);
                }
            }
            let (next, moved) = self.pass_node(
                current,
                sample,
                features,
                use_lazy_rebuild,
                streams,
                Ghost(c),
            );
            needs_rebuild = needs_rebuild || moved;
            match next {
                Some(child) => {
                    proof {
                        lemma_onward(nodes, states, streams, c, current, child);
                    }
                    current = child;
                },
                None => {
                    proof {
                        lemma_arrived(nodes, states, streams, c, current);
                        lemma_all_seen(nodes, states, streams, c, current);
                    }
                    break;
                },
            }
        }
        proof {
            lemma_added_linked(nodes, states, streams, c, old(self));
        }
        if !self.nodes.contains_key(current) {
            assert(self.states() =~= states_added(nodes, states, streams, old(self).limits(), c)) by {
                lemma_arrived(nodes, states, streams, c, current);
            }
            return (None, needs_rebuild);
        }
        proof {
            lemma_arrived(nodes, states, streams, c, current);
        }
        self.sample_leaf_map.insert(sample.id(), current);
        let should_split = !inline && self.leaf_should_split(current);
        assert(should_split == (!c.inline && splits_leaf(
            old(self).limits(),
            nodes[current].with_sample(c.id, c.label),
        )));
        if streams {
            self.list_at_leaf(current, sample.id(), should_split);
        }
        assert(self.states() =~= states_added(nodes, states, streams, old(self).limits(), c));
        (Some(current), needs_rebuild || should_split)
    }

    /// Shows a sample that comes to the statistics of a node. Says how the node is to be
    /// tagged, and whether its best split has moved.
    fn see_added(
        &mut self,
        id: u64,
        features: &[i64],
        label: bool,
        use_lazy_rebuild: bool,
        Ghost(c): Ghost<Change>,
    ) -> (r: (Option<LazyTag>, bool))
        requires
            old(self).wf_states(),
            features@ == c.values,
            label == c.label,
            use_lazy_rebuild == c.lazy,
        ensures
            final(self).wf_states(),
            final(self).same_but_states(old(self)),
            final(self).structure() == old(self).structure(),
            final(self).placement() == old(self).placement(),
            final(self).same_setting(old(self)),
            final(self).states() == (if old(self).states().contains_key(id) {
                old(self).states().insert(id, c.state_added(old(self).states()[id]))
            } else {
                old(self).states()
            }),
            r.0 == (if !old(self).states().contains_key(id) {
                None
            } else if c.moved_by_add(old(self).states()[id]) && c.lazy {
                Some(LazyTag::Rebuild)
            } else if c.worn_by_add(old(self).states()[id]) {
                Some(LazyTag::Dirty)
            } else {
                None
            }),
            r.1 == (old(self).states().contains_key(id) && c.moved_by_add(old(self).states()[id])),
    {
        let mut tag: Option<LazyTag> = None;
        let mut moved = false;
        match self.streaming_states.get_mut(id) {
            Some(state) => {
                let invalidated: usize = state.attr_stats.add_sample(features, label);
                if invalidated > 0 && state.attr_stats.num_candidates() < P_COUNT / 2 {
                    tag = Some(LazyTag::Dirty);
                }
                if !state.is_leaf() && state.best_split_changed() {
                    if use_lazy_rebuild {
                        state.delay = DelayTag::NeedsSeparateAndBuild;
                        tag = Some(LazyTag::Rebuild);
                    }
                    moved = true;
                }
            },
            None => {},
        }
        proof {
            assert forall|x: u64| #[trigger]
                self.streaming_states@.contains_key(x) implies self.streaming_states@[x].wf() by {
                assert(old(self).streaming_states@.contains_key(x));
            }
            assert(self.states() =~= (if old(self).states().contains_key(id) {
                old(self).states().insert(id, c.state_added(old(self).states()[id]))
            } else {
                old(self).states()
            }));
        }
        (tag, moved)
    }

    /// Counts a sample at a node. Says to which child it goes on.
    fn count_added<S: Sample>(&mut self, id: u64, tag: Option<LazyTag>, sample: &S) -> (r: Option<
        u64,
    >)
        requires
            is_inner(old(self).structure(), id) ==> id <= MAX_PARENT
                && old(self).structure()[id]->split.applies(sample.data().values),
        ensures
            final(self).same_but_nodes(old(self)),
            final(self).states() == old(self).states(),
            final(self).placement() == old(self).placement(),
            final(self).same_setting(old(self)),
            old(self).wf_states() ==> final(self).wf_states(),
            ({
                let nodes = old(self).structure();
                let n = match tag {
                    Some(t) => nodes[id].with_tag(t),
                    None => nodes[id],
                };
                final(self).structure() == (if nodes.contains_key(id) {
                    nodes.insert(id, n.with_sample(sample.data().id, sample.data().label))
                } else {
                    nodes
                })
            }),
            r == (if is_inner(old(self).structure(), id) {
                Some(
                    if old(self).structure()[id]->split.routes_left(sample.data().values) {
                        (2 * id) as u64
                    } else {
                        (2 * id + 1) as u64
                    },
                )
            } else {
                None
            }),
    {
        let mut next: Option<u64> = None;
        match self.nodes.get_mut(id) {
            Some(node) => {
                match tag {
                    Some(t) => {
                        node.set_lazy_tag(t);
                    },
                    None => {},
                }
                node.add_sample(sample.id(), sample.label());
                match node.split() {
                    Some(split) => {
                        next = Some(
                            if sample.is_left_of(split) {
                                left_child(id)
                            } else {
                                right_child(id)
                            },
                        );
                    },
                    None => {},
                }
            },
            None => {},
        }
        proof {
            let nodes = old(self).structure();
            let n = match tag {
                Some(t) => nodes[id].with_tag(t),
                None => nodes[id],
            };
            assert(self.structure() =~= (if nodes.contains_key(id) {
                nodes.insert(id, n.with_sample(sample.data().id, sample.data().label))
            } else {
                nodes
            }));
        }
        next
    }

    /// Leads a sample through one node. Says to which child it goes on, and whether the
    /// best split of the node has moved.
    fn pass_node<S: Sample>(
        &mut self,
        id: u64,
        sample: &S,
        features: &[i64],
        use_lazy_rebuild: bool,
        streams: bool,
        Ghost(c): Ghost<Change>,
    ) -> (r: (Option<u64>, bool))
        requires
            old(self).wf_states(),
            c.id == sample.data().id,
            c.label == sample.data().label,
            c.route == sample.data().values,
            c.lazy == use_lazy_rebuild,
            streams ==> features@ == c.values,
            is_inner(old(self).structure(), id) ==> id <= MAX_PARENT
                && old(self).structure()[id]->split.applies(sample.data().values),
        ensures
            final(self).wf_states(),
            final(self).same_setting(old(self)),
            final(self).placement() == old(self).placement(),
            final(self).structure() == node_passed(
                old(self).structure(),
                old(self).states(),
                streams,
                c,
                id,
            ),
            final(self).states() == state_passed(old(self).states(), streams, c, id),
            r.0 == (if is_inner(old(self).structure(), id) {
                Some(
                    if old(self).structure()[id]->split.routes_left(c.route) {
                        (2 * id) as u64
                    } else {
                        (2 * id + 1) as u64
                    },
                )
            } else {
                None
            }),
            r.1 == (streams && old(self).states().contains_key(id) && c.moved_by_add(
                old(self).states()[id],
            )),
    {
        let mut tag: Option<LazyTag> = None;
        let mut moved = false;
        if streams {
            let (t, m) = self.see_added(id, features, sample.label(), use_lazy_rebuild, Ghost(c));
            tag = t;
            moved = m;
        }
        let next = self.count_added(id, tag, sample);
        (next, moved)
    }

    /// Lists a sample in the state of a leaf, and marks the leaf if it has to be split.
    fn list_at_leaf(&mut self, id: u64, sample_id: u64, should_split: bool)
        requires
            old(self).wf_states(),
        ensures
            final(self).wf_states(),
            final(self).same_but_states(old(self)),
            final(self).structure() == old(self).structure(),
            final(self).placement() == old(self).placement(),
            final(self).same_setting(old(self)),
            ({
                let s = old(self).states();
                final(self).states() == (if s.contains_key(id) {
                    s.insert(
                        id,
                        StateView {
                            sample_ids: s[id].sample_ids.push(sample_id),
                            delay: if should_split {
                                DelayTag::NeedsBuild
                            } else {
                                s[id].delay
                            },
                            ..s[id]
                        },
                    )
                } else {
                    s
                })
            }),
    {
        match self.streaming_states.get_mut(id) {
            Some(state) => {
                state.sample_ids.push(sample_id);
                if should_split {
                    state.delay = DelayTag::NeedsBuild;
                }
            },
            None => {},
        }
        proof {
            let s = old(self).states();
            assert forall|x: u64| #[trigger]
                self.streaming_states@.contains_key(x) implies self.streaming_states@[x].wf() by {
                assert(old(self).streaming_states@.contains_key(x));
            }
            assert(self.states() =~= (if s.contains_key(id) {
                s.insert(
                    id,
                    StateView {
                        sample_ids: s[id].sample_ids.push(sample_id),
                        delay: if should_split {
                            DelayTag::NeedsBuild
                        } else {
                            s[id].delay
                        },
                        ..s[id]
                    },
                )
            } else {
                s
            }));
        }
    }

    /// Leads a sample to the leaf where it ends, counts it on the way and keeps the
    /// statistics of the nodes up to date. A leaf with enough samples of both classes is
    /// marked, and not split on the spot. Says which leaf it is, and whether the tree should
    /// be worked on.
    pub fn add_sample_streaming<S: Sample>(
        &mut self,
        sample: &S,
        features: &[i64],
        use_lazy_rebuild: bool,
    ) -> (r: (Option<u64>, bool))
        requires
            old(self).wf(),
            routable(old(self).structure(), sample.data().values),
        ensures
            final(self).wf(),
            final(self).same_setting(old(self)),
            added_to(
                *old(self),
                *final(self),
                sample.data(),
                features@,
                use_lazy_rebuild,
                r,
            ),
    {
        if self.nodes.is_empty() {
            assert(self.structure().dom() =~= self.nodes@.dom());
            return self.create_initial_leaf_streaming(sample);
        }
        let streams = self.streaming_enabled;
        let ghost c = Change {
            id: sample.data().id,
            route: sample.data().values,
            values: features@,
            label: sample.data().label,
            lazy: use_lazy_rebuild,
            inline: false,
        };
        self.descend(sample, features, use_lazy_rebuild, streams, false, Ghost(c))
    }

    /// Makes the tree a single leaf with one sample, and starts its statistics.
    pub(super) fn create_initial_leaf_streaming<S: Sample>(&mut self, sample: &S) -> (r: (Option<u64>, bool))
        requires
            old(self).wf(),
            old(self).structure().dom().is_empty(),
        ensures
            final(self).wf(),
            final(self).same_setting(old(self)),
            r == (Some(ROOT), false),
            final(self).structure() == single_leaf(sample.data()),
            final(self).placement() == old(self).placement().insert(sample.data().id, ROOT),
            final(self).states() == (if old(self).streams() {
                old(self).states().insert(ROOT, first_state(sample.data(), old(self).width()))
            } else {
                old(self).states()
            }),
    {
        self.create_initial_leaf(sample);
        if self.streaming_enabled {
            let seed: u64 = draw_seed(&mut self.rng);
            let mut state = StreamingNodeState::new(self.num_attributes, seed, 0);
            state.sample_ids.push(sample.id());
            state.attr_stats.set_totals(
                1,
                if sample.label() {
                    1
                } else {
                    0
                },
            );
            assert(state@ == first_state(sample.data(), self.num_attributes));
            self.streaming_states.insert(ROOT, state);
            assert(self.states() =~= old(self).states().insert(
                ROOT,
                first_state(sample.data(), old(self).width()),
            ));
        }
        (Some(ROOT), false)
    }

    /// Takes a sample that goes out of the statistics of a node. Says whether the node
    /// needs a new split.
    fn see_removed(
        &mut self,
        id: u64,
        features: &[i64],
        sample_id: u64,
        was_positive: bool,
        use_lazy_rebuild: bool,
        Ghost(c): Ghost<Change>,
    ) -> (r: bool)
        requires
            old(self).wf_states(),
            features@ == c.values,
            sample_id == c.id,
            was_positive == c.label,
            use_lazy_rebuild == c.lazy,
        ensures
            final(self).wf_states(),
            final(self).same_but_states(old(self)),
            final(self).structure() == old(self).structure(),
            final(self).placement() == old(self).placement(),
            final(self).same_setting(old(self)),
            final(self).states() == (if old(self).states().contains_key(id) {
                old(self).states().insert(id, c.state_removed(old(self).states()[id]))
            } else {
                old(self).states()
            }),
            r == (old(self).states().contains_key(id) && c.moved_by_remove(
                old(self).states()[id],
            )),
    {
        let mut moved = false;
        match self.streaming_states.get_mut(id) {
            Some(state) => {
                let invalidated: usize = state.attr_stats.remove_sample(features, was_positive);
                if invalidated > 0 || state.best_split_changed() {
                    if use_lazy_rebuild {
                        state.delay = DelayTag::NeedsSeparateAndBuild;
                    }
                    moved = true;
                }
                state.sample_ids = take_out(&state.sample_ids, sample_id);
            },
            None => {},
        }
        proof {
            assert forall|x: u64| #[trigger]
                self.streaming_states@.contains_key(x) implies self.streaming_states@[x].wf() by {
                assert(old(self).streaming_states@.contains_key(x));
            }
            assert(self.states() =~= (if old(self).states().contains_key(id) {
                old(self).states().insert(id, c.state_removed(old(self).states()[id]))
            } else {
                old(self).states()
            }));
        }
        moved
    }

    /// Takes a sample that goes out of the counts of a node above its leaf, or of the
    /// leaf itself.
    fn count_removed(
        &mut self,
        id: u64,
        rebuild: bool,
        sample_id: u64,
        was_positive: bool,
        leaf: bool,
    )
        ensures
            final(self).same_but_nodes(old(self)),
            final(self).states() == old(self).states(),
            final(self).placement() == old(self).placement(),
            final(self).same_setting(old(self)),
            old(self).wf_states() ==> final(self).wf_states(),
            final(self).structure() == (if old(self).structure().contains_key(id) {
                old(self).structure().insert(
                    id,
                    uncounted(
                        old(self).structure()[id],
                        rebuild,
                        sample_id,
                        was_positive,
                        leaf,
                    ),
                )
            } else {
                old(self).structure()
            }),
    {
        match self.nodes.get_mut(id) {
            Some(node) => {
                if leaf {
                    node.remove_sample(sample_id, was_positive);
                }
                if rebuild {
                    node.set_lazy_tag(LazyTag::Rebuild);
                }
                match node {
                    Node::Internal { num_samples, num_plus, .. } => {
                        *num_samples = lower(*num_samples, true);
                        *num_plus = lower(*num_plus, was_positive);
                    },
                    Node::Leaf { .. } => {},
                }
            },
            None => {},
        }
        assert(self.structure() =~= (if old(self).structure().contains_key(id) {
            old(self).structure().insert(
                id,
                uncounted(old(self).structure()[id], rebuild, sample_id, was_positive, leaf),
            )
        } else {
            old(self).structure()
        }));
    }

    /// Forgets a sample: takes it out of its leaf, of the counts of every node above, and
    /// of their statistics. Says which leaf it was in, and whether the tree should be
    /// worked on. A sample that the tree does not have changes nothing.
    pub fn remove_sample_streaming(
        &mut self,
        sample_id: u64,
        features: &[i64],
        was_positive: bool,
        use_lazy_rebuild: bool,
    ) -> (r: (Option<u64>, bool))
        requires
            old(self).wf(),
        ensures
            final(self).wf(),
            final(self).same_setting(old(self)),
            removed_from(
                *old(self),
                *final(self),
                sample_id,
                features@,
                was_positive,
                use_lazy_rebuild,
                r,
            ),
    {
        let leaf: u64 = match self.sample_leaf_map.remove(sample_id) {
            Some(id) => id,
            None => {
                assert(self.placement() =~= old(self).placement());
                return (None, false);
            },
        };
        let ghost c = Change {
            id: sample_id,
            route: features@,
            values: features@,
            label: was_positive,
            lazy: use_lazy_rebuild,
            inline: false,
        };
        let ghost nodes = self.structure();
        let ghost states = self.states();
        let ghost placement = self.placement();
        let streams = self.streaming_enabled;
        let mut needs_rebuild = false;
        let mut current: u64 = leaf;
        proof {
            lemma_leave_start(nodes, states, streams, leaf, c);
        }
        while current != 0
            invariant
                self.wf_states(),
                self.same_setting(old(self)),
                c.id == sample_id,
                c.values == features@,
                c.label == was_positive,
                c.lazy == use_lazy_rebuild,
                current == 0 || within(leaf, current),
                self.structure() == left_behind(nodes, states, streams, leaf, current, c),
                self.states() == states_behind(states, streams, leaf, current, c),
                self.placement() == placement,
                needs_rebuild == (streams && moved_below(states, leaf, current, c)),
            decreases current,
        {
            let mut moved = false;
            proof {
                lemma_leave_step(nodes, states, streams, leaf, current, c);
            }
            if streams {
                moved = self.see_removed(
                    current,
                    features,
                    sample_id,
                    was_positive,
                    use_lazy_rebuild,
                    Ghost(c),
                );
            }
            self.count_removed(
                current,
                moved && use_lazy_rebuild,
                sample_id,
                was_positive,
                current == leaf,
            );
            needs_rebuild = needs_rebuild || moved;
            current = parent(current);
        }
        proof {
            lemma_left(nodes, states, streams, leaf, c, old(self));
        }
        (Some(leaf), needs_rebuild)
    }

    /// Whether a node is a leaf with enough samples of both classes to be split.
    #[verifier::truncate]
    pub fn leaf_should_split(&self, leaf_id: u64) -> (r: bool)
        ensures
            r == (self.structure().contains_key(leaf_id) && splits_leaf(
                self.limits(),
                self.structure()[leaf_id],
            )),
    {
        match self.nodes.get(leaf_id) {
            Some(node) => match node {
                Node::Leaf { num_samples, num_plus, .. } => *num_samples
                    >= self.config.min_samples_split as u32 && *num_plus > 0 && *num_plus
                    < *num_samples,
                Node::Internal { .. } => false,
            },
            None => false,
        }
    }
}

/// What adding a sample does to a tree, and what it answers: the leaf where the sample
/// ends, if the way leads to one, and whether the tree should be worked on.
pub open spec fn added_to(
    before: DynFrsTree,
    after: DynFrsTree,
    d: SampleData,
    features: Seq<i64>,
    lazy: bool,
    r: (Option<u64>, bool),
) -> bool {
    let c = Change {
        id: d.id,
        route: d.values,
        values: features,
        label: d.label,
        lazy,
        inline: false,
    };
    added_by(before, after, d, c, r)
}

/// What adding a sample as a change says does to a tree, and what it answers.
pub open spec fn added_by(
    before: DynFrsTree,
    after: DynFrsTree,
    d: SampleData,
    c: Change,
    r: (Option<u64>, bool),
) -> bool {
    let nodes = before.structure();
    let states = before.states();
    let streams = before.streams();
    let end = end_of(nodes, c.route, ROOT);
    &&& after.streams() == streams
    &&& if nodes.dom().is_empty() {
        &&& r == (Some(ROOT), false)
        &&& after.structure() == single_leaf(d)
        &&& after.placement() == before.placement().insert(d.id, ROOT)
        &&& after.states() == (if streams {
            states.insert(ROOT, first_state(d, before.width()))
        } else {
            states
        })
    } else {
        &&& after.structure() == nodes_added(nodes, states, streams, c)
        &&& after.states() == states_added(nodes, states, streams, before.limits(), c)
        &&& r.1 == work_after_add(nodes, states, streams, before.limits(), c)
        &&& if nodes.contains_key(end) {
            &&& r.0 == Some(end)
            &&& after.placement() == before.placement().insert(c.id, end)
        } else {
            &&& r.0 is None
            &&& after.placement() == before.placement()
        }
    }
}

/// What removing a sample does to a tree, and what it answers: the leaf that the sample
/// was in, if the tree has it, and whether the tree should be worked on.
pub open spec fn removed_from(
    before: DynFrsTree,
    after: DynFrsTree,
    sample_id: u64,
    features: Seq<i64>,
    was_positive: bool,
    lazy: bool,
    r: (Option<u64>, bool),
) -> bool {
    let states = before.states();
    let streams = before.streams();
    &&& after.streams() == streams
    &&& if !before.placement().contains_key(sample_id) {
        &&& r == (None::<u64>, false)
        &&& after.structure() == before.structure()
        &&& after.placement() == before.placement()
        &&& after.states() == before.states()
    } else {
        let leaf = before.placement()[sample_id];
        let c = Change {
            id: sample_id,
            route: features,
            values: features,
            label: was_positive,
            lazy,
            inline: false,
        };
        &&& r.0 == Some(leaf)
        &&& r.1 == work_after_remove(states, streams, leaf, c)
        &&& after.placement() == before.placement().remove(sample_id)
        &&& after.structure() == nodes_removed(before.structure(), states, streams, leaf, c)
        &&& after.states() == states_removed(states, streams, leaf, c)
    }
}

/// What a tree answers when a sample is added.
pub open spec fn add_answer(
    before: DynFrsTree,
    d: SampleData,
    features: Seq<i64>,
    lazy: bool,
) -> (Option<u64>, bool) {
    let nodes = before.structure();
    let c = Change { id: d.id, route: d.values, values: features, label: d.label, lazy, inline: false };
    let end = end_of(nodes, c.route, ROOT);
    if nodes.dom().is_empty() {
        (Some(ROOT), false)
    } else {
        (
            if nodes.contains_key(end) {
                Some(end)
            } else {
                None
            },
            work_after_add(nodes, before.states(), before.streams(), before.limits(), c),
        )
    }
}

/// What a tree answers when a sample is removed.
pub open spec fn remove_answer(
    before: DynFrsTree,
    sample_id: u64,
    features: Seq<i64>,
    was_positive: bool,
    lazy: bool,
) -> (Option<u64>, bool) {
    if !before.placement().contains_key(sample_id) {
        (None, false)
    } else {
        let leaf = before.placement()[sample_id];
        let c = Change {
            id: sample_id,
            route: features,
            values: features,
            label: was_positive,
            lazy,
            inline: false,
        };
        (Some(leaf), work_after_remove(before.states(), before.streams(), leaf, c))
    }
}

/// The answers are those that the tree gives.
pub proof fn lemma_answers(before: DynFrsTree, after: DynFrsTree)
    ensures
        forall|d: SampleData, features: Seq<i64>, lazy: bool, r: (Option<u64>, bool)| #[trigger]
            added_to(before, after, d, features, lazy, r) ==> r == add_answer(
                before,
                d,
                features,
                lazy,
            ),
        forall|
            sample_id: u64,
            features: Seq<i64>,
            was_positive: bool,
            lazy: bool,
            r: (Option<u64>, bool),
        | #[trigger]
            removed_from(before, after, sample_id, features, was_positive, lazy, r) ==> r
                == remove_answer(before, sample_id, features, was_positive, lazy),
{
}

/// A tree that has learnt a sample asks the same questions as before, if it had any.
pub proof fn lemma_added_suits(
    before: DynFrsTree,
    after: DynFrsTree,
    plan: Plan,
    d: SampleData,
    c: Change,
    r: (Option<u64>, bool),
)
    requires
        added_by(before, after, d, c, r),
        plan.suits_all(before.structure()),
    ensures
        plan.suits_all(after.structure()),
{
    assert forall|id: u64| #[trigger] is_inner(after.structure(), id) implies plan.suits(
        after.structure()[id]->split,
    ) by {
        if !before.structure().dom().is_empty() {
            assert(is_inner(before.structure(), id));
        }
    }
}

/// A tree that has forgotten a sample asks the same questions as before.
pub proof fn lemma_removed_suits(
    before: DynFrsTree,
    after: DynFrsTree,
    plan: Plan,
    sample_id: u64,
    features: Seq<i64>,
    was_positive: bool,
    lazy: bool,
    r: (Option<u64>, bool),
)
    requires
        removed_from(before, after, sample_id, features, was_positive, lazy, r),
        plan.suits_all(before.structure()),
    ensures
        plan.suits_all(after.structure()),
{
    assert forall|id: u64| #[trigger] is_inner(after.structure(), id) implies plan.suits(
        after.structure()[id]->split,
    ) by {
        assert(is_inner(before.structure(), id));
    }
}

/// A tree that is a leaf with one sample.
pub open spec fn single_leaf(d: SampleData) -> Nodes {
    Map::<u64, NodeView>::empty().insert(
        ROOT,
        NodeView::Leaf {
            num_samples: 1,
            num_plus: if d.label {
                1
            } else {
                0
            },
            sample_ids: Set::<u64>::empty().insert(d.id),
        },
    )
}

/// What streaming knows of a tree that is a leaf with one sample.
pub open spec fn first_state(d: SampleData, width: u8) -> StateView {
    StateView {
        attr_stats: StatsView {
            num_attributes: width,
            total_samples: 1,
            total_positive: if d.label {
                1
            } else {
                0
            },
            candidates: Seq::empty(),
            constant: Seq::new(width as nat, |i: int| false),
        },
        sample_ids: Seq::<u64>::empty().push(d.id),
        split_attr: None,
        split_threshold: 0,
        delay: DelayTag::NeedsBuild,
        depth: 0,
    }
}

/// A node after a sample has left its counts.
pub open spec fn uncounted(
    n: NodeView,
    rebuild: bool,
    sample_id: u64,
    was_positive: bool,
    leaf: bool,
) -> NodeView {
    let left = if leaf {
        n.without_sample(sample_id, was_positive)
    } else {
        n
    };
    let tagged = if rebuild {
        left.with_tag(LazyTag::Rebuild)
    } else {
        left
    };
    if tagged is Internal {
        tagged.with_counts(lowered(tagged.samples(), true), lowered(tagged.plus(), was_positive))
    } else {
        tagged
    }
}

/// The nodes while a sample is leaving: those from its leaf up to below a node have let
/// it go.
spec fn left_behind(
    nodes: Nodes,
    states: Map<u64, StateView>,
    streams: bool,
    leaf: u64,
    current: u64,
    c: Change,
) -> Nodes {
    Map::new(
        |id: u64| nodes.contains_key(id),
        |id: u64|
            if within(leaf, id) && id > current {
                c.node_removed(nodes[id], known(states, streams, id), id == leaf)
            } else {
                nodes[id]
            },
    )
}

/// What streaming knows while a sample is leaving.
spec fn states_behind(
    states: Map<u64, StateView>,
    streams: bool,
    leaf: u64,
    current: u64,
    c: Change,
) -> Map<u64, StateView> {
    Map::new(
        |id: u64| states.contains_key(id),
        |id: u64|
            if streams && within(leaf, id) && id > current {
                c.state_removed(states[id])
            } else {
                states[id]
            },
    )
}

/// Whether a node below one asks for a new split.
spec fn moved_below(states: Map<u64, StateView>, leaf: u64, current: u64, c: Change) -> bool {
    exists|id: u64| #[trigger]
        states.contains_key(id) && within(leaf, id) && id > current && c.moved_by_remove(states[id])
}

/// Nothing has been left behind at the start.
proof fn lemma_leave_start(
    nodes: Nodes,
    states: Map<u64, StateView>,
    streams: bool,
    leaf: u64,
    c: Change,
)
    ensures
        nodes == left_behind(nodes, states, streams, leaf, leaf, c),
        states == states_behind(states, streams, leaf, leaf, c),
        !moved_below(states, leaf, leaf, c),
        within(leaf, leaf),
{
    assert forall|id: u64| within(leaf, id) implies id <= leaf by {
        lemma_within_order(leaf, id);
    }
    assert(nodes =~= left_behind(nodes, states, streams, leaf, leaf, c));
    assert(states =~= states_behind(states, streams, leaf, leaf, c));
}

/// Between a node above a leaf and its parent there is nothing else above that leaf.
pub proof fn lemma_above_gap(leaf: u64, current: u64, id: u64)
    requires
        within(leaf, current),
        within(leaf, id),
        current >= 1,
    ensures
        id > current / 2 ==> id >= current,
        current / 2 != 0 ==> within(leaf, current / 2),
    decreases leaf,
{
    if leaf == current {
        if id != leaf {
            assert(within(leaf / 2, id));
            lemma_within_order(leaf / 2, id);
        }
        assert(within(leaf / 2, leaf / 2));
    } else {
        assert(within(leaf / 2, current));
        if id == leaf {
            lemma_within_order(leaf / 2, current);
            lemma_above_gap(leaf / 2, current, leaf / 2);
        } else {
            lemma_above_gap(leaf / 2, current, id);
        }
    }
}

/// What one step up leaves behind.
proof fn lemma_leave_step(
    nodes: Nodes,
    states: Map<u64, StateView>,
    streams: bool,
    leaf: u64,
    current: u64,
    c: Change,
)
    requires
        current >= 1,
        within(leaf, current),
    ensures
        ({
            let n = left_behind(nodes, states, streams, leaf, current, c);
            let s = states_behind(states, streams, leaf, current, c);
            let up = current / 2;
            let moved = streams && s.contains_key(current) && c.moved_by_remove(s[current]);
            &&& (if n.contains_key(current) {
                n.insert(
                    current,
                    uncounted(n[current], moved && c.lazy, c.id, c.label, current == leaf),
                )
            } else {
                n
            }) == left_behind(nodes, states, streams, leaf, up, c)
            &&& (if streams && s.contains_key(current) {
                s.insert(current, c.state_removed(s[current]))
            } else {
                s
            }) == states_behind(states, streams, leaf, up, c)
            &&& streams ==> moved_below(states, leaf, up, c) == (moved_below(
                states,
                leaf,
                current,
                c,
            ) || moved)
            &&& up == 0 || within(leaf, up)
        }),
{
    let n = left_behind(nodes, states, streams, leaf, current, c);
    let s = states_behind(states, streams, leaf, current, c);
    let up = current / 2;
    let moved = streams && s.contains_key(current) && c.moved_by_remove(s[current]);
    assert forall|id: u64| #[trigger] within(leaf, id) && id > up implies id >= current by {
        lemma_above_gap(leaf, current, id);
    }
    lemma_above_gap(leaf, current, current);
    assert((if n.contains_key(current) {
        n.insert(current, uncounted(n[current], moved && c.lazy, c.id, c.label, current == leaf))
    } else {
        n
    }) =~= left_behind(nodes, states, streams, leaf, up, c));
    assert((if streams && s.contains_key(current) {
        s.insert(current, c.state_removed(s[current]))
    } else {
        s
    }) =~= states_behind(states, streams, leaf, up, c));
    if moved_below(states, leaf, up, c) {
        let x = choose|id: u64| #[trigger]
            states.contains_key(id) && within(leaf, id) && id > up && c.moved_by_remove(states[id]);
        assert(x == current || x > current);
        if x > current {
            assert(moved_below(states, leaf, current, c));
        }
    }
    if moved_below(states, leaf, current, c) {
        let x = choose|id: u64| #[trigger]
            states.contains_key(id) && within(leaf, id) && id > current && c.moved_by_remove(
                states[id],
            );
        assert(x > up);
    }
}

/// Once the root has let the sample go, every node above the leaf has.
proof fn lemma_left(
    nodes: Nodes,
    states: Map<u64, StateView>,
    streams: bool,
    leaf: u64,
    c: Change,
    tree: &DynFrsTree,
)
    requires
        linked(nodes, tree.limits().max_depth as int),
        narrow(nodes, tree.width()),
    ensures
        left_behind(nodes, states, streams, leaf, 0, c) == nodes_removed(
            nodes,
            states,
            streams,
            leaf,
            c,
        ),
        states_behind(states, streams, leaf, 0, c) == states_removed(states, streams, leaf, c),
        (streams && moved_below(states, leaf, 0, c)) == work_after_remove(states, streams, leaf, c),
        linked(nodes_removed(nodes, states, streams, leaf, c), tree.limits().max_depth as int),
        narrow(nodes_removed(nodes, states, streams, leaf, c), tree.width()),
{
    lemma_ids_positive(nodes, tree.limits().max_depth as int);
    assert(left_behind(nodes, states, streams, leaf, 0, c) =~= nodes_removed(
        nodes,
        states,
        streams,
        leaf,
        c,
    ));
    assert(states_behind(states, streams, leaf, 0, c) =~= states_removed(states, streams, leaf, c));
    if moved_below(states, leaf, 0, c) {
        let x = choose|id: u64| #[trigger]
            states.contains_key(id) && within(leaf, id) && id > 0 && c.moved_by_remove(states[id]);
        assert(x >= 1);
    }
    if work_after_remove(states, streams, leaf, c) {
        let x = choose|id: u64| #[trigger]
            states.contains_key(id) && within(leaf, id) && id >= 1 && c.moved_by_remove(states[id]);
        assert(x > 0);
    }
    let after = nodes_removed(nodes, states, streams, leaf, c);
    assert forall|id: u64| #[trigger] is_inner(after, id) implies is_inner(nodes, id)
        && after[id]->split == nodes[id]->split by {}
    reveal(linked);
    assert forall|id: u64| #[trigger] after.contains_key(id) implies {
        &&& id >= 1
        &&& level(id) <= tree.limits().max_depth
        &&& after[id] is Internal ==> level(id) < tree.limits().max_depth
        &&& id != ROOT ==> is_inner(after, id / 2)
    } by {
        assert(nodes.contains_key(id));
        if id != ROOT {
            assert(is_inner(nodes, id / 2));
        }
    }
}

/// A sample that comes or goes.
pub open spec fn change_of(d: SampleData, lazy: bool) -> Change {
    Change { id: d.id, route: d.values, values: d.values, label: d.label, lazy, inline: false }
}

/// The nodes while a sample is on its way: those above a node have counted it.
spec fn passed(
    nodes: Nodes,
    states: Map<u64, StateView>,
    streams: bool,
    c: Change,
    current: u64,
) -> Nodes {
    Map::new(
        |id: u64| nodes.contains_key(id),
        |id: u64|
            if within(current, id) && id != current {
                c.node_added(nodes[id], known(states, streams, id))
            } else {
                nodes[id]
            },
    )
}

/// What streaming knows while a sample is on its way.
spec fn states_passed(
    states: Map<u64, StateView>,
    streams: bool,
    c: Change,
    current: u64,
) -> Map<u64, StateView> {
    Map::new(
        |id: u64| states.contains_key(id),
        |id: u64|
            if streams && within(current, id) && id != current && id >= 1 {
                c.state_added(states[id])
            } else {
                states[id]
            },
    )
}

/// The nodes once one node has counted a sample.
spec fn node_passed(
    nodes: Nodes,
    states: Map<u64, StateView>,
    streams: bool,
    c: Change,
    id: u64,
) -> Nodes {
    if nodes.contains_key(id) {
        nodes.insert(id, c.node_added(nodes[id], known(states, streams, id)))
    } else {
        nodes
    }
}

/// What streaming knows once one node has seen a sample.
spec fn state_passed(
    states: Map<u64, StateView>,
    streams: bool,
    c: Change,
    id: u64,
) -> Map<u64, StateView> {
    if streams && states.contains_key(id) {
        states.insert(id, c.state_added(states[id]))
    } else {
        states
    }
}

/// What streaming knows once a sample has passed through the tree, before the leaf
/// lists it.
spec fn states_seen(
    nodes: Nodes,
    states: Map<u64, StateView>,
    streams: bool,
    c: Change,
) -> Map<u64, StateView> {
    Map::new(
        |id: u64| states.contains_key(id),
        |id: u64|
            if streams && reaches(nodes, c.route, ROOT, id) {
                c.state_added(states[id])
            } else {
                states[id]
            },
    )
}

/// Whether the split of a node above has moved.
spec fn moved_above(states: Map<u64, StateView>, c: Change, current: u64) -> bool {
    exists|id: u64| #[trigger]
        states.contains_key(id) && within(current, id) && id != current && id >= 1
            && c.moved_by_add(states[id])
}

/// Nothing lies above the root.
proof fn lemma_start(nodes: Nodes, states: Map<u64, StateView>, streams: bool, c: Change)
    requires
        forall|id: u64| #[trigger] nodes.contains_key(id) ==> id >= 1,
    ensures
        nodes == passed(nodes, states, streams, c, ROOT),
        states == states_passed(states, streams, c, ROOT),
        !moved_above(states, c, ROOT),
{
    assert(nodes =~= passed(nodes, states, streams, c, ROOT));
    assert(states =~= states_passed(states, streams, c, ROOT));
}

/// What lies above a child is its parent and what lies above that.
proof fn lemma_step(current: u64, child: u64)
    requires
        child / 2 == current,
        current >= 1,
        child > current,
    ensures
        forall|id: u64|
            #![trigger within(child, id)]
            #![trigger within(current, id)]
            (within(child, id) && id != child) == within(current, id),
{
    assert forall|id: u64|
        #![trigger within(child, id)]
        #![trigger within(current, id)]
        (within(child, id) && id != child) == within(current, id) by {
        if within(current, id) {
            lemma_within_order(current, id);
        }
    }
}

/// A node on the way has not counted the sample before the sample gets there.
proof fn lemma_seen(
    nodes: Nodes,
    states: Map<u64, StateView>,
    streams: bool,
    c: Change,
    current: u64,
)
    ensures
        nodes.contains_key(current) ==> passed(nodes, states, streams, c, current)[current]
            == nodes[current],
        states.contains_key(current) ==> states_passed(states, streams, c, current)[current]
            == states[current],
        known(states_passed(states, streams, c, current), streams, current) == known(
            states,
            streams,
            current,
        ),
        passed(nodes, states, streams, c, current).contains_key(current) == nodes.contains_key(
            current,
        ),
        states_passed(states, streams, c, current).contains_key(current) == states.contains_key(
            current,
        ),
{
}

/// The nodes whose split has moved, seen from a child.
proof fn lemma_onward(
    nodes: Nodes,
    states: Map<u64, StateView>,
    streams: bool,
    c: Change,
    current: u64,
    child: u64,
)
    requires
        child / 2 == current,
        current >= 1,
        child > current,
    ensures
        node_passed(
            passed(nodes, states, streams, c, current),
            states_passed(states, streams, c, current),
            streams,
            c,
            current,
        ) == passed(nodes, states, streams, c, child),
        state_passed(states_passed(states, streams, c, current), streams, c, current)
            == states_passed(states, streams, c, child),
        moved_above(states, c, child) == (moved_above(states, c, current) || (
        states.contains_key(current) && c.moved_by_add(states[current]))),
{
    lemma_step(current, child);
    assert(within(current, current));
    assert(node_passed(
        passed(nodes, states, streams, c, current),
        states_passed(states, streams, c, current),
        streams,
        c,
        current,
    ) =~= passed(nodes, states, streams, c, child));
    assert(state_passed(states_passed(states, streams, c, current), streams, c, current)
        =~= states_passed(states, streams, c, child));
    if moved_above(states, c, child) {
        let x = choose|id: u64| #[trigger]
            states.contains_key(id) && within(child, id) && id != child && id >= 1
                && c.moved_by_add(states[id]);
        assert(within(current, x));
    }
    if moved_above(states, c, current) {
        let x = choose|id: u64| #[trigger]
            states.contains_key(id) && within(current, id) && id != current && id >= 1
                && c.moved_by_add(states[id]);
        assert(within(child, x) && x != child);
    }
    if states.contains_key(current) && c.moved_by_add(states[current]) {
        assert(within(child, current) && current != child) by {
            assert(within(current, current));
        }
    }
}

/// Where a sample ends, the nodes above are those that it has passed through.
proof fn lemma_arrived(
    nodes: Nodes,
    states: Map<u64, StateView>,
    streams: bool,
    c: Change,
    end: u64,
)
    requires
        end >= 1,
        end == end_of(nodes, c.route, ROOT),
        forall|x: u64| #[trigger] is_inner(nodes, x) ==> 1 <= x <= MAX_PARENT,
    ensures
        forall|id: u64| #[trigger]
            reaches(nodes, c.route, ROOT, id) == (within(end, id) && id >= 1),
        !is_inner(nodes, end),
        forall|id: u64| #[trigger]
            nodes.contains_key(id) && id != end && within(end, id) ==> is_inner(nodes, id) || id
                == 0,
        (moved_above(states, c, end) || (states.contains_key(end) && c.moved_by_add(states[end])))
            == (exists|id: u64| #[trigger]
            states.contains_key(id) && reaches(nodes, c.route, ROOT, id) && c.moved_by_add(
                states[id],
            )),
{
    assert forall|id: u64| #[trigger] reaches(nodes, c.route, ROOT, id) == (within(end, id) && id
        >= 1) by {
        lemma_end_path(nodes, c.route, ROOT, id);
        if id >= 1 {
            lemma_within_root(id);
        }
    }
    lemma_end_path(nodes, c.route, ROOT, end);
    assert forall|id: u64| #[trigger]
        nodes.contains_key(id) && id != end && within(end, id) implies is_inner(nodes, id) || id
        == 0 by {
        if id >= 1 {
            lemma_above_is_inner(nodes, c.route, end, id);
        }
    }
    assert(within(end, end));
    if moved_above(states, c, end) {
        let x = choose|id: u64| #[trigger]
            states.contains_key(id) && within(end, id) && id != end && id >= 1 && c.moved_by_add(
                states[id],
            );
        assert(reaches(nodes, c.route, ROOT, x));
    }
    if states.contains_key(end) && c.moved_by_add(states[end]) {
        assert(reaches(nodes, c.route, ROOT, end));
    }
    if exists|id: u64| #[trigger]
        states.contains_key(id) && reaches(nodes, c.route, ROOT, id) && c.moved_by_add(
            states[id],
        ) {
        let x = choose|id: u64| #[trigger]
            states.contains_key(id) && reaches(nodes, c.route, ROOT, id) && c.moved_by_add(
                states[id],
            );
        assert(within(end, x));
    }
}

/// Once a sample has arrived, every node on its way has counted it.
proof fn lemma_all_seen(
    nodes: Nodes,
    states: Map<u64, StateView>,
    streams: bool,
    c: Change,
    end: u64,
)
    requires
        forall|id: u64| #[trigger] nodes.contains_key(id) ==> id >= 1,
        end >= 1,
        forall|id: u64| #[trigger]
            reaches(nodes, c.route, ROOT, id) == (within(end, id) && id >= 1),
    ensures
        node_passed(
            passed(nodes, states, streams, c, end),
            states_passed(states, streams, c, end),
            streams,
            c,
            end,
        ) == nodes_added(nodes, states, streams, c),
        state_passed(states_passed(states, streams, c, end), streams, c, end) == states_seen(
            nodes,
            states,
            streams,
            c,
        ),
{
    assert(within(end, end));
    assert(node_passed(
        passed(nodes, states, streams, c, end),
        states_passed(states, streams, c, end),
        streams,
        c,
        end,
    ) =~= nodes_added(nodes, states, streams, c));
    assert(state_passed(states_passed(states, streams, c, end), streams, c, end) =~= states_seen(
        nodes,
        states,
        streams,
        c,
    ));
}

/// A node above one that a row has reached is an inner one.
pub proof fn lemma_above_is_inner(nodes: Nodes, values: Seq<i64>, end: u64, id: u64)
    requires
        reaches(nodes, values, ROOT, end),
        within(end, id),
        id != end,
        id >= 1,
    ensures
        is_inner(nodes, id),
    decreases end,
{
    assert(within(end / 2, id));
    assert(end != ROOT) by {
        lemma_within_order(end / 2, id);
    }
    if end / 2 != id {
        lemma_above_is_inner(nodes, values, end / 2, id);
    }
}

/// Counting a sample leaves the tree hanging together.
proof fn lemma_added_linked(
    nodes: Nodes,
    states: Map<u64, StateView>,
    streams: bool,
    c: Change,
    tree: &DynFrsTree,
)
    requires
        linked(nodes, tree.limits().max_depth as int),
        narrow(nodes, tree.width()),
    ensures
        linked(nodes_added(nodes, states, streams, c), tree.limits().max_depth as int),
        narrow(nodes_added(nodes, states, streams, c), tree.width()),
{
    let after = nodes_added(nodes, states, streams, c);
    assert forall|id: u64| #[trigger] is_inner(after, id) implies is_inner(nodes, id)
        && after[id]->split == nodes[id]->split by {}
    reveal(linked);
    assert forall|id: u64| #[trigger] after.contains_key(id) implies {
        &&& id >= 1
        &&& level(id) <= tree.limits().max_depth
        &&& after[id] is Internal ==> level(id) < tree.limits().max_depth
        &&& id != ROOT ==> is_inner(after, id / 2)
    } by {
        assert(nodes.contains_key(id));
        if id != ROOT {
            assert(is_inner(nodes, id / 2));
        }
    }
}

} // verus!
