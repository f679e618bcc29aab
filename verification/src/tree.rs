//! Decision trees that can forget.

use crate::node::Node;
use crate::node::NodeView;
use crate::random::{generator, seeded, Inquiry, Question};
use crate::streaming::{StateView, StreamingNodeState};
use crate::table::IdTable;
use rand_xorshift::XorShiftRng;
use vstd::prelude::*;

pub mod batch;
pub mod collect;
pub mod develop;
pub mod grow;
pub mod hoeffding;
pub mod inspect;
pub mod laws;
pub mod lazy;
pub mod limits;
pub mod marks;
pub mod retrain;
pub mod routes;
pub mod settle;
pub mod shape;
pub mod stream;
pub mod unlearn;
pub mod walk;
pub mod weighted;

use crate::sample::{ids, Rows};
use grow::{placed, same_outside, Plan};
use hoeffding::HoeffdingConfig;
use shape::{linked, narrow, Nodes};

verus! {

/// When a tree stops growing, and how hard it looks for splits.
#[derive(Clone, Copy, Debug)]
pub struct TreeConfig {
    /// The largest number of steps from the root to a leaf.
    pub max_depth: usize,
    /// Fewer samples than this are not split.
    pub min_samples_split: usize,
    /// Each side of a split has at least so many samples.
    pub min_samples_leaf: usize,
    /// How many attributes are tried for a split; by default the square root of their
    /// number, rounded up.
    pub max_features: Option<usize>,
    /// How many splits are tried for each attribute.
    pub num_splits_to_try: usize,
    /// By how much the impurity of a split may rise while samples are forgotten before
    /// the node is marked for rebuilding, in parts of 10^9; no node is marked for that by
    /// default.
    pub split_quality_threshold: Option<i64>,
    /// Whether and when leaves are split on the spot.
    pub hoeffding: HoeffdingConfig,
}

impl Default for TreeConfig {
    fn default() -> (r: Self)
        ensures
            r.max_depth == 20,
            r.min_samples_split == 2,
            r.min_samples_leaf == 1,
            r.max_features is None,
            r.num_splits_to_try == 1,
            r.split_quality_threshold is None,
            !r.hoeffding.enabled,
            r.hoeffding.grace_period == 200,
            r.hoeffding.log_inverse_delta == 16_118_095_651,
            r.hoeffding.tau == 50_000_000,
    {
        TreeConfig {
            max_depth: 20,
            min_samples_split: 2,
            min_samples_leaf: 1,
            max_features: None,
            num_splits_to_try: 1,
            split_quality_threshold: None,
            hoeffding: HoeffdingConfig::default(),
        }
    }
}

/// A decision tree that learns and forgets samples one by one.
pub struct DynFrsTree {
    index: usize,
    rng: XorShiftRng,
    /// The questions that have been put to the generator.
    log: Inquiry,
    nodes: IdTable<Node>,
    /// The leaf of each sample.
    sample_leaf_map: IdTable<u64>,
    config: TreeConfig,
    num_attributes: u8,
    /// What streaming knows of each node.
    streaming_states: IdTable<StreamingNodeState>,
    streaming_enabled: bool,
}

/// What the nodes of a table are.
pub open spec fn node_views(nodes: Map<u64, Node>) -> Nodes {
    nodes.map_values(|n: Node| n@)
}

/// What the states of a table are.
pub open spec fn state_views(states: Map<u64, StreamingNodeState>) -> Map<u64, StateView> {
    states.map_values(|s: StreamingNodeState| s@)
}

impl DynFrsTree {
    /// The nodes.
    pub closed spec fn structure(&self) -> Nodes {
        node_views(self.nodes@)
    }

    /// The leaf of each sample.
    pub closed spec fn placement(&self) -> Map<u64, u64> {
        self.sample_leaf_map@
    }

    /// What streaming knows of each node.
    pub closed spec fn states(&self) -> Map<u64, StateView> {
        state_views(self.streaming_states@)
    }

    /// The configuration.
    pub closed spec fn limits(&self) -> TreeConfig {
        self.config
    }

    /// The number of attributes.
    pub closed spec fn width(&self) -> u8 {
        self.num_attributes
    }

    /// Whether streaming is on.
    pub closed spec fn streams(&self) -> bool {
        self.streaming_enabled
    }

    /// The number of the tree in its forest.
    pub closed spec fn number(&self) -> usize {
        self.index
    }

    /// The generator that splits are drawn from.
    pub closed spec fn source(&self) -> XorShiftRng {
        self.rng
    }

    /// Whether the tree hangs together: node identifiers have 64 bits, so no leaf lies
    /// deeper than 63 steps; every node hangs below an inner one; and every split looks
    /// at an attribute that there is.
    pub closed spec fn wf(&self) -> bool {
        &&& self.config.max_depth <= 63
        &&& linked(self.structure(), self.config.max_depth as int)
        &&& narrow(self.structure(), self.num_attributes)
        &&& self.wf_states()
    }

    /// Everything but the nodes, the placement and the generator is the same.
    pub open spec fn same_setting(&self, other: &DynFrsTree) -> bool {
        &&& self.limits() == other.limits()
        &&& self.width() == other.width()
        &&& self.number() == other.number()
        &&& self.streams() == other.streams()
    }

    /// The questions by which attributes, splits and samples have been drawn so far.
    pub closed spec fn asked(&self) -> Seq<Question> {
        self.log@
    }

    /// Whether every state is in order.
    pub closed spec fn wf_states(&self) -> bool {
        forall|id: u64| #[trigger]
            self.streaming_states@.contains_key(id) ==> self.streaming_states@[id].wf()
    }

    /// Everything but the states is the same.
    pub closed spec fn same_but_states(&self, other: &DynFrsTree) -> bool {
        &&& self.index == other.index
        &&& self.rng == other.rng
        &&& self.log == other.log
        &&& self.nodes == other.nodes
        &&& self.sample_leaf_map == other.sample_leaf_map
        &&& self.config == other.config
        &&& self.num_attributes == other.num_attributes
        &&& self.streaming_enabled == other.streaming_enabled
    }

    /// Everything but the nodes is the same.
    pub closed spec fn same_but_nodes(&self, other: &DynFrsTree) -> bool {
        &&& self.index == other.index
        &&& self.rng == other.rng
        &&& self.log == other.log
        &&& self.sample_leaf_map == other.sample_leaf_map
        &&& self.config == other.config
        &&& self.num_attributes == other.num_attributes
        &&& self.streaming_states == other.streaming_states
        &&& self.streaming_enabled == other.streaming_enabled
    }

    /// Everything but the generator is the same.
    pub closed spec fn same_but_source(&self, other: &DynFrsTree) -> bool {
        &&& self.index == other.index
        &&& self.nodes == other.nodes
        &&& self.sample_leaf_map == other.sample_leaf_map
        &&& self.config == other.config
        &&& self.num_attributes == other.num_attributes
        &&& self.streaming_states == other.streaming_states
        &&& self.streaming_enabled == other.streaming_enabled
    }

    /// Whether the part of the tree below a top node has been grown anew from some
    /// samples, and nothing else has changed but the generator.
    pub closed spec fn regrown(&self, before: &DynFrsTree, plan: Plan, m: Rows, top: u64) -> bool {
        &&& self.index == before.index
        &&& self.config == before.config
        &&& self.num_attributes == before.num_attributes
        &&& self.streaming_states == before.streaming_states
        &&& self.streaming_enabled == before.streaming_enabled
        &&& same_outside(before.structure(), self.structure(), top)
        &&& plan.grown(self.structure(), m, top)
        &&& placed(before.placement(), self.placement(), self.structure(), ids(m), top)
        &&& before.log@.is_prefix_of(self.log@)
    }

    /// A tree without nodes.
    pub fn new(index: usize, seed: u64, config: TreeConfig, num_attributes: u8) -> (r: Self)
        requires
            config.max_depth <= 63,
        ensures
            r.wf(),
            r.structure() == Map::<u64, NodeView>::empty(),
            r.placement() == Map::<u64, u64>::empty(),
            r.states() == Map::<u64, StateView>::empty(),
            r.limits() == config,
            r.width() == num_attributes,
            r.number() == index,
            !r.streams(),
            r.source() == generator(vstd::wrapping::u64_specs::wrapping_add(seed, index as u64)),
    {
        let r = DynFrsTree {
            index,
            rng: seeded(seed.wrapping_add(index as u64)),
            log: Inquiry::new(),
            nodes: IdTable::new(),
            sample_leaf_map: IdTable::new(),
            config,
            num_attributes,
            streaming_states: IdTable::new(),
            streaming_enabled: false,
        };
        reveal(linked);
        assert(r.structure() =~= Map::<u64, NodeView>::empty());
        assert(r.states() =~= Map::<u64, StateView>::empty());
        r
    }
}

} // verus!
