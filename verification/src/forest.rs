//! Forests of trees that can forget.

use crate::dataset::AttributeType;
use crate::node::NodeView;
use crate::random::{generator, seeded, Inquiry, Question};
use crate::streaming::StateView;
use crate::table::IdTable;
use crate::tree::grow::Plan;
use crate::tree::{DynFrsTree, TreeConfig};
use rand_xorshift::XorShiftRng;
use vstd::prelude::*;

use adapt::Tuning;

pub mod adapt;
pub mod develop;
pub mod hoeffding;
pub mod influence;
pub mod inspect;
pub mod laws;
pub mod learn;
pub mod ledger;
pub mod occ;
pub mod settle;
pub mod stream;
pub mod summaries;
pub mod unlearn;
pub mod verdicts;
pub mod vote;

verus! {

/// How a forest is set up.
#[derive(Clone, Copy, Debug)]
pub struct ForestConfig {
    pub num_trees: usize,
    /// How many trees a sample is put into.
    pub k: usize,
    /// How many trees a positive sample is put into; zero stands for the same number as
    /// any other sample.
    pub minority_k: usize,
    pub tree_config: TreeConfig,
    pub seed: u64,
}

impl Default for ForestConfig {
    fn default() -> (r: Self)
        ensures
            r.num_trees == 100,
            r.k == 10,
            r.minority_k == 0,
            r.tree_config.max_depth == 20,
            r.tree_config.min_samples_split == 2,
            r.tree_config.min_samples_leaf == 1,
            r.tree_config.max_features is None,
            r.tree_config.num_splits_to_try == 1,
            r.tree_config.split_quality_threshold is None,
            !r.tree_config.hoeffding.enabled,
            r.tree_config.hoeffding.grace_period == 200,
            r.tree_config.hoeffding.log_inverse_delta == 16_118_095_651,
            r.tree_config.hoeffding.tau == 50_000_000,
            r.seed == 42,
    {
        ForestConfig {
            num_trees: 100,
            k: 10,
            minority_k: 0,
            tree_config: TreeConfig::default(),
            seed: 42,
        }
    }
}

impl ForestConfig {
    /// How many trees a sample of a class is put into.
    pub open spec fn k_of(&self, label: bool) -> usize {
        if label && self.minority_k > 0 {
            self.minority_k
        } else {
            self.k
        }
    }
}

/// A forest whose trees learn and forget samples one by one. Each sample is put into a
/// few of the trees.
pub struct DynFrsForest {
    trees: Vec<DynFrsTree>,
    /// The trees of each sample.
    sample_tree_map: IdTable<Vec<usize>>,
    /// The class of each sample.
    sample_labels: IdTable<bool>,
    config: ForestConfig,
    num_attributes: u8,
    rng: XorShiftRng,
    /// The questions that have been put to the generator.
    log: Inquiry,
    /// How many samples have asked for work when they came.
    add_rebuild_marks: u64,
    /// How many trees have been asked for work when samples went.
    forget_rebuild_marks: u64,
    /// How many trees the samples of each class are put into, and why.
    tuning: Tuning,
}

/// Every attribute is numerical.
pub open spec fn all_numerical(width: u8) -> Seq<AttributeType> {
    Seq::new(width as nat, |i: int| AttributeType::Numerical)
}

/// What lists hold.
pub open spec fn list_views(lists: Map<u64, Vec<usize>>) -> Map<u64, Seq<usize>> {
    lists.map_values(|v: Vec<usize>| v@)
}

impl DynFrsForest {
    /// The trees.
    pub closed spec fn forest(&self) -> Seq<DynFrsTree> {
        self.trees@
    }

    /// The trees of each sample.
    pub closed spec fn members(&self) -> Map<u64, Seq<usize>> {
        list_views(self.sample_tree_map@)
    }

    /// The class of each sample.
    pub closed spec fn classes(&self) -> Map<u64, bool> {
        self.sample_labels@
    }

    /// The configuration.
    pub closed spec fn settings(&self) -> ForestConfig {
        self.config
    }

    /// The number of attributes.
    pub closed spec fn width(&self) -> u8 {
        self.num_attributes
    }

    /// How often samples have asked for work, when they came and when they went.
    pub closed spec fn marks(&self) -> (u64, u64) {
        (self.add_rebuild_marks, self.forget_rebuild_marks)
    }

    /// How many trees the samples of each class are put into, and why.
    pub closed spec fn tuning(&self) -> Tuning {
        self.tuning
    }

    /// How many trees a sample that comes is put into.
    pub open spec fn k_now(&self, label: bool) -> usize {
        match self.tuning().class_k(label) {
            Some(k) => k,
            None => self.settings().k_of(label),
        }
    }

    /// The generator that trees are chosen with.
    pub closed spec fn source(&self) -> XorShiftRng {
        self.rng
    }

    /// The questions by which trees have been chosen so far.
    pub closed spec fn asked(&self) -> Seq<Question> {
        self.log@
    }

    /// What the growth of the trees goes by.
    pub open spec fn plan(&self) -> Plan {
        Plan {
            config: self.settings().tree_config,
            types: all_numerical(self.width()),
            width: self.width(),
            position: 0,
        }
    }

    /// Whether a tree belongs in a place of the forest.
    pub open spec fn fits_in(&self, tree: DynFrsTree, i: int) -> bool {
        &&& tree.wf()
        &&& tree.limits() == self.settings().tree_config
        &&& tree.width() == self.width()
        &&& tree.number() == i
        &&& self.plan().suits_all(tree.structure())
    }

    /// Whether every tree belongs in its place, and every sample with a class has
    /// distinct trees that there are.
    pub open spec fn wf(&self) -> bool {
        &&& self.settings().tree_config.max_depth <= 63
        &&& self.tuning().wf()
        &&& self.forest().len() == self.settings().num_trees
        &&& forall|i: int|
            0 <= i < self.forest().len() ==> self.fits_in(#[trigger] self.forest()[i], i)
        &&& self.members().dom() == self.classes().dom()
        &&& forall|id: u64| #[trigger]
            self.members().contains_key(id) ==> in_forest(
                self.members()[id],
                self.settings().num_trees as int,
            )
    }

    /// The settings of two forests are the same.
    pub open spec fn same_setting(&self, other: &DynFrsForest) -> bool {
        self.settings() == other.settings() && self.width() == other.width()
    }

    /// A forest whose trees have no nodes.
    pub fn new(config: ForestConfig, num_attributes: u8) -> (r: Self)
        requires
            config.tree_config.max_depth <= 63,
        ensures
            r.wf(),
            r.settings() == config,
            r.width() == num_attributes,
            forall|i: int| 0 <= i < config.num_trees ==> blank(#[trigger] r.forest()[i]),
            forall|i: int|
                0 <= i < config.num_trees ==> (#[trigger] r.forest()[i]).source() == generator(
                    vstd::wrapping::u64_specs::wrapping_add(config.seed, i as u64),
                ),
            r.members() == Map::<u64, Seq<usize>>::empty(),
            r.classes() == Map::<u64, bool>::empty(),
            r.marks() == (0u64, 0u64),
            r.tuning() == Tuning::untouched(),
            r.source() == generator(config.seed),
            r.asked().len() == 0,
    {
        let trees = new_trees(&config, num_attributes);
        let r = DynFrsForest {
            trees,
            sample_tree_map: IdTable::new(),
            sample_labels: IdTable::new(),
            config,
            num_attributes,
            rng: seeded(config.seed),
            log: Inquiry::new(),
            add_rebuild_marks: 0,
            forget_rebuild_marks: 0,
            tuning: Tuning::new(),
        };
        assert(r.members() =~= Map::<u64, Seq<usize>>::empty());
        assert(r.members().dom() =~= r.classes().dom());
        r
    }

    /// Empties the forest and starts its generators again; the marks stay.
    pub fn reset(&mut self)
        requires
            old(self).wf(),
        ensures
            final(self).wf(),
            emptied(*old(self), *final(self)),
    {
        self.sample_tree_map.clear();
        self.sample_labels.clear();
        self.rng = seeded(self.config.seed);
        self.trees = new_trees(&self.config, self.num_attributes);
        assert(self.members() =~= Map::<u64, Seq<usize>>::empty());
        assert(self.members().dom() =~= self.classes().dom());
    }

    /// How many trees a sample of a class is put into.
    pub fn k_for_label(&self, label: bool) -> (r: usize)
        ensures
            r == self.settings().k_of(label),
    {
        if label && self.config.minority_k > 0 {
            self.config.minority_k
        } else {
            self.config.k
        }
    }
}

/// Whether a list names distinct trees of a forest, in order.
pub open spec fn in_forest(list: Seq<usize>, num_trees: int) -> bool {
    &&& forall|i: int, j: int| 0 <= i < j < list.len() ==> list[i] < list[j]
    &&& forall|i: int| 0 <= i < list.len() ==> #[trigger] list[i] < num_trees
}

/// What a forest becomes when it is emptied: its trees have no nodes, and its generators
/// start again; marks and tuning stay.
pub open spec fn emptied(before: DynFrsForest, after: DynFrsForest) -> bool {
    &&& after.same_setting(&before)
    &&& after.marks() == before.marks()
    &&& after.tuning() == before.tuning()
    &&& after.forest().len() == before.settings().num_trees
    &&& forall|i: int| 0 <= i < after.forest().len() ==> blank(#[trigger] after.forest()[i])
    &&& forall|i: int|
        0 <= i < after.forest().len() ==> (#[trigger] after.forest()[i]).source() == generator(
            vstd::wrapping::u64_specs::wrapping_add(before.settings().seed, i as u64),
        )
    &&& after.members() == Map::<u64, Seq<usize>>::empty()
    &&& after.classes() == Map::<u64, bool>::empty()
    &&& after.source() == generator(before.settings().seed)
    &&& after.asked() == before.asked()
}

/// Whether a tree has no nodes and does not stream.
pub open spec fn blank(tree: DynFrsTree) -> bool {
    &&& tree.structure() == Map::<u64, NodeView>::empty()
    &&& tree.placement() == Map::<u64, u64>::empty()
    &&& tree.states() == Map::<u64, StateView>::empty()
    &&& !tree.streams()
}

/// Makes the trees of a forest.
fn new_trees(config: &ForestConfig, num_attributes: u8) -> (r: Vec<DynFrsTree>)
    requires
        config.tree_config.max_depth <= 63,
    ensures
        r@.len() == config.num_trees,
        forall|i: int|
            0 <= i < r@.len() ==> {
                let tree = #[trigger] r@[i];
                &&& tree.wf()
                &&& tree.limits() == config.tree_config
                &&& tree.width() == num_attributes
                &&& tree.number() == i
                &&& blank(tree)
                &&& tree.source() == generator(
                    vstd::wrapping::u64_specs::wrapping_add(config.seed, i as u64),
                )
            },
{
    let mut trees: Vec<DynFrsTree> = Vec::new();
    while trees.len() < config.num_trees
        invariant
            config.tree_config.max_depth <= 63,
            trees@.len() <= config.num_trees,
            forall|i: int|
                0 <= i < trees@.len() ==> {
                    let tree = #[trigger] trees@[i];
                    &&& tree.wf()
                    &&& tree.limits() == config.tree_config
                    &&& tree.width() == num_attributes
                    &&& tree.number() == i
                    &&& blank(tree)
                    &&& tree.source() == generator(
                        vstd::wrapping::u64_specs::wrapping_add(config.seed, i as u64),
                    )
                },
        decreases config.num_trees - trees@.len(),
    {
        let tree = DynFrsTree::new(
            trees.len(),
            config.seed,
            config.tree_config,
            num_attributes,
        );
        trees.push(tree);
    }
    trees
}

} // verus!
