//! A forest that follows a stream: it predicts each batch, learns it, and forgets samples
//! for which there is no room.

use crate::forest::adapt::{AdaptiveKConfig, Tuning};
use crate::forest::learn::all_full;
use crate::forest::stream::feature_views;
use crate::forest::{blank, emptied, DynFrsForest, ForestConfig};
use crate::fraction::Fraction;
use crate::metrics::streaming::{ConfusionMatrix, MetricsTracker, StreamingMetrics};
use crate::random::generator;
use crate::registry::report::with_influence;
use crate::registry::select::{admitted, Rule};
use crate::registry::{blank_registry, no_evictions, BudgetConfig, InfluenceRegistry, RegistryView};
use crate::sample::VecSample;
use crate::table::IdTable;
use crate::tree::hoeffding::HoeffdingConfig;
use crate::tree::TreeConfig;
use vstd::prelude::*;

pub mod batch;
pub mod config;
pub mod findings;
pub mod laws;
pub mod maintain;
pub mod window;

pub use config::{InfluenceStrategy, SUDAConfig};

verus! {

/// Something that knows the features of samples.
pub trait FeatureProvider: Send + Sync {
    /// The features that are known.
    spec fn known_features(&self) -> Map<u64, Seq<i64>>;

    /// The features of a sample, if they are known.
    fn get_features(&self, sample_id: u64) -> (r: Option<Vec<i64>>)
        ensures
            match r {
                Some(f) => self.known_features().contains_key(sample_id) && f@
                    == self.known_features()[sample_id],
                None => !self.known_features().contains_key(sample_id),
            },
    ;
}

/// A store of features.
pub struct SimpleFeatureStore {
    features: IdTable<Vec<i64>>,
}

impl View for SimpleFeatureStore {
    type V = Map<u64, Seq<i64>>;

    closed spec fn view(&self) -> Map<u64, Seq<i64>> {
        feature_views(self.features@)
    }
}

impl SimpleFeatureStore {
    /// A store without features.
    pub fn new() -> (r: Self)
        ensures
            r@ == Map::<u64, Seq<i64>>::empty(),
    {
        let r = SimpleFeatureStore { features: IdTable::new() };
        assert(r@ =~= Map::<u64, Seq<i64>>::empty());
        r
    }

    /// Keeps the features of a sample.
    pub fn insert(&mut self, id: u64, features: Vec<i64>)
        ensures
            final(self)@ == old(self)@.insert(id, features@),
    {
        let _ = self.features.insert(id, features);
        assert(self@ =~= old(self)@.insert(id, features@));
    }

    /// Gives up the features of a sample, and hands them out.
    pub fn remove(&mut self, id: u64) -> (r: Option<Vec<i64>>)
        ensures
            final(self)@ == old(self)@.remove(id),
            match r {
                Some(f) => old(self)@.contains_key(id) && f@ == old(self)@[id],
                None => !old(self)@.contains_key(id),
            },
    {
        let r = self.features.remove(id);
        assert(self@ =~= old(self)@.remove(id));
        r
    }

    /// The number of samples.
    pub fn len(&self) -> (r: usize)
        ensures
            r == self@.len(),
    {
        assert(self@.dom() =~= self.features@.dom());
        self.features.len()
    }

    /// Whether there are no features.
    pub fn is_empty(&self) -> (r: bool)
        ensures
            r == (self@.len() == 0),
    {
        self.len() == 0
    }

    /// Gives up all features.
    pub fn clear(&mut self)
        ensures
            final(self)@ == Map::<u64, Seq<i64>>::empty(),
    {
        self.features.clear();
        assert(self@ =~= Map::<u64, Seq<i64>>::empty());
    }

    /// The samples, in any order.
    pub fn keys(&self) -> (r: Vec<u64>)
        ensures
            r@.no_duplicates(),
            r@.to_set() == self@.dom(),
    {
        let n: usize = self.features.len();
        let ghost order = self.features.order();
        let mut list: Vec<u64> = Vec::new();
        while list.len() < n
            invariant
                list@.len() <= n == order.len(),
                order == self.features.order(),
                list@ == order.take(list@.len() as int),
            decreases n - list@.len(),
        {
            let ghost before = list@;
            list.push(self.features.key_at(list.len()));
            assert(list@ =~= order.take(list@.len() as int));
        }
        assert(list@ =~= order);
        assert(self@.dom() =~= self.features@.dom());
        list
    }
}

impl Default for SimpleFeatureStore {
    fn default() -> (r: Self)
        ensures
            r@ == Map::<u64, Seq<i64>>::empty(),
    {
        SimpleFeatureStore::new()
    }
}

impl FeatureProvider for SimpleFeatureStore {
    open spec fn known_features(&self) -> Map<u64, Seq<i64>> {
        self@
    }

    fn get_features(&self, sample_id: u64) -> (r: Option<Vec<i64>>) {
        match self.features.get(sample_id) {
            Some(values) => Some(copy_values(values)),
            None => None,
        }
    }
}

/// Copies a row of values.
pub(crate) fn copy_values(values: &Vec<i64>) -> (r: Vec<i64>)
    ensures
        r@ == values@,
{
    let mut copy: Vec<i64> = Vec::new();
    let mut i: usize = 0;
    while i < values.len()
        invariant
            i <= values@.len(),
            copy@ == values@.take(i as int),
        decreases values@.len() - i,
    {
        copy.push(values[i]);
        i = i + 1;
        assert(copy@ =~= values@.take(i as int));
    }
    assert(copy@ =~= values@);
    copy
}

/// What a controller counts.
#[derive(Clone, Copy, Debug)]
pub struct Clock {
    /// The place in the stream.
    pub position: u64,
    /// How many samples have been seen.
    pub total_samples: u64,
    /// Whether enough samples have been seen.
    pub is_warmed_up: bool,
    /// The identifier of the next sample.
    pub next_sample_id: u64,
    /// Whether the forest has been grown from samples at the start.
    pub initial_fit_done: bool,
    /// How many batches have passed since the start, for influences.
    pub influence_updates: u64,
    /// How many batches have passed since the trees were worked on.
    pub since_develop: u64,
    /// From how many batches samples have gone since the forest was grown anew.
    pub since_retrain: u64,
    /// How many samples have come since distances were found.
    pub since_distances: u64,
}

/// A clock that has counted nothing.
pub open spec fn clock_start() -> Clock {
    Clock {
        position: 0,
        total_samples: 0,
        is_warmed_up: false,
        next_sample_id: 0,
        initial_fit_done: false,
        influence_updates: 0,
        since_develop: 0,
        since_retrain: 0,
        since_distances: 0,
    }
}

impl Clock {
    /// A clock that has counted nothing.
    fn new() -> (r: Self)
        ensures
            r == clock_start(),
    {
        Clock {
            position: 0,
            total_samples: 0,
            is_warmed_up: false,
            next_sample_id: 0,
            initial_fit_done: false,
            influence_updates: 0,
            since_develop: 0,
            since_retrain: 0,
            since_distances: 0,
        }
    }
}

/// What a controller holds.
pub struct ControllerView {
    pub forest: DynFrsForest,
    pub registry: RegistryView,
    pub metrics: MetricsTracker,
    /// The features that are kept.
    pub store: Map<u64, Seq<i64>>,
    pub config: SUDAConfig,
    pub clock: Clock,
    /// The latest batch.
    pub held: Seq<VecSample>,
}

/// Whether every row of features has a value for each attribute.
pub open spec fn store_full(store: Map<u64, Seq<i64>>, width: u8) -> bool {
    forall|id: u64| #[trigger] store.contains_key(id) ==> store[id].len() >= width
}

impl ControllerView {
    /// Whether every row has a value for each attribute, and identifiers are given out in
    /// order.
    pub open spec fn wf(&self) -> bool {
        &&& self.config.wf()
        &&& self.forest.wf()
        &&& self.forest.width() == self.config.num_features
        &&& self.metrics.wf()
        &&& store_full(self.store, self.config.num_features)
        &&& self.store.dom().finite()
        &&& all_full(self.held, self.config.num_features)
        &&& forall|id: u64| #[trigger]
            self.store.contains_key(id) ==> id < self.clock.next_sample_id
        &&& forall|id: u64| #[trigger]
            self.forest.members().contains_key(id) ==> id < self.clock.next_sample_id
    }

    /// Whether so many more samples can be counted.
    pub open spec fn has_room(&self, n: int) -> bool {
        &&& self.registry.place + n <= i64::MAX
        &&& self.clock.position + n < u64::MAX
        &&& self.clock.total_samples + n < u64::MAX
        &&& self.clock.next_sample_id + n < u64::MAX
        &&& self.clock.influence_updates < u64::MAX
        &&& self.clock.since_develop < u64::MAX
        &&& self.clock.since_retrain < u64::MAX
        &&& self.clock.since_distances + n < u64::MAX
        &&& self.store.len() + n <= u32::MAX
    }
}

/// A forest that follows a stream.
pub struct StreamingController {
    forest: DynFrsForest,
    registry: InfluenceRegistry,
    metrics: MetricsTracker,
    feature_store: SimpleFeatureStore,
    config: SUDAConfig,
    clock: Clock,
    last_batch_samples: Vec<VecSample>,
}

impl View for StreamingController {
    type V = ControllerView;

    closed spec fn view(&self) -> ControllerView {
        ControllerView {
            forest: self.forest,
            registry: self.registry@,
            metrics: self.metrics,
            store: self.feature_store@,
            config: self.config,
            clock: self.clock,
            held: self.last_batch_samples@,
        }
    }
}

impl StreamingController {
    /// Whether the parts of the controller belong together.
    pub closed spec fn wf(&self) -> bool {
        &&& self.registry.wf()
        &&& self@.wf()
    }

    /// A controller that has seen nothing.
    pub fn new(config: SUDAConfig) -> (r: Self)
        requires
            config.wf(),
        ensures
            r.wf(),
            r@.config == config,
            r@.forest.settings() == config.forest_config(),
            r@.forest.width() == config.num_features,
            forall|i: int|
                0 <= i < config.num_trees ==> blank(#[trigger] r@.forest.forest()[i]),
            r@.forest.source() == generator(config.seed),
            forall|i: int|
                0 <= i < config.num_trees ==> (#[trigger] r@.forest.forest()[i]).source()
                    == generator(vstd::wrapping::u64_specs::wrapping_add(config.seed, i as u64)),
            r@.forest.members() == Map::<u64, Seq<usize>>::empty(),
            r@.forest.marks() == (0u64, 0u64),
            r@.forest.tuning() == (Tuning {
                adaptive: config.adaptive_config(),
                ..Tuning::untouched()
            }),
            r@.registry == (RegistryView {
                budget: config.budget_config(),
                remembers: config.influence_tracking_enabled,
                ..blank_registry(config.memory_max_bytes)
            }),
            r@.metrics.all() == (ConfusionMatrix { tn: 0, fp: 0, fn_: 0, tp: 0 }),
            r@.metrics.latest() == Seq::<(bool, bool)>::empty(),
            r@.metrics.window() == config.metrics_window,
            r@.store == Map::<u64, Seq<i64>>::empty(),
            r@.clock == clock_start(),
            r@.held == Seq::<VecSample>::empty(),
    {
        let tree_config = TreeConfig {
            max_depth: config.max_depth as usize,
            min_samples_split: 2,
            min_samples_leaf: 1,
            max_features: None,
            num_splits_to_try: 10,
            split_quality_threshold: config.split_quality_threshold,
            hoeffding: HoeffdingConfig::default(),
        };
        let forest_config = ForestConfig {
            num_trees: config.num_trees,
            k: config.k,
            minority_k: config.minority_k,
            tree_config,
            seed: config.seed,
        };
        let mut forest = DynFrsForest::new(forest_config, config.num_features);
        if config.adaptive_k_enabled {
            forest.set_adaptive_k_config(
                AdaptiveKConfig {
                    k_min: config.k_min,
                    k_max: config.k_max,
                    ratio_threshold: 300_000_000,
                    extreme_threshold: 10_000_000,
                },
            );
        }
        let mut registry = InfluenceRegistry::with_max_bytes(config.memory_max_bytes);
        if config.budget_enabled {
            registry.set_budget_config(
                BudgetConfig {
                    max_samples: config.budget_max_samples,
                    eviction_batch_size: config.budget_eviction_batch,
                    minority_protection_ratio: config.budget_minority_protection,
                    age_weight: config.budget_age_weight,
                    influence_weight: config.budget_influence_weight,
                    class_weight: config.budget_class_weight,
                    random_eviction: false,
                    class_aware_random: false,
                },
            );
        }
        if config.influence_tracking_enabled {
            registry.set_influence_tracking(true);
        }
        let metrics = if config.metrics_window > 0 {
            MetricsTracker::with_window(config.metrics_window)
        } else {
            MetricsTracker::new()
        };
        let r = StreamingController {
            forest,
            registry,
            metrics,
            feature_store: SimpleFeatureStore::new(),
            config,
            clock: Clock::new(),
            last_batch_samples: Vec::new(),
        };
        assert(r@.held =~= Seq::<VecSample>::empty());
        r
    }

    /// Whether so many more samples can be counted.
    pub fn has_room(&self, n: usize) -> (r: bool)
        ensures
            r == self@.has_room(n as int),
    {
        let most: u128 = 0xffff_ffff_ffff_ffff;
        let n: u128 = n as u128;
        self.registry.current_position() as u128 + n <= 0x7fff_ffff_ffff_ffff
            && self.clock.position as u128 + n < most && self.clock.total_samples as u128 + n
            < most && self.clock.next_sample_id as u128 + n < most
            && self.clock.influence_updates < u64::MAX && self.clock.since_develop < u64::MAX
            && self.clock.since_retrain < u64::MAX && self.clock.since_distances as u128 + n < most
            && self.feature_store.len() as u128 + n <= 0xffff_ffff
    }

    /// The metrics of the latest predictions.
    pub fn current_metrics(&self) -> (r: StreamingMetrics)
        requires
            self.wf(),
        ensures
            r.measures(self@.metrics.current()),
    {
        self.metrics.current_metrics()
    }

    /// The metrics of all predictions.
    pub fn cumulative_metrics(&self) -> (r: StreamingMetrics)
        requires
            self.wf(),
        ensures
            r.measures(self@.metrics.all()),
    {
        self.metrics.cumulative_metrics()
    }

    /// The place in the stream.
    pub fn position(&self) -> (r: u64)
        ensures
            r == self@.clock.position,
    {
        self.clock.position
    }

    /// How many samples have been seen.
    pub fn total_samples(&self) -> (r: u64)
        ensures
            r == self@.clock.total_samples,
    {
        self.clock.total_samples
    }

    /// How many samples are kept.
    pub fn registry_size(&self) -> (r: usize)
        requires
            self.wf(),
        ensures
            r == self@.registry.kept.len(),
    {
        self.registry.len()
    }

    /// The estimate of the memory that what is kept of the samples takes, in MiB.
    pub fn memory_mb(&self) -> (r: Fraction)
        ensures
            r == (Fraction { num: self@.registry.bytes as i128, den: 1048576 }),
    {
        self.registry.memory_mb()
    }

    /// Whether enough samples have been seen.
    pub fn is_warmed_up(&self) -> (r: bool)
        ensures
            r == self@.clock.is_warmed_up,
    {
        self.clock.is_warmed_up
    }

    /// Whether the forest has been grown from samples at the start.
    pub fn is_pretrained(&self) -> (r: bool)
        ensures
            r == (self@.clock.initial_fit_done && self@.clock.is_warmed_up),
    {
        self.clock.initial_fit_done && self.clock.is_warmed_up
    }

    /// How the controller is set up.
    pub fn config(&self) -> (r: &SUDAConfig)
        ensures
            *r == self@.config,
    {
        &self.config
    }

    /// The forest.
    pub fn forest(&self) -> (r: &DynFrsForest)
        requires
            self.wf(),
        ensures
            *r == self@.forest,
            r.wf(),
            r.width() == self@.config.num_features,
    {
        &self.forest
    }

    /// What is kept of the samples.
    pub fn registry(&self) -> (r: &InfluenceRegistry)
        requires
            self.wf(),
        ensures
            r@ == self@.registry,
            r.wf(),
    {
        &self.registry
    }

    /// What is kept of the samples, to be changed in place.
    pub fn registry_mut(&mut self) -> (r: &mut InfluenceRegistry)
        requires
            old(self).wf(),
        ensures
            r@ == old(self)@.registry,
            r.wf(),
            final(self)@ == (ControllerView { registry: final(r)@, ..old(self)@ }),
            final(r).wf() ==> final(self).wf(),
    {
        &mut self.registry
    }

    /// Starts again from nothing. The place of the registry and the tuning of the forest
    /// stay.
    pub fn reset(&mut self)
        requires
            old(self).wf(),
        ensures
            final(self).wf(),
            emptied(old(self)@.forest, final(self)@.forest),
            final(self)@.config == old(self)@.config,
            final(self)@.registry == (RegistryView {
                kept: Map::empty(),
                order: Seq::empty(),
                bytes: 0,
                evictions: no_evictions(),
                ..old(self)@.registry
            }),
            final(self)@.metrics.all() == (ConfusionMatrix { tn: 0, fp: 0, fn_: 0, tp: 0 }),
            final(self)@.metrics.latest() == Seq::<(bool, bool)>::empty(),
            final(self)@.metrics.window() == old(self)@.metrics.window(),
            final(self)@.store == Map::<u64, Seq<i64>>::empty(),
            final(self)@.clock == clock_start(),
            final(self)@.held == Seq::<VecSample>::empty(),
    {
        self.forest.reset();
        self.metrics.reset();
        self.registry.clear();
        self.feature_store.clear();
        self.clock = Clock::new();
        self.last_batch_samples = Vec::new();
        assert(self@.held =~= Seq::<VecSample>::empty());
    }

    /// Whether there is a budget.
    pub fn budget_enabled(&self) -> (r: bool)
        ensures
            r == self@.config.budget_enabled,
    {
        self.config.budget_enabled
    }

    /// How many samples have gone for the budget.
    pub fn total_budget_evicted(&self) -> (r: usize)
        ensures
            r == self@.registry.evictions.evicted_count,
    {
        self.registry.eviction_stats().evicted_count
    }

    /// How many samples have gone for the budget: all, those of the negative class, those
    /// of the positive class, and those that had come to do harm.
    pub fn budget_eviction_stats(&self) -> (r: (usize, usize, usize, usize))
        ensures
            ({
                let e = self@.registry.evictions;
                r == (e.evicted_count, e.evicted_benign, e.evicted_attack, e.evicted_degraded)
            }),
    {
        let stats = self.registry.eviction_stats();
        (stats.evicted_count, stats.evicted_benign, stats.evicted_attack, stats.evicted_degraded)
    }

    /// Whether the influence before the latest one is remembered.
    pub fn influence_tracking_enabled(&self) -> (r: bool)
        ensures
            r == self@.config.influence_tracking_enabled,
    {
        self.config.influence_tracking_enabled
    }

    /// For how many samples the influence is known, and how many samples are kept.
    pub fn influence_coverage(&self) -> (r: (usize, usize))
        requires
            self.wf(),
        ensures
            r.0 == with_influence(self@.registry).len(),
            r.1 == self@.registry.kept.len(),
    {
        self.registry.influence_coverage()
    }

    /// How many samples have come to do harm.
    pub fn influence_degraded_count(&self) -> (r: usize)
        requires
            self.wf(),
        ensures
            r == admitted(self@.registry, Rule::Degraded).len(),
    {
        let n: usize = self.registry.len();
        proof {
            self.registry.lemma_view_wf();
            let all = admitted(self@.registry, Rule::Degraded);
            assert(all.subset_of(self@.registry.kept.dom()));
            vstd::set_lib::lemma_len_subset(all, self@.registry.kept.dom());
        }
        let list = self.registry.get_influence_degraded_samples();
        list.len()
    }
}

} // verus!
