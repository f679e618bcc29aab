//! How a streaming controller is set up.

use crate::forest::adapt::AdaptiveKConfig;
use crate::forest::ForestConfig;
use crate::registry::BudgetConfig;
use crate::tree::hoeffding::HoeffdingConfig;
use crate::tree::TreeConfig;
use vstd::prelude::*;

verus! {

/// How the influences of samples are found.
#[derive(Clone, Copy, Debug, PartialEq, Eq, Structural)]
pub enum InfluenceStrategy {
    /// They are not.
    Off,
    /// By how much oftener the trees that have learnt a sample are right than the others.
    Oob,
    /// By how much smaller the loss of the trees that have learnt a sample is.
    Loss,
    /// By how sure the forest is of a sample; what it is sure of is not missed.
    Confidence,
    /// As [`InfluenceStrategy::Oob`], averaged over time.
    CumulativeOob,
    /// By how near a sample lies to the middle of the latest ones.
    FeatureDistance,
}

/// The strategy that a name stands for; any other name stands for none.
pub open spec fn strategy_of(name: Seq<char>) -> InfluenceStrategy {
    if name == "oob"@ {
        InfluenceStrategy::Oob
    } else if name == "loss"@ {
        InfluenceStrategy::Loss
    } else if name == "confidence"@ {
        InfluenceStrategy::Confidence
    } else if name == "cumulative_oob"@ {
        InfluenceStrategy::CumulativeOob
    } else if name == "feature_distance"@ {
        InfluenceStrategy::FeatureDistance
    } else {
        InfluenceStrategy::Off
    }
}

/// Tells whether two texts are the same.
fn same_text(a: &str, b: &str) -> (r: bool)
    ensures
        r == (a@ == b@),
{
    let n: usize = a.unicode_len();
    if n != b.unicode_len() {
        return false;
    }
    let mut i: usize = 0;
    while i < n
        invariant
            i <= n == a@.len() == b@.len(),
            a@.take(i as int) == b@.take(i as int),
        decreases n - i,
    {
        if a.get_char(i) != b.get_char(i) {
            return false;
        }
        assert(a@.take(i as int + 1) =~= a@.take(i as int).push(a@[i as int]));
        assert(b@.take(i as int + 1) =~= b@.take(i as int).push(b@[i as int]));
        i = i + 1;
    }
    assert(a@.take(i as int) =~= a@);
    assert(b@.take(i as int) =~= b@);
    true
}

impl InfluenceStrategy {
    /// The strategy that a name stands for.
    pub fn from_name(name: &str) -> (r: Self)
        ensures
            r == strategy_of(name@),
    {
        if same_text(name, "oob") {
            InfluenceStrategy::Oob
        } else if same_text(name, "loss") {
            InfluenceStrategy::Loss
        } else if same_text(name, "confidence") {
            InfluenceStrategy::Confidence
        } else if same_text(name, "cumulative_oob") {
            InfluenceStrategy::CumulativeOob
        } else if same_text(name, "feature_distance") {
            InfluenceStrategy::FeatureDistance
        } else {
            InfluenceStrategy::Off
        }
    }
}

/// How a streaming controller is set up. Shares, weights and thresholds are given in
/// parts of 10^9.
#[derive(Clone, Copy, Debug)]
pub struct SUDAConfig {
    pub num_trees: usize,
    /// How many trees a sample is put into.
    pub k: usize,
    /// How many trees a positive sample is put into; zero stands for the same number as
    /// any other sample.
    pub minority_k: usize,
    pub max_depth: u32,
    pub num_features: u8,
    pub seed: u64,
    /// How many samples are seen before there is any maintenance.
    pub warmup_samples: usize,
    /// How many of the latest predictions current metrics are taken from; zero stands for
    /// all.
    pub metrics_window: usize,
    /// The memory that what is kept of the samples may take.
    pub memory_max_bytes: usize,
    /// Whether the samples of a rare class are put into more trees.
    pub adaptive_k_enabled: bool,
    pub k_min: usize,
    pub k_max: usize,
    /// Whether there is a budget.
    pub budget_enabled: bool,
    /// How many samples are kept at most.
    pub budget_max_samples: usize,
    /// How many samples go at least when there are too many.
    pub budget_eviction_batch: usize,
    /// A class with a smaller share of the samples than this is protected.
    pub budget_minority_protection: i64,
    pub budget_age_weight: i64,
    pub budget_influence_weight: i64,
    pub budget_class_weight: i64,
    /// Whether the forest keeps what it has learnt from samples that go.
    pub budget_skip_forest_forget: bool,
    /// Whether samples go by their distance from the latest ones.
    pub budget_use_feature_distance: bool,
    /// Whether the forest is grown anew from the samples that are kept instead of
    /// forgetting those that go.
    pub window_retrain_mode: bool,
    /// After how many batches from which samples went the forest is grown anew.
    pub window_retrain_interval: u64,
    /// Whether the forest is grown anew sample by sample.
    pub window_retrain_incremental: bool,
    /// Whether the influence before the latest one is remembered.
    pub influence_tracking_enabled: bool,
    /// After how many batches influences are found again; zero stands for never.
    pub influence_update_interval: usize,
    /// For how many samples influences are found again.
    pub influence_sample_count: usize,
    pub influence_strategy: InfluenceStrategy,
    /// After how many samples distances are found again.
    pub feat_dist_update_interval: u64,
    /// After how many batches the trees are worked on; zero stands for never.
    pub develop_interval: u64,
    /// By how much the impurity of a split may rise before its node is marked.
    pub split_quality_threshold: Option<i64>,
    /// How old a split may get before its node is grown anew.
    pub split_max_age: Option<u64>,
}

/// The memory that a limit in MiB stands for; no limit is given as zero. What is more
/// than can be addressed is no limit either.
pub fn memory_limit(mebibytes: usize) -> (r: usize)
    ensures
        r == (if mebibytes == 0 || mebibytes * 1048576 > usize::MAX {
            usize::MAX as int
        } else {
            mebibytes * 1048576
        }),
{
    if mebibytes == 0 || mebibytes > usize::MAX / 1048576 {
        return usize::MAX;
    }
    mebibytes * 1048576
}

/// The age that a limit stands for; no limit is given as zero.
pub fn age_limit(age: u64) -> (r: Option<u64>)
    ensures
        r == (if age == 0 {
            None
        } else {
            Some(age)
        }),
{
    if age == 0 {
        None
    } else {
        Some(age)
    }
}

impl Default for SUDAConfig {
    fn default() -> (r: Self)
        ensures
            r.wf(),
            r.num_trees == 50,
            r.k == 10,
            r.minority_k == 0,
            r.max_depth == 15,
            r.num_features == 41,
            r.seed == 42,
            r.warmup_samples == 1000,
            r.metrics_window == 1000,
            r.memory_max_bytes == 104_857_600,
            r.adaptive_k_enabled,
            r.k_min == 3,
            r.k_max == 50,
            !r.budget_enabled,
            r.budget_max_samples == 10000,
            r.budget_eviction_batch == 100,
            r.budget_minority_protection == 100_000_000,
            r.budget_age_weight == 400_000_000,
            r.budget_influence_weight == 400_000_000,
            r.budget_class_weight == 200_000_000,
            !r.budget_skip_forest_forget,
            !r.budget_use_feature_distance,
            !r.window_retrain_mode,
            r.window_retrain_interval == 1,
            !r.window_retrain_incremental,
            !r.influence_tracking_enabled,
            r.influence_update_interval == 10,
            r.influence_sample_count == 200,
            r.influence_strategy == InfluenceStrategy::Off,
            r.feat_dist_update_interval == 2000,
            r.develop_interval == 5,
            r.split_quality_threshold is None,
            r.split_max_age is None,
    {
        SUDAConfig {
            num_trees: 50,
            k: 10,
            minority_k: 0,
            max_depth: 15,
            num_features: 41,
            seed: 42,
            warmup_samples: 1000,
            metrics_window: 1000,
            memory_max_bytes: 104_857_600,
            adaptive_k_enabled: true,
            k_min: 3,
            k_max: 50,
            budget_enabled: false,
            budget_max_samples: 10000,
            budget_eviction_batch: 100,
            budget_minority_protection: 100_000_000,
            budget_age_weight: 400_000_000,
            budget_influence_weight: 400_000_000,
            budget_class_weight: 200_000_000,
            budget_skip_forest_forget: false,
            budget_use_feature_distance: false,
            window_retrain_mode: false,
            window_retrain_interval: 1,
            window_retrain_incremental: false,
            influence_tracking_enabled: false,
            influence_update_interval: 10,
            influence_sample_count: 200,
            influence_strategy: InfluenceStrategy::Off,
            feat_dist_update_interval: 2000,
            develop_interval: 5,
            split_quality_threshold: None,
            split_max_age: None,
        }
    }
}

impl SUDAConfig {
    /// Whether a controller can be set up like this: node identifiers have 64 bits, and a
    /// rare class gets no fewer trees than a common one.
    pub open spec fn wf(&self) -> bool {
        &&& self.max_depth <= 63
        &&& self.adaptive_k_enabled ==> self.k_min <= self.k_max
    }

    /// Tells whether a controller can be set up like this.
    pub fn is_valid(&self) -> (r: bool)
        ensures
            r == self.wf(),
    {
        self.max_depth <= 63 && (!self.adaptive_k_enabled || self.k_min <= self.k_max)
    }

    /// How the forest is set up.
    pub open spec fn forest_config(&self) -> ForestConfig {
        ForestConfig {
            num_trees: self.num_trees,
            k: self.k,
            minority_k: self.minority_k,
            tree_config: TreeConfig {
                max_depth: self.max_depth as usize,
                min_samples_split: 2,
                min_samples_leaf: 1,
                max_features: None,
                num_splits_to_try: 10,
                split_quality_threshold: self.split_quality_threshold,
                hoeffding: HoeffdingConfig::standard(),
            },
            seed: self.seed,
        }
    }

    /// How the numbers of trees follow from the shares of the classes.
    pub open spec fn adaptive_config(&self) -> Option<AdaptiveKConfig> {
        if self.adaptive_k_enabled {
            Some(
                AdaptiveKConfig {
                    k_min: self.k_min,
                    k_max: self.k_max,
                    ratio_threshold: 300_000_000,
                    extreme_threshold: 10_000_000,
                },
            )
        } else {
            None
        }
    }

    /// The budget.
    pub open spec fn budget_config(&self) -> Option<BudgetConfig> {
        if self.budget_enabled {
            Some(
                BudgetConfig {
                    max_samples: self.budget_max_samples,
                    eviction_batch_size: self.budget_eviction_batch,
                    minority_protection_ratio: self.budget_minority_protection,
                    age_weight: self.budget_age_weight,
                    influence_weight: self.budget_influence_weight,
                    class_weight: self.budget_class_weight,
                    random_eviction: false,
                    class_aware_random: false,
                },
            )
        } else {
            None
        }
    }
}

/// A strategy goes by one name alone; any other name finds no influences.
pub proof fn law_strategy_goes_by_name(name: Seq<char>)
    ensures
        strategy_of(name) == InfluenceStrategy::Oob <==> name == "oob"@,
        strategy_of(name) == InfluenceStrategy::Loss <==> name == "loss"@,
        strategy_of(name) == InfluenceStrategy::Confidence <==> name == "confidence"@,
        strategy_of(name) == InfluenceStrategy::CumulativeOob <==> name == "cumulative_oob"@,
        strategy_of(name) == InfluenceStrategy::FeatureDistance <==> name == "feature_distance"@,
{
    reveal_strlit("oob");
    reveal_strlit("loss");
    reveal_strlit("confidence");
    reveal_strlit("cumulative_oob");
    reveal_strlit("feature_distance");
    assert("oob"@.len() == 3 && "loss"@.len() == 4 && "confidence"@.len() == 10);
    assert("cumulative_oob"@.len() == 14 && "feature_distance"@.len() == 16);
}

/// What a controller is set up with is handed on: the limits of the budget to the registry if
/// there is one, and the bounds on the number of trees to the forest if they are to adapt.
pub proof fn law_settings_are_handed_on(config: SUDAConfig)
    ensures
        config.budget_config() is Some <==> config.budget_enabled,
        config.budget_config() matches Some(b) ==> {
            &&& b.max_samples == config.budget_max_samples
            &&& b.eviction_batch_size == config.budget_eviction_batch
            &&& b.minority_protection_ratio == config.budget_minority_protection
            &&& b.age_weight == config.budget_age_weight
            &&& b.influence_weight == config.budget_influence_weight
            &&& b.class_weight == config.budget_class_weight
            &&& !b.random_eviction
            &&& !b.class_aware_random
        },
        config.adaptive_config() is Some <==> config.adaptive_k_enabled,
        config.adaptive_config() matches Some(a) ==> a.k_min == config.k_min && a.k_max
            == config.k_max && 0 < a.extreme_threshold < a.ratio_threshold,
        config.forest_config().num_trees == config.num_trees,
        config.forest_config().k == config.k,
        config.forest_config().minority_k == config.minority_k,
        config.forest_config().seed == config.seed,
        config.forest_config().tree_config.max_depth == config.max_depth,
        config.forest_config().tree_config.split_quality_threshold
            == config.split_quality_threshold,
{
}

} // verus!
