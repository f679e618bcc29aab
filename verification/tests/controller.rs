use suda_core::controller::{
    FeatureProvider, InfluenceStrategy, SUDAConfig, SimpleFeatureStore, StreamingController,
};
use suda_core::fixed::ONE;
use suda_core::root::{root_of_quotient, square_root};
use suda_core::wide::Long;

fn fixed(x: f32) -> i64 {
    (x as f64 * ONE as f64).round() as i64
}

/// A row of four equal values.
fn row(x: f32) -> Vec<i64> {
    vec![fixed(x); 4]
}

#[test]
fn test_config_default() {
    let config = SUDAConfig::default();
    assert_eq!(config.num_trees, 50);
    assert_eq!(config.k, 10);
    assert!(config.adaptive_k_enabled);
}

#[test]
fn test_controller_creation() {
    let config = SUDAConfig {
        num_features: 10,
        warmup_samples: 100,
        ..Default::default()
    };

    let controller = StreamingController::new(config);
    assert!(!controller.is_warmed_up());
    assert_eq!(controller.total_samples(), 0);
    assert_eq!(controller.registry_size(), 0);
}

#[test]
fn test_controller_warmup() {
    let config = SUDAConfig {
        num_features: 4,
        warmup_samples: 10,
        ..Default::default()
    };

    let mut controller = StreamingController::new(config);

    let features: Vec<Vec<i64>> = (0..15).map(|i| row(i as f32)).collect();
    let labels: Vec<bool> = (0..15).map(|i| i % 2 == 0).collect();

    let result = controller.stream_batch(&features, &labels);

    assert!(controller.is_warmed_up());
    assert_eq!(controller.total_samples(), 15);
    assert_eq!(result.predictions.len(), 15);
}

#[test]
fn test_controller_fit() {
    let config = SUDAConfig {
        num_features: 4,
        warmup_samples: 100,
        ..Default::default()
    };

    let mut controller = StreamingController::new(config);

    let features: Vec<Vec<i64>> = (0..50).map(|i| row(i as f32)).collect();
    let labels: Vec<bool> = (0..50).map(|i| i % 2 == 0).collect();

    let metrics = controller.fit(&features, &labels);

    assert!(controller.is_pretrained());
    assert_eq!(controller.registry_size(), 50);
    assert!(metrics.total_samples > 0);
}

#[test]
fn test_predict_batch_only_has_no_side_effects() {
    let config = SUDAConfig {
        num_features: 4,
        warmup_samples: 100,
        ..Default::default()
    };

    let mut controller = StreamingController::new(config);

    let features: Vec<Vec<i64>> = (0..30).map(|i| row(i as f32)).collect();
    let labels: Vec<bool> = (0..30).map(|i| i % 2 == 0).collect();
    controller.fit(&features, &labels);

    let metrics_before = controller.current_metrics();
    let total_samples_before = controller.total_samples();
    let registry_size_before = controller.registry_size();
    let position_before = controller.position();

    let preds = controller.predict_batch_only(&features[..10]);

    assert_eq!(preds.len(), 10);
    assert_eq!(controller.total_samples(), total_samples_before);
    assert_eq!(controller.registry_size(), registry_size_before);
    assert_eq!(controller.position(), position_before);

    let metrics_after = controller.current_metrics();
    assert_eq!(metrics_after.total_samples, metrics_before.total_samples);
    assert_eq!(metrics_after.accuracy, metrics_before.accuracy);
    assert_eq!(metrics_after.gmean_squared, metrics_before.gmean_squared);
}

#[test]
fn test_stream_batch_empty_input() {
    let config = SUDAConfig {
        num_features: 4,
        warmup_samples: 100,
        ..Default::default()
    };
    let mut controller = StreamingController::new(config);

    let result = controller.stream_batch(&[], &[]);
    assert!(result.predictions.is_empty());
    assert_eq!(result.budget_evicted, 0);

    let features: Vec<Vec<i64>> = vec![row(1.0)];
    let result = controller.stream_batch(&features, &[]);
    assert!(result.predictions.is_empty());
}

#[test]
fn test_budget_eviction_during_streaming() {
    let config = SUDAConfig {
        num_features: 4,
        warmup_samples: 10,
        budget_enabled: true,
        budget_max_samples: 50,
        budget_eviction_batch: 10,
        ..Default::default()
    };
    let mut controller = StreamingController::new(config);

    let features: Vec<Vec<i64>> = (0..30).map(|i| row(i as f32)).collect();
    let labels: Vec<bool> = (0..30).map(|i| i % 3 == 0).collect();
    controller.fit(&features, &labels);

    let mut total_evicted = 0u64;
    for batch in 0..10 {
        let batch_features: Vec<Vec<i64>> = (0..10).map(|i| row((batch * 10 + i) as f32)).collect();
        let batch_labels: Vec<bool> = (0..10).map(|i| i % 3 == 0).collect();
        let result = controller.stream_batch(&batch_features, &batch_labels);
        total_evicted += result.budget_evicted as u64;
    }

    assert!(controller.registry_size() <= 60, "Registry {} should be near budget 50", controller.registry_size());
    assert!(total_evicted > 0, "Should have evicted some samples");
}

fn small(budget: usize) -> SUDAConfig {
    SUDAConfig {
        num_trees: 8,
        k: 3,
        num_features: 4,
        max_depth: 6,
        warmup_samples: 10,
        budget_enabled: budget > 0,
        budget_max_samples: budget,
        budget_eviction_batch: 5,
        ..Default::default()
    }
}

fn batch(first: usize, n: usize) -> (Vec<Vec<i64>>, Vec<bool>) {
    let rows = (first..first + n).map(|i| row((i % 17) as f32)).collect();
    let labels = (first..first + n).map(|i| i % 17 < 6).collect();
    (rows, labels)
}

#[test]
fn a_strategy_has_a_name() {
    assert_eq!(InfluenceStrategy::from_name("oob"), InfluenceStrategy::Oob);
    assert_eq!(InfluenceStrategy::from_name("loss"), InfluenceStrategy::Loss);
    assert_eq!(InfluenceStrategy::from_name("confidence"), InfluenceStrategy::Confidence);
    assert_eq!(InfluenceStrategy::from_name("cumulative_oob"), InfluenceStrategy::CumulativeOob);
    assert_eq!(InfluenceStrategy::from_name("feature_distance"), InfluenceStrategy::FeatureDistance);
    assert_eq!(InfluenceStrategy::from_name("none"), InfluenceStrategy::Off);
    assert_eq!(InfluenceStrategy::from_name("Oob"), InfluenceStrategy::Off);
}

#[test]
fn a_store_gives_back_what_was_put_in() {
    let mut store = SimpleFeatureStore::new();
    assert!(store.is_empty());
    store.insert(3, row(1.0));
    store.insert(5, row(2.0));
    assert_eq!(store.get_features(3), Some(row(1.0)));
    assert_eq!(store.get_features(4), None);
    store.insert(3, row(7.0));
    assert_eq!(store.get_features(3), Some(row(7.0)));
    assert_eq!(store.len(), 2);
    let mut keys = store.keys();
    keys.sort();
    assert_eq!(keys, vec![3, 5]);
    assert_eq!(store.remove(5), Some(row(2.0)));
    assert_eq!(store.remove(5), None);
    store.clear();
    assert!(store.is_empty());
}

#[test]
fn square_roots_lose_their_fraction() {
    for (n, r) in [(0u128, 0u64), (1, 1), (3, 1), (4, 2), (99, 9), (100, 10)] {
        assert_eq!(square_root(n), r);
    }
    assert_eq!(square_root(u128::MAX), u64::MAX);
    assert_eq!(square_root((1u128 << 100) - 1), (1u64 << 50) - 1);
}

#[test]
fn predictions_are_made_before_the_batch_is_learnt() {
    let mut controller = StreamingController::new(small(0));
    let (rows, _) = batch(0, 17);
    let result = controller.stream_batch(&rows, &[true; 17]);
    // Trees without nodes vote for the negative class
    assert!(result.predictions.iter().all(|&p| !p));
    assert!(controller.predict_batch_only(&rows).iter().all(|&p| p));
}

#[test]
fn an_evicted_sample_is_forgotten() {
    let mut controller = StreamingController::new(small(40));
    let (rows, labels) = batch(0, 30);
    controller.fit(&rows, &labels);
    for i in 0..8 {
        let (rows, labels) = batch(30 + 10 * i, 10);
        controller.stream_batch(&rows, &labels);
        assert!(controller.registry_size() <= 40);
    }
    let kept = controller.registry().ids_in_order();
    let mut learnt = controller.forest().get_all_sample_ids();
    learnt.sort();
    let mut sorted = kept.clone();
    sorted.sort();
    assert_eq!(learnt, sorted);
    assert_eq!(controller.total_budget_evicted(), 110 - kept.len());
}

#[test]
fn the_forest_may_keep_what_it_has_learnt() {
    let mut config = small(40);
    config.budget_skip_forest_forget = true;
    let mut controller = StreamingController::new(config);
    for i in 0..10 {
        let (rows, labels) = batch(10 * i, 10);
        controller.stream_batch(&rows, &labels);
    }
    assert!(controller.registry_size() <= 40);
    assert_eq!(controller.forest().num_samples(), 100);
}

#[test]
fn the_forest_may_be_grown_anew_from_what_is_kept() {
    for incremental in [false, true] {
        let mut config = small(40);
        config.window_retrain_mode = true;
        config.window_retrain_incremental = incremental;
        let mut controller = StreamingController::new(config);
        for i in 0..10 {
            let (rows, labels) = batch(10 * i, 10);
            controller.stream_batch(&rows, &labels);
        }
        let kept = controller.registry().ids_in_order();
        assert!(kept.len() <= 40);
        assert_eq!(controller.forest().num_samples(), kept.len());
        for id in kept {
            assert_eq!(
                controller.registry().get_tree_indices(id).unwrap(),
                &controller.forest().get_sample_tree_indices(id)
            );
        }
    }
}

#[test]
fn influences_are_found_again() {
    for (strategy, found) in [
        (InfluenceStrategy::Off, false),
        (InfluenceStrategy::Oob, true),
        (InfluenceStrategy::CumulativeOob, true),
        (InfluenceStrategy::Confidence, true),
        (InfluenceStrategy::Loss, false),
    ] {
        let mut config = small(60);
        config.influence_strategy = strategy;
        config.influence_update_interval = 1;
        let mut controller = StreamingController::new(config);
        let (rows, labels) = batch(0, 30);
        controller.fit(&rows, &labels);
        let (rows, labels) = batch(30, 10);
        let result = controller.stream_batch(&rows, &labels);
        assert_eq!(result.loss_due, strategy == InfluenceStrategy::Loss);
        assert_eq!(controller.influence_coverage().0 > 0, found);
        assert_eq!(controller.influence_coverage().1, 40);
    }
}

#[test]
fn confidence_is_never_above_zero() {
    let mut config = small(60);
    config.influence_strategy = InfluenceStrategy::Confidence;
    config.influence_update_interval = 1;
    let mut controller = StreamingController::new(config);
    let (rows, labels) = batch(0, 30);
    controller.fit(&rows, &labels);
    controller.stream_batch(&rows[..5], &labels[..5]);
    for id in controller.registry().ids_in_order() {
        let x = controller.registry().get_influence(id).unwrap();
        assert!((-1_000_000_000..=0).contains(&x));
    }
}

#[test]
fn distances_are_taken_from_the_middle() {
    let mut config = small(10);
    config.num_features = 2;
    config.budget_use_feature_distance = true;
    config.feat_dist_update_interval = 9;
    let mut controller = StreamingController::new(config);
    let point = |x: f32, y: f32| vec![fixed(x), fixed(y)];
    let mut rows: Vec<Vec<i64>> = vec![point(0.0, 0.0), point(6.0, 0.0), point(6.0, 8.0), point(0.0, 8.0)];
    rows.extend((0..4).map(|_| point(3.0, 4.0)));
    controller.stream_batch(&rows, &[true, false, true, false, true, false, true, false]);
    assert_eq!(controller.influence_coverage().0, 0);
    controller.stream_batch(&[point(3.0, 4.0)], &[true]);
    // Found before the ninth sample was registered; each corner lies 5 from the middle
    assert_eq!(controller.registry().get_influence(0), Some(-5_000_000_000));
    assert_eq!(controller.registry().get_influence(2), Some(-5_000_000_000));
    assert_eq!(controller.registry().get_influence(4), Some(0));
}

#[test]
fn a_reset_starts_again() {
    let mut controller = StreamingController::new(small(0));
    let (rows, labels) = batch(0, 20);
    controller.fit(&rows, &labels);
    assert!(controller.is_pretrained());
    controller.reset();
    assert!(!controller.is_pretrained());
    assert_eq!(controller.registry_size(), 0);
    assert_eq!(controller.total_samples(), 0);
    assert_eq!(controller.position(), 0);
    assert_eq!(controller.forest().num_samples(), 0);
    assert!(controller.has_room(1000));
}

#[test]
fn a_batch_of_different_lengths_changes_nothing() {
    let mut controller = StreamingController::new(small(0));
    let (rows, labels) = batch(0, 20);
    controller.fit(&rows, &labels[..7]);
    assert!(!controller.is_pretrained());
    assert_eq!(controller.registry_size(), 0);
}

#[test]
fn a_controller_knows_what_it_accepts() {
    assert!(SUDAConfig::default().is_valid());
    assert!(!SUDAConfig { max_depth: 64, ..SUDAConfig::default() }.is_valid());
    assert!(!SUDAConfig { k_min: 60, ..SUDAConfig::default() }.is_valid());
    assert!(SUDAConfig { k_max: usize::MAX, ..SUDAConfig::default() }.is_valid());
    assert!(SUDAConfig { influence_sample_count: 0, ..SUDAConfig::default() }.is_valid());
    let controller = StreamingController::new(small(0));
    assert!(controller.fits(&[row(1.0)]));
    assert!(!controller.fits(&[row(1.0), vec![0, 0, 0]]));
}

#[test]
fn influences_may_be_found_for_no_sample() {
    let mut controller = StreamingController::new(SUDAConfig {
        num_features: 4,
        warmup_samples: 10,
        k_max: usize::MAX,
        budget_enabled: true,
        influence_update_interval: 1,
        influence_sample_count: 0,
        influence_strategy: InfluenceStrategy::Oob,
        ..Default::default()
    });
    for start in 0..4 {
        let (rows, labels) = batch(start * 20, 20);
        controller.stream_batch(&rows, &labels);
    }
    assert_eq!(controller.total_samples(), 80);
    assert_eq!(controller.registry().influence_coverage(), (0, 80));
}

#[test]
fn counts_stay_exact_while_samples_come_and_go() {
    let mut controller = StreamingController::new(SUDAConfig { develop_interval: 2, ..small(50) });
    let (rows, labels) = batch(0, 40);
    controller.fit(&rows, &labels);
    for i in 2..14 {
        let (rows, labels) = batch(i * 20, 20);
        controller.stream_batch(&rows, &labels);
        let forest = controller.forest();
        let counted: usize = (0..forest.num_trees())
            .filter_map(|t| forest.tree(t))
            .filter_map(|t| t.node_sample_count(1))
            .sum();
        let placed: usize = controller
            .registry()
            .sample_ids()
            .into_iter()
            .map(|id| forest.get_sample_tree_indices(id).len())
            .sum();
        assert_eq!(counted, placed);
        assert_eq!(forest.num_samples(), controller.registry_size());
    }
}

#[test]
fn no_batch_is_looked_at_that_is_none() {
    let mut controller = StreamingController::new(small(0));
    let (rows, labels) = batch(0, 20);
    controller.fit(&rows, &labels);
    let before = (
        controller.total_samples(),
        controller.position(),
        controller.registry_size(),
        controller.is_warmed_up(),
        controller.current_metrics().accuracy,
    );
    // The rows are too short, but there is one label too few
    let short = vec![vec![], vec![1]];
    let result = controller.stream_batch(&short, &labels[..1]);
    assert!(result.predictions.is_empty());
    assert_eq!(result.budget_evicted, 0);
    assert_eq!(result.total_samples, before.0);
    assert_eq!(result.registry_size, before.2);
    assert!(!result.loss_due);
    controller.fit(&short, &labels[..3]);
    controller.stream_batch(&[], &labels);
    let after = (
        controller.total_samples(),
        controller.position(),
        controller.registry_size(),
        controller.is_warmed_up(),
        controller.current_metrics().accuracy,
    );
    assert_eq!(after, before);
    assert_eq!(controller.predict_batch_only(&rows).len(), 20);
}

#[test]
fn a_batch_is_tested_before_it_is_learnt() {
    let mut controller = StreamingController::new(small(0));
    let (rows, labels) = batch(0, 34);
    controller.fit(&rows, &labels);
    for i in 0..5 {
        let (rows, labels) = batch(34 + 9 * i, 9);
        let expected = controller.predict_batch_only(&rows);
        let (total, position) = (controller.total_samples(), controller.position());
        let result = controller.stream_batch(&rows, &labels);
        assert_eq!(result.predictions, expected);
        assert_eq!(controller.total_samples(), total + 9);
        assert_eq!(controller.position(), position + 9);
        assert!(controller.is_warmed_up());
    }
}

#[test]
fn controllers_of_one_seed_agree() {
    let (rows, labels) = batch(0, 50);
    let run = |seed: u64| {
        let mut controller = StreamingController::new(SUDAConfig { seed, ..small(0) });
        controller.fit(&rows, &labels);
        let trees: Vec<Vec<usize>> =
            (0..50).map(|id| controller.forest().get_sample_tree_indices(id)).collect();
        (trees, controller.predict_batch_only(&rows))
    };
    assert_eq!(run(3), run(3));
    assert_ne!(run(3).0, run(4).0);
}

#[test]
fn distances_are_found_to_the_last_part() {
    let mut config = small(4);
    config.num_features = 2;
    config.budget_use_feature_distance = true;
    config.feat_dist_update_interval = 4;
    let point = |x: f32, y: f32| vec![fixed(x), fixed(y)];
    // The middle lies at one third, which no feature can have
    let mut controller = StreamingController::new(config.clone());
    let rows = vec![point(0.0, 5.0), point(0.0, 5.0), point(1.0, 5.0)];
    controller.stream_batch(&rows, &[true, false, true]);
    controller.stream_batch(&[point(0.0, 5.0)], &[true]);
    assert_eq!(controller.registry().get_influence(0), Some(-333_333_333));
    assert_eq!(controller.registry().get_influence(2), Some(-666_666_666));
    // The square root of two
    config.budget_max_samples = 3;
    config.feat_dist_update_interval = 3;
    let mut controller = StreamingController::new(config);
    controller.stream_batch(&[point(0.0, 0.0), point(2.0, 2.0)], &[true, false]);
    controller.stream_batch(&[point(0.0, 5.0)], &[true]);
    assert_eq!(controller.registry().get_influence(0), Some(-1_414_213_562));
    assert_eq!(controller.registry().get_influence(1), Some(-1_414_213_562));
}

#[test]
fn roots_of_quotients_are_whole_and_bounded() {
    assert_eq!(root_of_quotient(&Long::of(0), 7), 0);
    assert_eq!(root_of_quotient(&Long::of(99), 1), 9);
    assert_eq!(root_of_quotient(&Long::of(100), 1), 10);
    assert_eq!(root_of_quotient(&Long::of(100), 3), 5);
    let large = Long { high: i128::MAX, low: 0 };
    assert_eq!(root_of_quotient(&large, 1), i64::MAX);
    assert_eq!(root_of_quotient(&Long { high: 1, low: 0 }, 1 << 20), 1 << 54);
    assert_eq!(Long::square((1 << 70) + 1), Long { high: 1 << 12, low: (1 << 71) + 1 });
}
