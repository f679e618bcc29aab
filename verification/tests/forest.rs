use std::collections::HashSet;
use suda_core::fixed::ONE;
use suda_core::forest::adapt::AdaptiveKConfig;
use suda_core::forest::{DynFrsForest, ForestConfig};
use suda_core::fraction::Fraction;
use suda_core::sample::VecSample;
use suda_core::table::IdTable;
use suda_core::tree::collect::index_samples;
use suda_core::tree::hoeffding::HoeffdingConfig;
use suda_core::tree::TreeConfig;

fn fixed(x: f32) -> i64 {
    (x as f64 * ONE as f64).round() as i64
}

fn value(f: Fraction) -> f64 {
    f.num as f64 / f.den as f64
}

/// A whole influence as a number.
fn in_units(x: i64) -> f64 {
    x as f64
}

/// A threshold in parts of 10^9.
fn parts(x: f64) -> i64 {
    (x * 1e9).round() as i64
}

/// A share as a fraction.
fn share(x: f64) -> Fraction {
    Fraction { num: parts(x) as i128, den: 1_000_000_000 }
}

fn sample(id: u64, values: [f32; 2], label: bool) -> VecSample {
    VecSample::new(id, values.iter().map(|&x| fixed(x)).collect(), label)
}

fn make_samples() -> Vec<VecSample> {
    vec![
        sample(0, [1.0, 1.0], true),
        sample(1, [2.0, 2.0], true),
        sample(2, [3.0, 3.0], true),
        sample(3, [4.0, 4.0], true),
        sample(4, [6.0, 1.0], false),
        sample(5, [7.0, 2.0], false),
        sample(6, [8.0, 3.0], false),
        sample(7, [9.0, 4.0], false),
    ]
}

/// One sample in fifty is positive.
fn make_imbalanced_samples() -> Vec<VecSample> {
    let mut samples = vec![sample(0, [1.0, 1.0], true), sample(1, [2.0, 2.0], true)];
    for i in 0..98 {
        let x = 5.0 + (i as f32) * 0.1;
        samples.push(sample(2 + i, [x, x], false));
    }
    samples
}

fn feature_map(samples: &[VecSample]) -> IdTable<Vec<i64>> {
    let mut map = IdTable::new();
    for s in samples {
        map.insert(s.id, s.values.clone());
    }
    map
}

#[test]
fn forest_test_forest_fit_predict() {
    let samples = make_samples();

    let config = ForestConfig {
        num_trees: 10,
        k: 3,
        minority_k: 0,
        tree_config: TreeConfig {
            max_depth: 5,
            num_splits_to_try: 5,
            ..Default::default()
        },
        seed: 42,
    };

    let mut forest = DynFrsForest::new(config, 2);
    forest.fit(&samples);

    // Check predictions
    let predictions = forest.predict_batch(&samples);
    let mut correct = 0;
    for (sample, &pred) in samples.iter().zip(predictions.iter()) {
        if pred == sample.label {
            correct += 1;
        }
    }

    // Should have high accuracy on training data
    assert!(correct >= 6, "Too many mispredictions: {}/8", correct);
}

#[test]
fn forest_test_occ_sampling() {
    let samples = make_samples();

    let config = ForestConfig {
        num_trees: 100,
        k: 10,
        minority_k: 0,
        seed: 42,
        ..Default::default()
    };

    let mut forest = DynFrsForest::new(config, 2);
    forest.fit(&samples);

    // Each sample should appear in at most k trees
    for sample in &samples {
        let tree_indices = forest.get_sample_tree_indices(sample.id);
        assert!(
            tree_indices.len() <= forest.k(),
            "Sample {} appears in {} trees, but k={}",
            sample.id,
            tree_indices.len(),
            forest.k()
        );
    }
}

#[test]
fn forest_test_forest_forget() {
    let samples = make_samples();

    let config = ForestConfig {
        num_trees: 10,
        k: 3,
        minority_k: 0,
        seed: 42,
        ..Default::default()
    };

    let mut forest = DynFrsForest::new(config, 2);
    forest.fit(&samples);

    assert_eq!(forest.num_samples(), 8);
    assert!(forest.contains_sample(0));

    let fmap = feature_map(&samples);

    // Forget sample 0
    assert!(forest.forget(0, fmap.get(0).unwrap()));
    assert!(!forest.contains_sample(0));
    assert_eq!(forest.num_samples(), 7);

    // Try to forget again
    assert!(!forest.forget(0, fmap.get(0).unwrap()));

    // Forget multiple (id 999 is absent from both forest and fmap)
    let forgotten = forest.forget_batch(&[1, 2, 3, 999], &fmap);
    assert_eq!(forgotten, 3);
    assert_eq!(forest.num_samples(), 4);
}

#[test]
fn forest_test_tree_stats() {
    let samples = make_samples();

    let config = ForestConfig {
        num_trees: 10,
        k: 3,
        minority_k: 0,
        seed: 42,
        ..Default::default()
    };

    let mut forest = DynFrsForest::new(config, 2);
    forest.fit(&samples);

    let stats = forest.tree_stats();
    assert_eq!(stats.num_trees, 10);
    assert!(value(stats.avg_depth.unwrap()) > 0.0);
    assert!(value(stats.avg_nodes.unwrap()) > 0.0);
}


#[test]
fn forest_test_fit_with_k_values() {
    let samples = make_samples();

    let config = ForestConfig {
        num_trees: 30,
        k: 10,
        minority_k: 0,
        seed: 42,
        ..Default::default()
    };

    let mut forest = DynFrsForest::new(config, 2);

    // Custom k values: higher for positive, lower for negative
    let k_values: Vec<usize> = samples
        .iter()
        .map(|s| if s.label { 15 } else { 5 })
        .collect();

    forest.fit_with_k_values(&samples, &k_values);

    assert_eq!(forest.num_samples(), 8);

    // Verify predictions still work (basic functionality check)
    let predictions = forest.predict_batch(&samples);
    assert_eq!(
        predictions.len(),
        8,
        "Should return predictions for all samples"
    );

    // With only 8 samples, accuracy can vary; just verify the forest is functional
    let correct = predictions
        .iter()
        .zip(samples.iter())
        .filter(|(pred, sample)| **pred == sample.label)
        .count();

    // At least some predictions should be correct (better than random baseline)
    assert!(
        correct >= 3,
        "Should have at least some correct predictions: {}/8",
        correct
    );
}


#[test]
fn forest_test_get_oob_tree_indices() {
    let samples = make_samples();

    let config = ForestConfig {
        num_trees: 20,
        k: 5, // Each sample in 5 trees, OOB for 15
        minority_k: 0,
        seed: 42,
        ..Default::default()
    };

    let mut forest = DynFrsForest::new(config, 2);
    forest.fit(&samples);

    // Check OOB trees for first sample
    let in_bag_trees = forest.get_sample_tree_indices(0);
    let oob_trees = forest.get_oob_tree_indices(0);

    // Verify no overlap between in-bag and OOB
    let in_bag_set: HashSet<usize> = in_bag_trees.iter().copied().collect();
    let oob_set: HashSet<usize> = oob_trees.iter().copied().collect();

    assert!(
        in_bag_set.is_disjoint(&oob_set),
        "In-bag and OOB should not overlap"
    );

    // Verify total covers all trees
    assert_eq!(
        in_bag_trees.len() + oob_trees.len(),
        20,
        "In-bag + OOB should equal num_trees"
    );

    // OOB count should be num_trees - k
    assert_eq!(oob_trees.len(), 15, "OOB trees should be num_trees - k");
}

#[test]
fn forest_test_predict_with_trees() {
    let samples = make_samples();

    let config = ForestConfig {
        num_trees: 20,
        k: 5,
        minority_k: 0,
        tree_config: TreeConfig {
            max_depth: 5,
            num_splits_to_try: 10,
            ..Default::default()
        },
        seed: 42,
    };

    let mut forest = DynFrsForest::new(config, 2);
    forest.fit(&samples);

    // Test prediction with all trees
    let test_sample = &samples[0];
    let all_trees: Vec<usize> = (0..20).collect();
    let full_pred = forest.predict_with_trees(test_sample, &all_trees);
    assert!(full_pred.is_some(), "Should get prediction with all trees");

    // Test prediction with subset
    let subset: Vec<usize> = (0..5).collect();
    let subset_pred = forest.predict_with_trees(test_sample, &subset);
    assert!(subset_pred.is_some(), "Should get prediction with subset");

    // Test empty tree list
    let empty: Vec<usize> = vec![];
    let empty_pred = forest.predict_with_trees(test_sample, &empty);
    assert!(empty_pred.is_none(), "Empty tree list should return None");
}

#[test]
fn forest_test_compute_oob_influence() {
    let samples = make_samples();

    let config = ForestConfig {
        num_trees: 30,
        k: 10, // Each sample in ~10 trees, OOB for ~20
        minority_k: 0,
        tree_config: TreeConfig {
            max_depth: 5,
            num_splits_to_try: 10,
            ..Default::default()
        },
        seed: 42,
    };

    let mut forest = DynFrsForest::new(config, 2);
    forest.fit(&samples);

    // Compute influence of sample 0 on a test sample
    let test_sample = &samples[4]; // Use a different sample as test
    let influence = forest.compute_oob_influence(0, test_sample);

    // Influence should exist (sample is in forest)
    assert!(
        influence.is_some(),
        "Should compute influence for existing sample"
    );

    // Influence value should be in valid range [-1, 1]
    let inf_val = influence.unwrap();
    assert!(
        (-1.0..=1.0).contains(&in_units(inf_val)),
        "Influence should be in [-1, 1], got {}",
        inf_val
    );

    // Test non-existent sample
    let nonexistent = forest.compute_oob_influence(999, test_sample);
    assert!(
        nonexistent.is_none(),
        "Non-existent sample should return None"
    );
}

#[test]
fn forest_test_compute_all_influences() {
    let samples = make_samples();

    let config = ForestConfig {
        num_trees: 30,
        k: 10,
        minority_k: 0,
        tree_config: TreeConfig {
            max_depth: 5,
            num_splits_to_try: 10,
            ..Default::default()
        },
        seed: 42,
    };

    let mut forest = DynFrsForest::new(config, 2);
    forest.fit(&samples);

    // Compute influences using a subset as test samples
    let test_samples = &samples[4..8]; // Use negative samples as test
    let influences = forest.compute_all_influences(test_samples);

    // Should have influences for all training samples
    assert!(!influences.is_empty(), "Should compute some influences");

    // Should be sorted (ascending by influence)
    for window in influences.windows(2) {
        assert!(
            value(window[0].1) <= value(window[1].1),
            "Should be sorted ascending by influence"
        );
    }

    println!("OOB Influences (sorted by influence):");
    for (id, inf) in influences.iter().take(5) {
        println!("  Sample {}: {:.4}", id, value(*inf));
    }
}

#[test]
fn forest_test_get_harmful_samples() {
    let samples = make_samples();

    let config = ForestConfig {
        num_trees: 50,
        k: 15,
        minority_k: 0,
        tree_config: TreeConfig {
            max_depth: 5,
            num_splits_to_try: 10,
            ..Default::default()
        },
        seed: 42,
    };

    let mut forest = DynFrsForest::new(config, 2);
    forest.fit(&samples);

    // Use all samples as test set
    let harmful = forest.get_harmful_samples(&samples, Some(3));

    println!("Harmful samples (top 3):");
    for (id, inf) in &harmful {
        println!("  Sample {}: influence = {:.4}", id, value(*inf));
    }

    // All returned samples should have negative influence
    for (_, inf) in &harmful {
        assert!(value(*inf) < 0.0, "Harmful samples should have negative influence");
    }

    // Should respect top_k limit
    assert!(harmful.len() <= 3, "Should return at most 3 samples");
}

#[test]
fn forest_test_oob_influence_batch() {
    let samples = make_samples();

    let config = ForestConfig {
        num_trees: 30,
        k: 10,
        minority_k: 0,
        tree_config: TreeConfig {
            max_depth: 5,
            num_splits_to_try: 10,
            ..Default::default()
        },
        seed: 42,
    };

    let mut forest = DynFrsForest::new(config, 2);
    forest.fit(&samples);

    // Compute batch influence
    let test_samples = &samples[4..8];
    let batch_influence = forest.compute_oob_influence_batch(0, test_samples);

    assert!(batch_influence.is_some(), "Should compute batch influence");

    let inf_val = batch_influence.unwrap();
    assert!(
        (-1.0..=1.0).contains(&value(inf_val)),
        "Batch influence should be in [-1, 1], got {}",
        value(inf_val)
    );

    println!("Batch OOB influence for sample 0: {:.4}", value(inf_val));
}


#[test]
fn forest_test_fit_internal_default_strategy() {
    let samples = make_samples();
    let config = ForestConfig {
        num_trees: 10,
        k: 3,
        minority_k: 0,
        seed: 42,
        ..Default::default()
    };

    let mut forest = DynFrsForest::new(config, 2);
    forest.fit(&samples);

    assert_eq!(forest.num_samples(), 8);
    // Each sample should be in at most k=3 trees
    for s in &samples {
        let indices = forest.get_sample_tree_indices(s.id);
        assert!(
            indices.len() <= 3,
            "Sample {} in {} trees, expected <= 3",
            s.id,
            indices.len()
        );
    }
}

#[test]
fn forest_test_fit_internal_per_sample_strategy() {
    let samples = make_samples();
    let k_values: Vec<usize> = vec![1, 2, 3, 4, 5, 6, 7, 8];
    let config = ForestConfig {
        num_trees: 10,
        k: 3,
        minority_k: 0,
        seed: 42,
        ..Default::default()
    };

    let mut forest = DynFrsForest::new(config, 2);
    forest.fit_with_k_values(&samples, &k_values);

    assert_eq!(forest.num_samples(), 8);
    // Sample 0 should be in at most 1 tree, sample 7 in at most 8
    let s0_trees = forest.get_sample_tree_indices(0).len();
    let s7_trees = forest.get_sample_tree_indices(7).len();
    assert!(
        s0_trees <= 1,
        "Sample 0 should be in <= 1 trees, got {}",
        s0_trees
    );
    assert!(
        s7_trees <= 8,
        "Sample 7 should be in <= 8 trees, got {}",
        s7_trees
    );
    assert!(
        s7_trees > s0_trees,
        "Sample 7 ({}) should be in more trees than sample 0 ({})",
        s7_trees,
        s0_trees
    );
}

#[test]
fn forest_test_occ_sample_adaptive_clamps_k() {
    let config = ForestConfig {
        num_trees: 10,
        k: 5,
        minority_k: 0,
        seed: 42,
        ..Default::default()
    };

    let mut forest = DynFrsForest::new(config, 2);

    // k=0 should be clamped to 1
    let indices = forest.occ_sample_adaptive(0, 0);
    assert_eq!(indices.len(), 1, "k=0 should be clamped to 1");

    // k > num_trees should be clamped to num_trees
    let indices = forest.occ_sample_adaptive(1, 100);
    assert_eq!(indices.len(), 10, "k=100 should be clamped to num_trees=10");
}
#[test]
fn test_adaptive_k_config_compute_k() {
    let config = AdaptiveKConfig {
        k_min: 3,
        k_max: 50,  // All trees for extreme minority
        ratio_threshold: parts(0.3),
        extreme_threshold: parts(0.01),  // 1% threshold
    };
  
    assert_eq!(config.compute_k(share(0.004)), 50, "Extreme minority should get k_max");

    // Moderate minority (5%) -> high k but not all trees
    let k_5pct = config.compute_k(share(0.05));
    assert!(k_5pct > 30, "5% minority should get high k, got {}", k_5pct);
    assert!(k_5pct < 50, "5% is not extreme, shouldn't get k_max");

    // Minority (10%) -> interpolated
    let k_10pct = config.compute_k(share(0.1));
    assert!(k_10pct > 15, "10% minority should get k > 15, got {}", k_10pct);

    // At threshold (30%) -> k_min
    let k_30pct = config.compute_k(share(0.3));
    assert_eq!(k_30pct, 3, "At threshold should get k_min");

    // Majority (60%) -> k_min (clamped)
    let k_60pct = config.compute_k(share(0.6));
    assert_eq!(k_60pct, 3, "Majority should get k_min");
}

#[test]
fn test_adaptive_k_occ_sampling() {
    let _samples = make_samples();  // Used for reference only

    let config = ForestConfig {
        num_trees: 50,
        k: 10,  // Default k
        seed: 42,
        ..Default::default()
    };

    let mut forest = DynFrsForest::new(config, 2);
    forest.set_adaptive_k_config(AdaptiveKConfig {
        k_min: 3,
        k_max: 50,  // Use all trees for extreme minority
        ratio_threshold: parts(0.3),
        extreme_threshold: parts(0.01),  // 1% threshold
    });

    // Simulate class distribution: 10% positive
    forest.update_class_k_from_distribution(share(0.1));

    // Check class k values
    let k_positive = forest.get_class_k(true).unwrap();
    let k_negative = forest.get_class_k(false).unwrap();

    assert!(k_positive > k_negative, "Minority (positive) should have higher k");
    assert!(k_positive >= 10, "Minority should get high k, got {}", k_positive);
    assert_eq!(k_negative, 3, "Majority should get k_min");
}

#[test]
fn test_fit_adaptive() {
    let samples = make_samples();  // 4 true, 4 false

    let config = ForestConfig {
        num_trees: 20,
        k: 10,
        seed: 42,
        ..Default::default()
    };

    let mut forest = DynFrsForest::new(config, 2);

    // Set class k values manually
    forest.set_class_k(true, 10);   // Positive gets 10
    forest.set_class_k(false, 3);   // Negative gets 3

    // Fit with adaptive k
    forest.fit_adaptive(&samples);

    // Verify all samples are tracked
    assert_eq!(forest.num_samples(), 8);

    // Check that positive samples appear in more trees
    let positive_tree_counts: Vec<usize> = samples.iter()
        .filter(|s| s.label)
        .map(|s| forest.get_sample_tree_count(s.id))
        .collect();

    let negative_tree_counts: Vec<usize> = samples.iter()
        .filter(|s| !s.label)
        .map(|s| forest.get_sample_tree_count(s.id))
        .collect();

    let avg_positive = positive_tree_counts.iter().sum::<usize>() as f64
        / positive_tree_counts.len() as f64;
    let avg_negative = negative_tree_counts.iter().sum::<usize>() as f64
        / negative_tree_counts.len() as f64;

    assert!(
        avg_positive > avg_negative,
        "Positive samples should appear in more trees on average: {} vs {}",
        avg_positive,
        avg_negative
    );
}

#[test]
fn test_fit_weighted() {
    let samples = make_imbalanced_samples();  // 2% positive

    let config = ForestConfig {
        num_trees: 30,
        k: 10,
        minority_k: 0,
        tree_config: TreeConfig {
            max_depth: 10,
            num_splits_to_try: 10,
            ..Default::default()
        },
        seed: 42,
    };

    let mut forest = DynFrsForest::new(config.clone(), 2);

    // Set adaptive k for better minority protection
    forest.set_adaptive_k_config(AdaptiveKConfig {
        k_min: 3,
        k_max: 30,  // All trees
        ratio_threshold: parts(0.3),
        extreme_threshold: parts(0.05),  // 5% threshold for test
    });
    forest.update_class_k_from_distribution(share(0.02));  // 2% positive

    // Fit with class-weighted bootstrap
    forest.fit_weighted(&samples, share(0.02));

    assert_eq!(forest.num_samples(), 100);

    // Verify predictions work
    let predictions = forest.predict_batch(&samples);
    assert_eq!(predictions.len(), 100);

    // Count attack predictions
    let attack_samples: Vec<_> = samples.iter().filter(|s| s.label).collect();
    let mut attack_correct = 0;
    for sample in &attack_samples {
        if forest.predict(sample) == sample.label {
            attack_correct += 1;
        }
    }

    println!(
        "Weighted forest attack recall: {}/{} ({:.1}%)",
        attack_correct,
        attack_samples.len(),
        100.0 * attack_correct as f64 / attack_samples.len() as f64
    );

    // With weighted bootstrap, we expect some attack detection
    // (exact recall depends on random splits)
}

#[test]
fn test_fit_internal_class_based_strategy() {
    let samples = make_samples(); // 4 true, 4 false
    let config = ForestConfig {
        num_trees: 10,
        k: 3,
        seed: 42,
        ..Default::default()
    };

    let mut forest = DynFrsForest::new(config, 2);
    forest.set_class_k(true, 7);  // minority gets 7
    forest.set_class_k(false, 2); // majority gets 2
    forest.fit_adaptive(&samples);

    assert_eq!(forest.num_samples(), 8);
    // True samples should be in more trees than false samples
    let true_avg: f64 = samples.iter()
        .filter(|s| s.label)
        .map(|s| forest.get_sample_tree_indices(s.id).len() as f64)
        .sum::<f64>() / 4.0;
    let false_avg: f64 = samples.iter()
        .filter(|s| !s.label)
        .map(|s| forest.get_sample_tree_indices(s.id).len() as f64)
        .sum::<f64>() / 4.0;

    assert!(true_avg > false_avg, "Minority (true) avg {:.1} should > majority (false) avg {:.1}", true_avg, false_avg);
}

#[test]
fn test_fit_weighted_numerical_equivalence() {
    // fit_weighted with balanced ratio should behave like fit_adaptive with same class_k
    let samples = make_samples(); // 4 true, 4 false -> 50/50
    let config = ForestConfig {
        num_trees: 20,
        k: 5,
        seed: 42,
        ..Default::default()
    };

    let mut forest1 = DynFrsForest::new(config.clone(), 2);
    forest1.set_adaptive_k_config(AdaptiveKConfig { k_min: 3, k_max: 50, ratio_threshold: parts(0.3), extreme_threshold: parts(0.01) });
    forest1.fit_weighted(&samples, share(0.5));

    let mut forest2 = DynFrsForest::new(config, 2);
    forest2.set_adaptive_k_config(AdaptiveKConfig { k_min: 3, k_max: 50, ratio_threshold: parts(0.3), extreme_threshold: parts(0.01) });
    forest2.update_class_k_from_distribution(share(0.5));
    forest2.fit_adaptive(&samples);

    // Both should produce identical predictions (same seed, same k distribution)
    let test = sample(999, [5.0, 2.0], false);
    assert_eq!(forest1.predict(&test), forest2.predict(&test));
    assert_eq!(forest1.num_samples(), forest2.num_samples());
}

fn small_forest() -> (DynFrsForest, Vec<VecSample>) {
    let samples = make_samples();
    let config = ForestConfig {
        num_trees: 12,
        k: 4,
        minority_k: 0,
        tree_config: TreeConfig { max_depth: 5, num_splits_to_try: 5, ..Default::default() },
        seed: 7,
    };
    let mut forest = DynFrsForest::new(config, 2);
    forest.fit(&samples);
    (forest, samples)
}

/// The number of samples that the roots count, over all trees.
fn root_total(forest: &DynFrsForest) -> usize {
    (0..forest.num_trees())
        .filter_map(|i| forest.tree(i))
        .filter_map(|t| t.node_sample_count(1))
        .sum()
}

#[test]
fn every_sample_is_counted_once_in_each_of_its_trees() {
    let (mut forest, samples) = small_forest();
    assert_eq!(root_total(&forest), 8 * 4);
    assert!(forest.forget_by_id(3));
    assert!(!forest.forget_by_id(3));
    assert_eq!(root_total(&forest), 7 * 4);
    assert!(forest.forget_with_features(5, &samples[5].values));
    assert_eq!(root_total(&forest), 6 * 4);
    forest.enable_streaming(&samples);
    assert!(forest.forget_with_features(6, &samples[6].values));
    assert_eq!(root_total(&forest), 5 * 4);
}

#[test]
fn what_is_learnt_can_be_forgotten() {
    let (mut forest, samples) = small_forest();
    let before = forest.predict_batch(&samples);
    let newcomer = sample(50, [5.0, 5.0], true);
    assert_eq!(forest.add_sample_streaming(&newcomer, false).0, true);
    assert_eq!(forest.add_sample_streaming(&newcomer, false), (false, false));
    assert_eq!(forest.get_sample_label(50), Some(true));
    assert_eq!(forest.get_sample_tree_count(50), 4);
    assert!(forest.forget(50, &newcomer.values));
    assert_eq!(forest.get_sample_tree_count(50), 0);
    assert_eq!(forest.predict_batch(&samples), before);
}

#[test]
fn a_batch_may_have_unknown_features() {
    let (mut forest, samples) = small_forest();
    let known = feature_map(&samples[..2]);
    // Where features are asked for, samples without them are passed over
    assert_eq!(forest.forget_batch(&[0, 5], &known), 1);
    assert_eq!(forest.forget_batch_with_features(&[0, 1, 5, 5, 99], &known), 2);
    assert_eq!(forest.num_samples(), 5);
}

#[test]
fn many_samples_are_forgotten_at_once() {
    let (mut forest, samples) = small_forest();
    assert_eq!(forest.forget_batch_optimized(&[], &samples), 0);
    assert_eq!(forest.forget_batch_optimized(&[0, 1, 2, 2, 77], &samples), 3);
    assert_eq!(forest.num_samples(), 5);
    assert_eq!(root_total(&forest), 5 * 4);
    assert!(!forest.contains_sample(1));
}

#[test]
fn work_on_the_trees_leaves_no_marks() {
    let (mut forest, samples) = small_forest();
    for id in 0..4 {
        forest.forget_by_id(id);
    }
    let rest = &samples[4..];
    forest.develop(rest);
    assert!(!forest.has_pending_rebuilds());
    assert_eq!(root_total(&forest), 4 * 4);
    assert!(forest.predict_batch(rest).iter().all(|&p| !p));
}

#[test]
fn single_trees_can_be_asked() {
    let (forest, samples) = small_forest();
    for s in &samples {
        let votes: Vec<bool> = (0..12).map(|t| forest.predict_with_tree(t, s)).collect();
        let count = votes.iter().filter(|&&v| v).count();
        assert_eq!(forest.predict(s), count > 6);
        assert_eq!(forest.predict_proba(s), Fraction { num: count as i128, den: 12 });
        assert!(!forest.predict_with_tree(12, s));
    }
}

#[test]
fn samples_are_listed_by_the_number_of_their_trees() {
    let samples = make_samples();
    let mut forest = DynFrsForest::new(ForestConfig { num_trees: 10, k: 3, ..Default::default() }, 2);
    forest.fit_with_k_values(&samples, &[5, 1, 9, 2, 5, 3, 7, 4]);
    let list = forest.get_samples_by_influence(None);
    assert_eq!(list, vec![(2, 9), (6, 7), (0, 5), (4, 5), (7, 4), (5, 3), (3, 2), (1, 1)]);
    assert_eq!(forest.get_samples_by_influence(Some(2)), vec![(2, 9), (6, 7)]);
    let mut counts = forest.get_all_sample_tree_counts();
    counts.sort();
    assert_eq!(counts[1], (1, 1));
    assert_eq!(counts.len(), 8);
}

#[test]
fn the_rarer_class_gets_more_trees() {
    let config = AdaptiveKConfig::default();
    let mut last = usize::MAX;
    for i in 0..=100 {
        let k = config.compute_k(Fraction { num: i, den: 100 });
        assert!(k <= last && (3..=50).contains(&k));
        last = k;
    }
    // Half of the way to the threshold: 50 - 47 / 2, rounded up
    assert_eq!(config.compute_k(share(0.15)), 27);
}

#[test]
fn numbers_of_trees_follow_the_samples_that_come() {
    let mut forest = DynFrsForest::new(ForestConfig { num_trees: 60, k: 10, ..Default::default() }, 2);
    forest.set_adaptive_k_config(AdaptiveKConfig::default());
    forest.set_streaming_k_update_interval(4);
    assert_eq!(forest.get_class_k(true), None);
    for i in 0..3 {
        forest.add_sample_streaming(&sample(i, [i as f32, 0.0], false), true);
    }
    assert_eq!(forest.get_class_k(true), None);
    assert_eq!(forest.get_sample_tree_count(0), 10);
    forest.add_sample_streaming(&sample(3, [3.0, 0.0], true), true);
    // One of four is positive: 50 - 47 * 0.25 / 0.3, rounded
    assert_eq!(forest.get_class_k(true), Some(11));
    assert_eq!(forest.get_class_k(false), Some(3));
    forest.add_sample_streaming(&sample(4, [4.0, 0.0], false), true);
    assert_eq!(forest.get_sample_tree_count(4), 3);
    // Without its positive sample, the class is as rare as it gets
    forest.forget_by_id(3);
    forest.update_streaming_class_k();
    assert_eq!(forest.get_class_k(true), Some(50));
    forest.reset_streaming_stats();
    forest.update_streaming_class_k();
    assert_eq!(forest.get_class_k(true), Some(50));
    forest.init_streaming_class_k(share(0.5));
    assert_eq!(forest.get_class_k(true), Some(3));
    forest.init_streaming_class_k_with_counts(share(0.25), 10);
    assert_eq!(forest.get_class_k(true), Some(11));
}

#[test]
fn positive_samples_may_get_trees_of_their_own() {
    let samples = make_samples();
    let config = ForestConfig { num_trees: 20, k: 3, minority_k: 9, ..Default::default() };
    let mut forest = DynFrsForest::new(config, 2);
    forest.fit(&samples);
    for s in &samples {
        assert_eq!(forest.get_sample_tree_count(s.id), if s.label { 9 } else { 3 });
        assert_eq!(forest.k_for_label(s.label), if s.label { 9 } else { 3 });
    }
}

#[test]
fn influences_add_up() {
    let (forest, samples) = small_forest();
    for id in 0..8 {
        let total: i64 =
            samples.iter().map(|s| forest.compute_oob_influence(id, s).unwrap()).sum();
        let average = forest.compute_oob_influence_batch(id, &samples).unwrap();
        assert!((value(average) - total as f64 / 8.0).abs() < 1e-12);
    }
    assert!(forest.compute_oob_influence_batch(0, &[]).is_none());
    let all = forest.compute_all_influences(&samples);
    assert_eq!(all.len(), 8);
    let harmful = forest.get_harmful_samples(&samples, None);
    assert_eq!(harmful.len(), all.iter().filter(|x| x.1.num < 0).count());
}

#[test]
fn a_reset_forest_has_no_samples() {
    let (mut forest, samples) = small_forest();
    forest.set_class_k(true, 6);
    forest.reset();
    assert_eq!(forest.num_samples(), 0);
    assert!(forest.predict_batch(&samples).iter().all(|&p| !p));
    assert_eq!(forest.get_class_k(true), Some(6));
    let fresh = small_forest().0;
    forest.fit(&samples);
    // The generators have started again
    for s in &samples {
        assert_eq!(forest.get_sample_tree_indices(s.id), fresh.get_sample_tree_indices(s.id));
        assert_eq!(forest.predict(s), fresh.predict(s));
    }
}

#[test]
fn forests_can_split_leaves_while_samples_come() {
    let samples: Vec<VecSample> = (0..60)
        .map(|i| sample(i, [(i % 10) as f32, (i % 3) as f32], i % 10 < 5))
        .collect();
    let hoeffding = HoeffdingConfig { enabled: true, grace_period: 3, log_inverse_delta: 0, tau: 1 };
    let config = ForestConfig {
        num_trees: 6,
        k: 4,
        seed: 3,
        tree_config: TreeConfig { hoeffding, ..Default::default() },
        ..Default::default()
    };
    let mut forest = DynFrsForest::new(config, 2);
    forest.fit(&samples[..20]);
    forest.enable_streaming(&samples[..20]);
    let map = index_samples(&samples);
    let (added, _) = forest.add_samples_streaming_hoeffding(&samples[10..], true, &map);
    assert_eq!(added, 40);
    assert_eq!(forest.num_samples(), 60);
    assert_eq!(root_total(&forest), 60 * 4);
    assert_eq!(
        forest.add_sample_streaming_hoeffding(&samples[0], true, &map),
        (false, false)
    );
}

#[test]
fn a_forest_knows_what_it_accepts() {
    let forest = DynFrsForest::new(ForestConfig::default(), 2);
    assert!(forest.accepts(&make_samples()));
    assert!(!forest.accepts(&[VecSample::new(0, vec![1], true)]));
    assert!(AdaptiveKConfig::default().is_valid());
    assert!(!AdaptiveKConfig { k_min: 9, k_max: 3, ..AdaptiveKConfig::default() }.is_valid());
}

#[test]
fn the_seed_decides() {
    let samples = make_samples();
    let choices = |seed: u64| -> Vec<Vec<usize>> {
        let config = ForestConfig { num_trees: 40, k: 5, seed, ..Default::default() };
        let mut forest = DynFrsForest::new(config, 2);
        forest.fit(&samples);
        samples.iter().map(|s| forest.get_sample_tree_indices(s.id)).collect()
    };
    assert_eq!(choices(1), choices(1));
    assert_ne!(choices(1), choices(2));
}

#[test]
fn numbers_of_trees_may_be_large() {
    let config = AdaptiveKConfig {
        k_min: 1,
        k_max: usize::MAX,
        ratio_threshold: parts(0.5),
        extreme_threshold: parts(0.01),
    };
    assert!(config.is_valid());
    // Halfway between the two numbers
    assert_eq!(config.compute_k(Fraction { num: 1, den: 4 }), 1usize << 63);
    assert_eq!(config.compute_k(Fraction { num: 1, den: 2 }), 1);
    assert_eq!(config.compute_k(Fraction { num: 1, den: 200 }), usize::MAX);
    let mut forest = small_forest().0;
    forest.set_adaptive_k_config(config);
    forest.init_streaming_class_k_with_counts(Fraction { num: 1, den: 4 }, u64::MAX);
    assert_eq!(forest.get_class_k(true), Some(1usize << 63));
    assert_eq!(forest.get_class_k(false), Some(1));
}

#[test]
fn a_forgotten_sample_is_in_no_tree() {
    let (mut forest, samples) = small_forest();
    let others: Vec<Vec<usize>> =
        (0..8).filter(|&id| id != 3).map(|id| forest.get_sample_tree_indices(id)).collect();
    let before = forest.predict_batch(&samples);
    assert!(!forest.forget(99, &samples[3].values));
    assert_eq!(forest.predict_batch(&samples), before);
    assert_eq!(forest.num_samples(), 8);
    assert!(forest.contains_sample(3));
    assert!(forest.forget(3, &samples[3].values));
    assert!(!forest.contains_sample(3));
    assert_eq!(forest.num_samples(), 7);
    for t in 0..forest.num_trees() {
        assert!(!forest.tree(t).unwrap().contains_sample(3));
    }
    let rest: Vec<Vec<usize>> =
        (0..8).filter(|&id| id != 3).map(|id| forest.get_sample_tree_indices(id)).collect();
    assert_eq!(rest, others);
    assert!(!forest.forget(3, &samples[3].values));
    assert_eq!(forest.num_samples(), 7);
    assert!(forest.forget_by_id(5));
    for t in 0..forest.num_trees() {
        assert!(!forest.tree(t).unwrap().contains_sample(5));
    }
}

#[test]
fn every_node_gets_a_state() {
    let (mut forest, samples) = small_forest();
    let before = forest.predict_batch(&samples);
    let shape = |forest: &DynFrsForest| -> Vec<(usize, usize, (usize, usize, usize))> {
        (0..forest.num_trees())
            .map(|t| forest.tree(t).unwrap())
            .map(|t| (t.num_nodes(), t.num_samples(), t.lazy_tag_counts()))
            .collect()
    };
    let shapes = shape(&forest);
    forest.enable_streaming(&samples);
    assert_eq!(shape(&forest), shapes);
    for t in 0..forest.num_trees() {
        let tree = forest.tree(t).unwrap();
        assert!(tree.is_streaming());
        assert_eq!(tree.num_streaming_states(), tree.num_nodes());
    }
    assert_eq!(forest.predict_batch(&samples), before);
}
