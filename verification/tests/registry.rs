use suda_core::registry::{BudgetConfig, InfluenceRegistry};

/// A number in parts of 10^9.
fn parts(x: f64) -> i64 {
    (x * 1e9).round() as i64
}

#[test]
fn test_registry_basic() {
    let mut registry = InfluenceRegistry::new();

    // Register samples
    registry.register(0, vec![0, 1, 2], true);
    registry.register(1, vec![3, 4], false);
    registry.register(2, vec![0, 2, 4], true);

    assert_eq!(registry.len(), 3);
    assert_eq!(registry.class_counts(), [1, 2]);

    // Check sample
    let sample = registry.get(0).unwrap();
    assert_eq!(sample.tree_indices, vec![0, 1, 2]);
    assert!(sample.label);
}

#[test]
fn test_registry_remove() {
    let mut registry = InfluenceRegistry::new();

    registry.register(0, vec![0, 1], true);
    registry.register(1, vec![2, 3], false);

    assert_eq!(registry.len(), 2);

    assert!(registry.remove(0));
    assert_eq!(registry.len(), 1);
    assert_eq!(registry.class_counts(), [1, 0]);

    assert!(!registry.remove(99)); // Non-existent
}

#[test]
fn test_registry_fixed_limit() {
    // Very small limit to trigger eviction
    let mut registry = InfluenceRegistry::with_fixed_limit(200);

    // Each sample is ~40-50 bytes, so with 200 byte limit we can fit ~4-5
    for i in 0..10 {
        registry.register(i, vec![0, 1], i % 2 == 0);
    }

    // Should have evicted some samples
    assert!(registry.len() < 10);
    assert!(registry.memory_bytes() <= 250); // Allow some overhead
}

#[test]
fn test_registry_oldest_samples() {
    let mut registry = InfluenceRegistry::new();

    for i in 0..5 {
        registry.register(i, vec![0], i % 2 == 0);
    }

    let oldest = registry.get_oldest_samples(3);
    assert_eq!(oldest, vec![0, 1, 2]);

    let newest = registry.get_newest_samples(2);
    assert_eq!(newest, vec![4, 3]);
}

#[test]
fn test_registry_influence_selection() {
    let mut registry = InfluenceRegistry::new();

    for i in 0..5 {
        registry.register(i, vec![0], true);
    }

    // Set influence scores
    registry.set_influence(0, parts(-0.5)); // Harmful
    registry.set_influence(1, parts(0.2)); // Helpful
    registry.set_influence(2, parts(-0.8)); // Most harmful
    registry.set_influence(3, parts(0.1)); // Slightly helpful
    registry.set_influence(4, parts(-0.3)); // Somewhat harmful

    let harmful = registry.get_most_harmful_samples(3);
    assert_eq!(harmful[0], 2); // Most harmful first
    assert_eq!(harmful[1], 0);
    assert_eq!(harmful[2], 4);
}

#[test]
fn test_registry_class_selection() {
    let mut registry = InfluenceRegistry::new();

    // Add samples: 0,2,4 = positive, 1,3 = negative
    for i in 0..5 {
        registry.register(i, vec![0], i % 2 == 0);
    }

    let positive = registry.get_samples_by_class(true);
    assert_eq!(positive.len(), 3);

    let negative = registry.get_samples_by_class(false);
    assert_eq!(negative.len(), 2);

    let oldest_positive = registry.get_oldest_samples_by_class(true, 2);
    assert_eq!(oldest_positive, vec![0, 2]);
}

#[test]
fn test_registry_batch_operations() {
    let mut registry = InfluenceRegistry::new();

    let ids = vec![0, 1, 2];
    let tree_indices = vec![vec![0, 1], vec![2, 3], vec![0, 3]];
    let labels = vec![true, false, true];

    registry.register_batch(&ids, &tree_indices, &labels);

    assert_eq!(registry.len(), 3);
    assert_eq!(registry.class_counts(), [1, 2]);

    let removed = registry.remove_batch(&[0, 2]);
    assert_eq!(removed, 2);
    assert_eq!(registry.len(), 1);
}

#[test]
fn test_registry_harmful_samples_above_threshold() {
    let mut registry = InfluenceRegistry::new();

    // Add 10 benign samples (false) with varying influence
    for i in 0..10 {
        registry.register(i, vec![0], false);
    }

    // Set influence scores
    registry.set_influence(0, parts(-0.5)); // Very harmful
    registry.set_influence(1, parts(-0.3)); // Harmful
    registry.set_influence(2, parts(-0.15)); // Harmful
    registry.set_influence(3, parts(-0.08)); // Slightly harmful (borderline)
    registry.set_influence(4, parts(0.0)); // Neutral
    registry.set_influence(5, parts(0.1)); // Helpful
    registry.set_influence(6, parts(-0.12)); // Harmful
    registry.set_influence(7, parts(-0.05)); // Slightly harmful (borderline)
    registry.set_influence(8, parts(0.2)); // Helpful
    registry.set_influence(9, parts(-0.25)); // Harmful

    // Get harmful samples with threshold -0.1 (only include if influence < -0.1)
    let harmful = registry.get_harmful_samples_above_threshold(false, 5, parts(-0.1));

    // Should get samples with influence < -0.1: 0 (-0.5), 9 (-0.25), 1 (-0.3), 2 (-0.15), 6 (-0.12)
    assert_eq!(harmful.len(), 5);

    // Verify they are sorted by influence (most harmful first)
    assert_eq!(harmful[0], 0); // -0.5 (most harmful)
    assert_eq!(harmful[1], 1); // -0.3
    assert_eq!(harmful[2], 9); // -0.25

    // Samples 3, 4, 5, 7, 8 should NOT be included (influence >= -0.1)
    assert!(!harmful.contains(&3));
    assert!(!harmful.contains(&4));
    assert!(!harmful.contains(&5));
    assert!(!harmful.contains(&7));
    assert!(!harmful.contains(&8));
}

#[test]
fn test_registry_budget_eviction() {
    let mut registry = InfluenceRegistry::new();
    registry.set_budget_config(BudgetConfig {
        max_samples: 10,
        eviction_batch_size: 3,
        minority_protection_ratio: parts(0.1),
        age_weight: parts(0.4),
        influence_weight: parts(0.4),
        class_weight: parts(0.2),
        random_eviction: false,
        class_aware_random: false,
    });

    // Add 15 samples (budget is 10)
    for i in 0..15 {
        registry.register(i, vec![0, 1], i % 3 == 0); // 1/3 are attack
    }

    // Budget should have kicked in
    assert!(
        registry.len() <= 13,
        "Registry should not exceed budget + batch: got {}",
        registry.len()
    );
}

#[test]
fn test_registry_budget_minority_protection() {
    let mut registry = InfluenceRegistry::new();
    registry.set_budget_config(BudgetConfig {
        max_samples: 8,
        eviction_batch_size: 2,
        minority_protection_ratio: parts(0.2), // Protect if < 20%
        age_weight: parts(0.5),
        influence_weight: parts(0.3),
        class_weight: parts(0.2),
        random_eviction: false,
        class_aware_random: false,
    });

    // Add 9 benign + 1 attack (attack is 10% = minority)
    for i in 0..9 {
        registry.register(i, vec![0], false);
    }
    registry.register(9, vec![0], true); // Attack (minority)

    // After eviction, attack sample should be protected
    assert!(
        registry.get(9).is_some(),
        "Minority attack sample should be protected"
    );
}

#[test]
fn test_influence_degradation_tracking() {
    let mut registry = InfluenceRegistry::new();
    registry.set_influence_tracking(true);

    registry.register(0, vec![0, 1], true);

    // Initially positive
    registry.set_influence(0, parts(0.5));
    assert!(!registry.get(0).unwrap().is_influence_degraded());

    // Degrades to negative
    registry.set_influence(0, parts(-0.3));
    let sample = registry.get(0).unwrap();
    assert!(
        sample.is_influence_degraded(),
        "Should detect positive to negative transition"
    );
    assert!((sample.influence_delta().unwrap() as f64 / 1e9 - (-0.8)).abs() < 1e-10);
}

#[test]
fn test_get_influence_degraded_samples() {
    let mut registry = InfluenceRegistry::new();
    registry.set_influence_tracking(true);

    for i in 0..5 {
        registry.register(i, vec![0], true);
    }

    // Sample 0: positive  to  negative (degraded)
    registry.set_influence(0, parts(0.5));
    registry.set_influence(0, parts(-0.3));

    // Sample 1: negative  to  negative (not degraded from positive)
    registry.set_influence(1, parts(-0.2));
    registry.set_influence(1, parts(-0.5));

    // Sample 2: positive  to  positive (not degraded)
    registry.set_influence(2, parts(0.3));
    registry.set_influence(2, parts(0.1));

    let degraded = registry.get_influence_degraded_samples();
    assert_eq!(degraded.len(), 1);
    assert!(degraded.contains(&0));
}

#[test]
fn test_registry_time_weighted_selection() {
    let mut registry = InfluenceRegistry::new();

    // Add samples at different positions
    // Older samples have lower IDs (registered first)
    for i in 0..10 {
        registry.register(i, vec![0], i % 2 == 0);
    }

    // Set influence scores:
    // - Sample 0: old, very harmful (-0.8)
    // - Sample 1: old, helpful (+0.3)
    // - Sample 8: recent, harmful (-0.5)
    // - Sample 9: recent, helpful (+0.4)
    registry.set_influence(0, parts(-0.8)); // Old, very harmful
    registry.set_influence(1, parts(0.3)); // Old, helpful
    registry.set_influence(2, parts(-0.3)); // Medium-old, harmful
    registry.set_influence(3, parts(0.1)); // Medium-old, helpful
    registry.set_influence(4, parts(-0.2)); // Medium, harmful
    registry.set_influence(5, parts(0.05)); // Medium, slightly helpful
    registry.set_influence(6, parts(-0.1)); // Medium-recent, slightly harmful
    registry.set_influence(7, parts(0.2)); // Medium-recent, helpful
    registry.set_influence(8, parts(-0.5)); // Recent, harmful
    registry.set_influence(9, parts(0.4)); // Recent, helpful

    // Test time-weighted selection with medium decay
    let decay_rate = parts(0.1); // Fast decay for testing
    let selected = registry.get_time_weighted_harmful_samples(3, decay_rate);

    // With time decay, old harmful samples should be prioritized
    // Sample 0 is oldest and most harmful  to  should be first
    assert_eq!(selected[0], 0, "Oldest harmful sample should be first");

    // All selected should have negative influence
    for &id in &selected {
        let inf = registry.get_influence(id).unwrap();
        assert!(
            inf < 0,
            "Selected sample {} should have negative influence",
            id
        );
    }
}

#[test]
fn test_registry_time_weighted_by_class() {
    let mut registry = InfluenceRegistry::new();

    // Add samples: 0-4 = false (benign), 5-9 = true (attack)
    for i in 0..5 {
        registry.register(i, vec![0], false);
    }
    for i in 5..10 {
        registry.register(i, vec![0], true);
    }

    // Set influence: all negative for testing
    for i in 0..10 {
        registry.set_influence(i, parts(-0.1 * (10 - i) as f64));
    }

    // Select only from benign class (false)
    let benign_selected = registry.get_time_weighted_harmful_samples_by_class(false, 2, parts(0.01));

    // Should only contain benign samples (IDs 0-4)
    for &id in &benign_selected {
        assert!(id < 5, "Should only select from benign class");
        let label = registry.get_label(id).unwrap();
        assert!(!label, "Label should be false (benign)");
    }

    // Select only from attack class (true)
    let attack_selected = registry.get_time_weighted_harmful_samples_by_class(true, 2, parts(0.01));

    // Should only contain attack samples (IDs 5-9)
    for &id in &attack_selected {
        assert!(id >= 5, "Should only select from attack class");
        let label = registry.get_label(id).unwrap();
        assert!(label, "Label should be true (attack)");
    }
}

#[test]
fn test_registry_age_prioritized_selection() {
    let mut registry = InfluenceRegistry::new();

    // Add 20 samples
    for i in 0..20 {
        registry.register(i, vec![0], i % 2 == 0);
    }

    // Set influence: vary by sample
    for i in 0..20 {
        let influence = parts(if i % 3 == 0 { -0.5 } else { 0.1 });
        registry.set_influence(i, influence);
    }

    // Select with age brackets of 5
    let selected = registry.get_age_prioritized_samples(5, 5);

    // Oldest samples (0-4) should be selected first
    // Within those, harmful ones (influence -0.5) should come first
    assert!(
        selected.iter().all(|&id| id < 10),
        "Should prioritize older samples"
    );
}

#[test]
fn test_evict_by_budget_protects_minority() {
    let mut registry = InfluenceRegistry::new();

    // Add 8 benign (majority) and 4 attack (minority) WITHOUT budget
    for i in 0..8 {
        registry.register(i, vec![0], false);
    }
    for i in 8..12 {
        registry.register(i, vec![0], true);
    }
    assert_eq!(registry.len(), 12);

    // Now set budget to trigger eviction on next register
    registry.set_budget_config(BudgetConfig {
        max_samples: 10,
        eviction_batch_size: 5,
        minority_protection_ratio: parts(0.3),
        age_weight: parts(0.4),
        influence_weight: parts(0.4),
        class_weight: parts(0.2),
        random_eviction: false,
        class_aware_random: false,
    });

    // Trigger budget enforcement via register_batch
    let _evicted = registry.register_batch(&[100, 101], &[vec![0], vec![0]], &[false, false]);

    // After eviction, minority (attack) should still be present
    let minority_remaining = (8..12).filter(|&id| registry.get(id).is_some()).count();
    let majority_remaining = (0..8).filter(|&id| registry.get(id).is_some()).count();

    assert!(
        minority_remaining >= 3,
        "Minority should be protected: {} remaining out of 4",
        minority_remaining
    );
    assert!(
        majority_remaining < 8,
        "Majority should bear most eviction: {} remaining out of 8",
        majority_remaining
    );
}

#[test]
fn test_register_batch_returns_evicted_ids() {
    let mut registry = InfluenceRegistry::new();
    registry.set_budget_config(BudgetConfig {
        max_samples: 5,
        eviction_batch_size: 3,
        minority_protection_ratio: parts(0.1),
        age_weight: parts(1.0),
        influence_weight: parts(0.0),
        class_weight: parts(0.0),
        random_eviction: false,
        class_aware_random: false,
    });

    // Fill to budget
    for i in 0..5 {
        registry.register(i, vec![0], false);
    }
    assert_eq!(registry.len(), 5);

    // Register batch that exceeds budget
    let evicted = registry.register_batch(
        &[10, 11, 12],
        &[vec![0], vec![0], vec![0]],
        &[false, false, false],
    );

    // Should have evicted some samples
    assert!(!evicted.is_empty(), "Should return evicted IDs");
    // Evicted IDs should no longer be in registry
    for &id in &evicted {
        assert!(
            registry.get(id).is_none(),
            "Evicted sample {} should not be in registry",
            id
        );
    }
    // Registry should be at or near budget
    assert!(
        registry.len() <= 8,
        "Registry {} should be near budget 5",
        registry.len()
    );
}

fn filled(n: u64) -> InfluenceRegistry {
    let mut registry = InfluenceRegistry::new();
    for i in 0..n {
        registry.register(i, vec![0], i % 2 == 0);
    }
    registry
}

#[test]
fn samples_are_kept_in_order() {
    let mut registry = filled(5);
    assert_eq!(registry.ids_in_order(), vec![0, 1, 2, 3, 4]);
    registry.register(1, vec![3], false);
    assert_eq!(registry.ids_in_order(), vec![0, 2, 3, 4, 1]);
    assert_eq!(registry.get_tree_indices(1), Some(&vec![3]));
    assert_eq!(registry.get_sample_ids_uniform(2), vec![0, 3]);
    assert_eq!(registry.get_sample_ids_uniform(9), vec![0, 2, 3, 4, 1]);
}

#[test]
fn first_come_first_go() {
    let mut registry = filled(5);
    registry.set_budget_config(BudgetConfig { max_samples: 4, ..Default::default() });
    let gone = registry.register_batch_fifo(&[10, 11], &[vec![0], vec![1]], &[true, false]);
    assert_eq!(gone, vec![0, 1, 2]);
    assert_eq!(registry.ids_in_order(), vec![3, 4, 10, 11]);
    assert_eq!(registry.class_counts(), [2, 2]);
}

#[test]
fn the_budget_is_kept() {
    let mut registry = InfluenceRegistry::new();
    registry.set_budget_config(BudgetConfig {
        max_samples: 12,
        eviction_batch_size: 4,
        ..Default::default()
    });
    for i in 0..100 {
        registry.register(i, vec![0, 1], i % 5 == 0);
        assert!(registry.len() <= 12);
    }
    let stats = *registry.eviction_stats();
    assert_eq!(stats.evicted_count, 100 - registry.len());
    assert_eq!(stats.evicted_benign + stats.evicted_attack, stats.evicted_count);
}

#[test]
fn the_memory_estimate_follows_what_is_kept() {
    let mut registry = filled(6);
    let one = registry.memory_bytes() / 6;
    registry.remove(2);
    assert_eq!(registry.memory_bytes(), 5 * one);
    registry.clear();
    assert_eq!(registry.memory_bytes(), 0);
    assert!(registry.is_empty());
}

#[test]
fn influences_before_are_remembered_if_asked_for() {
    let mut registry = filled(2);
    registry.set_influence(0, parts(0.4));
    registry.set_influence(0, parts(-0.1));
    assert_eq!(registry.get(0).unwrap().influence_delta(), None);
    registry.set_influence_tracking(true);
    registry.set_influence(0, parts(0.2));
    assert_eq!(registry.get(0).unwrap().influence_delta(), Some(parts(0.3) as i128));
    registry.replace_influence(0, parts(0.9));
    assert_eq!(registry.get(0).unwrap().influence_delta(), Some(parts(1.0) as i128));
    assert_eq!(registry.influence_coverage(), (1, 2));
    registry.clear_influence_cache();
    assert_eq!(registry.get_influence(0), None);
}

#[test]
fn histories_are_bounded() {
    let mut registry = filled(1);
    for i in 0..50 {
        registry.record_influence(0, parts(i as f64 / 100.0));
    }
    let sample = registry.get(0).unwrap();
    assert_eq!(sample.influence_history.len(), 20);
    // The average of 0.30, 0.31, ... 0.49
    let f = sample.average_influence().unwrap();
    assert!((f.num as f64 / f.den as f64 / 1e9 - 0.395).abs() < 1e-9);
}

#[test]
fn diagnostics_tell_ages_and_influences() {
    let mut registry = filled(4);
    for i in 0..4 {
        registry.set_influence(i, parts(0.1 * i as f64));
    }
    let d = registry.get_diagnostics();
    assert_eq!(d.n_samples, 4);
    let rho = d.age_influence_spearman.unwrap().narrow().unwrap();
    // The older, the smaller the influence
    assert!((rho.num as f64 / rho.den as f64 + 1.0).abs() < 1e-9);
}

#[test]
fn the_budget_can_be_changed() {
    let mut registry = filled(6);
    registry.set_budget_max_samples(3);
    assert!(!registry.budget_enabled());
    registry.set_budget_config(BudgetConfig { eviction_batch_size: 1, ..Default::default() });
    registry.set_budget_max_samples(3);
    assert_eq!(registry.budget_config().unwrap().max_samples, 3);
    registry.register(50, vec![1], true);
    assert_eq!(registry.len(), 3);
    assert_eq!(registry.total_registered(), 7);
}

#[test]
fn classes_are_told_apart() {
    let registry = filled(5);
    assert_eq!(registry.minority_class(), false);
    assert_eq!(registry.majority_class(), true);
    let ratio = registry.imbalance_ratio().unwrap();
    assert_eq!((ratio.num, ratio.den), (3, 2));
    assert!(InfluenceRegistry::new().imbalance_ratio().is_none());
    let mut ids = registry.current_ids();
    ids.sort();
    assert_eq!(ids, vec![0, 1, 2, 3, 4]);
}

#[test]
fn only_what_trees_have_learnt_can_be_forgotten() {
    let mut registry = filled(2);
    registry.register(9, vec![], true);
    assert!(registry.can_unlearn(0));
    assert!(!registry.can_unlearn(9));
    assert!(!registry.can_unlearn(77));
    registry.set_tree_indices(9, vec![4]);
    assert!(registry.can_unlearn(9));
}

#[test]
fn influences_can_be_listed() {
    let mut registry = filled(4);
    registry.set_influence_tracking(true);
    registry.set_influence(1, parts(0.5));
    registry.set_influence(1, parts(-0.25));
    registry.set_influence(2, parts(-0.1));
    registry.set_influence(3, parts(-0.9));
    assert_eq!(registry.get_cached_influence(1), Some(parts(-0.25)));
    let mut list = registry.cached_influences();
    list.sort();
    assert_eq!(list, vec![(1, parts(-0.25)), (2, parts(-0.1)), (3, parts(-0.9))]);
    assert_eq!(registry.get_most_harmful_samples_by_class(false, 1), vec![3]);
    assert_eq!(registry.get_most_harmful_samples_by_class(true, 5), vec![2]);
    assert_eq!(registry.get_rapidly_declining_samples(parts(-0.5)), vec![(1, parts(-0.75) as i128)]);
}

#[test]
fn the_older_and_the_more_harmful_go_first() {
    let mut registry = filled(6);
    registry.set_budget_config(BudgetConfig {
        max_samples: 6,
        eviction_batch_size: 1,
        minority_protection_ratio: 0,
        age_weight: parts(1.0),
        influence_weight: 0,
        class_weight: 0,
        random_eviction: false,
        class_aware_random: false,
    });
    assert_eq!(registry.register(10, vec![0], true), vec![0]);
    assert_eq!(registry.register(11, vec![0], true), vec![1]);
    // Now by influence alone
    registry.set_budget_config(BudgetConfig {
        age_weight: 0,
        influence_weight: parts(1.0),
        ..*registry.budget_config().unwrap()
    });
    for (id, x) in [(2, 0.3), (3, -0.2), (4, -0.7), (5, 0.1), (10, 0.0), (11, 0.2)] {
        registry.set_influence(id, parts(x));
    }
    assert_eq!(registry.register(12, vec![0], true), vec![4]);
}

#[test]
fn two_samples_have_averages() {
    let mut registry = InfluenceRegistry::new();
    let d = registry.get_diagnostics();
    assert_eq!((d.mean_age.num, d.mean_influence.num), (0, 0));
    registry.register(0, vec![0], true);
    registry.register(1, vec![1], false);
    registry.set_influence(0, parts(0.25));
    registry.set_influence(1, parts(0.75));
    let d = registry.get_diagnostics();
    assert_eq!((d.mean_age.num, d.mean_age.den), (3, 2));
    assert_eq!((d.mean_influence.num, d.mean_influence.den), (parts(1.0) as i128, 2));
    assert!(d.age_influence_spearman.is_none());
}

#[test]
fn none_at_even_distances() {
    let registry = filled(5);
    assert!(registry.get_sample_ids_uniform(0).is_empty());
    assert_eq!(registry.get_sample_ids_uniform(2), vec![0, 2]);
    assert_eq!(registry.get_sample_ids_uniform(9), vec![0, 1, 2, 3, 4]);
    assert!(InfluenceRegistry::new().get_sample_ids_uniform(0).is_empty());
}

#[test]
fn what_goes_is_determined() {
    let filled_by = |order: &[u64]| {
        let mut registry = InfluenceRegistry::new();
        for i in 0..12 {
            registry.register(i, vec![0], i % 3 == 0);
        }
        for &i in order {
            registry.set_influence(i, parts(0.1) * (i as i64 % 4));
        }
        registry.set_budget_config(BudgetConfig {
            max_samples: 8,
            eviction_batch_size: 1,
            ..Default::default()
        });
        registry.register(50, vec![1], true);
        let mut ids = registry.sample_ids();
        ids.sort();
        ids
    };
    let forth: Vec<u64> = (0..12).collect();
    let back: Vec<u64> = (0..12).rev().collect();
    let kept = filled_by(&forth);
    assert_eq!(kept.len(), 8);
    assert_eq!(kept, filled_by(&back));
}

#[test]
fn candidates_stand_by_score_and_identifier() {
    let registry = filled(6);
    let config = BudgetConfig {
        age_weight: parts(1.0),
        influence_weight: 0,
        class_weight: 0,
        ..Default::default()
    };
    // The oldest go first
    assert_eq!(registry.compute_eviction_candidates(4, &config), vec![0, 1, 2, 3]);
    assert_eq!(registry.compute_eviction_candidates(9, &config), vec![0, 1, 2, 3, 4, 5]);
    assert!(registry.compute_eviction_candidates(0, &config).is_empty());
    // Equal scores
    let level = BudgetConfig { age_weight: 0, ..config };
    assert_eq!(registry.compute_eviction_candidates(3, &level), vec![0, 1, 2]);
    assert_eq!(registry.len(), 6);
}

#[test]
fn scores_that_are_close_are_told_apart() {
    let mut registry = InfluenceRegistry::new();
    for (id, influence) in [(0, 50000.0), (1, -50000.0), (2, 2e-8), (3, 1e-8)] {
        registry.register(id, vec![0], true);
        registry.record_influence(id, parts(influence));
    }
    let config = BudgetConfig {
        age_weight: 0,
        influence_weight: parts(1.0),
        class_weight: 0,
        minority_protection_ratio: 0,
        ..Default::default()
    };
    // The harm of the last two differs by one part in 10^13 of the whole
    assert_eq!(registry.compute_eviction_candidates(4, &config), vec![1, 3, 2, 0]);
    let all = BudgetConfig { age_weight: parts(1.0), class_weight: parts(1.0), ..config };
    assert_eq!(registry.compute_eviction_candidates(4, &all), vec![1, 0, 2, 3]);
}

#[test]
fn trends_of_different_lengths_are_told_apart() {
    let mut registry = filled(2);
    for x in [1, 0, 1] {
        registry.record_influence(0, x);
    }
    for x in [1, 1, 0, 1, 0] {
        registry.record_influence(1, x);
    }
    let found = registry.get_declining_influence_samples(2);
    let ids: Vec<u64> = found.iter().map(|x| x.0).collect();
    assert_eq!(ids, vec![1, 0]);
    // Two thirds and one half
    assert_eq!((found[0].1.num, found[0].1.den), (-4, 6));
    assert_eq!((found[1].1.num, found[1].1.den), (-1, 2));
}

#[test]
fn the_memory_estimate_follows_what_becomes_known() {
    let mut registry = filled(3);
    let one = registry.memory_bytes() / 3;
    assert_eq!(one, 84 + 8);
    registry.record_influence(0, 5);
    assert_eq!(registry.memory_bytes(), 3 * one + 16);
    registry.record_removal_ranks(&[1, 0, 7]);
    assert_eq!(registry.memory_bytes(), 3 * one + 48);
    registry.set_tree_indices(2, vec![1, 2, 3]);
    assert_eq!(registry.memory_bytes(), 3 * one + 64);
    // A history that is full takes no more
    for i in 0..40 {
        registry.record_influence(0, i);
    }
    assert_eq!(registry.memory_bytes(), 3 * one + 48 + 16 * 20);
    registry.remove(0);
    assert_eq!(registry.memory_bytes(), 2 * one + 32);
    registry.remove(1);
    assert_eq!(registry.memory_bytes(), one + 16);
    registry.remove(2);
    assert_eq!(registry.memory_bytes(), 0);
}

#[test]
fn a_sample_may_be_registered_again() {
    let mut registry = filled(5);
    registry.record_influence(2, 7);
    assert_eq!(registry.class_counts(), [2, 3]);
    assert!(registry.register(2, vec![4, 6], false).is_empty());
    assert_eq!(registry.len(), 5);
    assert_eq!(registry.class_counts(), [3, 2]);
    assert_eq!(registry.total_registered(), 6);
    assert_eq!(registry.get_newest_samples(1), vec![2]);
    assert_eq!(registry.get_oldest_samples(5), vec![0, 1, 3, 4, 2]);
    let sample = registry.get(2).unwrap();
    assert_eq!(sample.tree_indices, vec![4, 6]);
    assert!(!sample.label);
    assert_eq!(sample.cached_influence, None);
    assert_eq!(sample.position, 5);
}
