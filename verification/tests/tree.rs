use suda_core::dataset::{ArrayDataset, AttributeType};
use suda_core::fixed::ONE;
use suda_core::fraction::Fraction;
use suda_core::node::{LazyTag, Node};
use suda_core::sample::{ArraySample, Sample};
use suda_core::split::Split;
use suda_core::tree::collect::index_samples;
use suda_core::tree::hoeffding::HoeffdingConfig;
use suda_core::tree::weighted::{sample_from_draws, ClassWeightConfig};
use suda_core::tree::{DynFrsTree, TreeConfig};

fn fixed(x: f32) -> i64 {
    (x as f64 * ONE as f64).round() as i64
}

fn value(f: Fraction) -> f64 {
    f.num as f64 / f.den as f64
}

/// A share in parts of 10^9.
fn parts(x: f64) -> i64 {
    (x * 1e9).round() as i64
}

fn sample(id: u64, values: [f32; 2], label: bool) -> ArraySample<2> {
    ArraySample::new(id, values.map(fixed), label)
}

/// The first attribute tells the classes apart.
fn make_samples() -> Vec<ArraySample<2>> {
    vec![
        sample(0, [1.0, 1.0], true),
        sample(1, [2.0, 2.0], true),
        sample(2, [3.0, 3.0], true),
        sample(3, [4.0, 4.0], true),
        sample(4, [6.0, 1.0], false),
        sample(5, [7.0, 2.0], false),
        sample(6, [8.0, 3.0], false),
        sample(7, [9.0, 4.0], false),
    ]
}

/// One sample in fifty is positive.
fn make_imbalanced_samples() -> Vec<ArraySample<2>> {
    let mut samples = Vec::new();
    let mut id = 0u64;

    samples.push(sample(id, [1.0, 1.0], true));
    id += 1;
    samples.push(sample(id, [2.0, 2.0], true));
    id += 1;

    for i in 0..98 {
        let x = 5.0 + (i as f32) * 0.1;
        samples.push(sample(id, [x, x], false));
        id += 1;
    }

    samples
}

fn config(num_splits_to_try: usize) -> TreeConfig {
    TreeConfig {
        max_depth: 5,
        min_samples_split: 2,
        min_samples_leaf: 1,
        max_features: Some(2),
        num_splits_to_try,
        split_quality_threshold: None,
        hoeffding: HoeffdingConfig::default(),
    }
}

fn fitted(config: TreeConfig) -> (DynFrsTree, ArrayDataset, Vec<ArraySample<2>>) {
    let mut samples = make_samples();
    let dataset = ArrayDataset::from_samples(&samples, 2);
    let mut tree = DynFrsTree::new(0, 42, config, 2);
    tree.fit(&dataset, &mut samples);
    (tree, dataset, samples)
}

#[test]
fn tree_test_tree_fit_predict() {
    let mut samples = make_samples();
    let dataset = ArrayDataset::from_samples(&samples, 2);

    let config = TreeConfig {
        max_depth: 5,
        min_samples_split: 2,
        min_samples_leaf: 1,
        max_features: Some(2),
        num_splits_to_try: 10,
        ..TreeConfig::default()
    };

    let mut tree = DynFrsTree::new(0, 42, config, 2);
    tree.fit(&dataset, &mut samples);

    for sample in &samples {
        let pred = tree.predict(sample);
        assert_eq!(
            pred,
            sample.label(),
            "wrong prediction for sample {}",
            sample.id()
        );
    }
}

#[test]
fn tree_test_tree_forget() {
    let mut samples = make_samples();
    let dataset = ArrayDataset::from_samples(&samples, 2);

    let config = TreeConfig::default();
    let mut tree = DynFrsTree::new(0, 42, config, 2);
    tree.fit(&dataset, &mut samples);

    assert!(tree.contains_sample(0));
    let features_0: Vec<i64> = samples[0].values.to_vec();
    let (leaf, _) = tree.remove_sample_streaming(0, &features_0, true, true);
    assert!(leaf.is_some(), "sample 0 has been removed");
    assert!(!tree.contains_sample(0));

    let (leaf, _) = tree.remove_sample_streaming(999, &[fixed(0.0), fixed(0.0)], false, true);
    assert!(leaf.is_none(), "a sample that is not there cannot be removed");
}

#[test]
fn tree_forgets_by_identifier() {
    let (mut tree, _, _) = fitted(TreeConfig::default());

    assert!(tree.contains_sample(0));
    assert!(tree.forget(0, true));
    assert!(!tree.contains_sample(0));

    assert!(!tree.forget(999, false));
}

#[test]
fn tree_test_tree_stats() {
    let mut samples = make_samples();
    let dataset = ArrayDataset::from_samples(&samples, 2);

    let config = TreeConfig::default();
    let mut tree = DynFrsTree::new(0, 42, config, 2);
    tree.fit(&dataset, &mut samples);

    assert!(tree.num_nodes() > 0);
    assert_eq!(tree.num_samples(), 8);
    assert!(tree.depth() > 0);
}

#[test]
fn tree_test_develop_after_forget() {
    let mut samples = make_samples();
    let dataset = ArrayDataset::from_samples(&samples, 2);

    let config = TreeConfig {
        max_depth: 5,
        min_samples_split: 2,
        min_samples_leaf: 1,
        max_features: Some(2),
        num_splits_to_try: 5,
        ..TreeConfig::default()
    };

    let mut tree = DynFrsTree::new(0, 42, config, 2);
    tree.fit(&dataset, &mut samples);

    let initial_nodes = tree.num_nodes();
    assert_eq!(tree.num_samples(), 8);

    for i in 0..4 {
        let features: Vec<i64> = samples[i as usize].values.to_vec();
        tree.remove_sample_streaming(i, &features, true, true);
    }
    assert_eq!(tree.num_samples(), 4);

    let remaining_samples: Vec<_> = samples.iter().filter(|s| s.id() >= 4).cloned().collect();

    let sample_map = index_samples(&remaining_samples);
    for sample in &remaining_samples {
        let _ = tree.predict_with_lazy_resolve(&dataset, &sample_map, sample);
    }

    assert!(
        tree.num_nodes() > 0,
        "the tree has nodes after the work on it"
    );
    assert_eq!(tree.num_samples(), 4, "4 samples are left");

    for sample in &remaining_samples {
        let _pred = tree.predict(sample);
    }

    println!(
        "nodes {} -> {}, samples 8 -> 4",
        initial_nodes,
        tree.num_nodes()
    );
}

#[test]
fn tree_develops_after_forgetting_by_identifier() {
    let (mut tree, dataset, samples) = fitted(config(5));
    let initial_nodes = tree.num_nodes();
    assert_eq!(tree.num_samples(), 8);

    for i in 0..4 {
        tree.forget(i, true);
    }
    assert_eq!(tree.num_samples(), 4);

    let remaining_samples: Vec<_> = samples.iter().filter(|s| s.id() >= 4).cloned().collect();
    tree.develop(&dataset, &remaining_samples);

    assert!(tree.num_nodes() > 0, "the tree has nodes after the work on it");
    assert_eq!(tree.num_samples(), 4, "4 samples are left");
    assert!(!tree.has_dirty_nodes());
    for sample in &remaining_samples {
        assert!(!tree.predict(sample));
    }
    println!("nodes {} -> {}, samples 8 -> 4", initial_nodes, tree.num_nodes());
}

#[test]
fn test_class_weight_config_from_ratio() {
    // One sample in 250 is positive
    let config = ClassWeightConfig::from_ratio(parts(0.004));
    assert!(value(config.positive_weight) > 200.0, "rare samples weigh much");
    assert!(value(config.negative_weight) < 2.0, "common samples weigh little");
    assert!(
        value(config.positive_weight) / value(config.negative_weight) > 100.0,
        "rare samples weigh more than 100 times as much"
    );

    let balanced = ClassWeightConfig::from_ratio(parts(0.5));
    assert!(
        (value(balanced.positive_weight) - value(balanced.negative_weight)).abs() < 0.01,
        "equal shares weigh the same"
    );

    let config2 = ClassWeightConfig::from_ratio(parts(0.0001));
    assert!(value(config2.positive_weight) > 1000.0, "very rare samples weigh very much");
}

#[test]
fn class_weights_are_exact() {
    let config = ClassWeightConfig::from_ratio(parts(0.004));
    assert!((value(config.positive_weight) - 250.0).abs() < 1e-9);
    assert_eq!(config.weight_for(true), config.positive_weight);
    assert_eq!(config.weight_for(false), config.negative_weight);
    // Shares are kept away from zero and one
    assert!((value(ClassWeightConfig::from_ratio(0).positive_weight) - 10_000.0).abs() < 1e-6);
    assert!(
        (value(ClassWeightConfig::from_ratio(parts(1.0)).negative_weight) - 10_000.0).abs() < 1e-6
    );
    assert_eq!(value(ClassWeightConfig::balanced().positive_weight), 1.0);
}

#[test]
fn test_fit_weighted_basic() {
    let samples = make_samples();
    let dataset = ArrayDataset::from_samples(&samples, 2);

    let config = TreeConfig {
        max_depth: 5,
        min_samples_split: 2,
        min_samples_leaf: 1,
        max_features: Some(2),
        num_splits_to_try: 10,
        split_quality_threshold: None,
        ..Default::default()
    };

    let mut tree = DynFrsTree::new(0, 42, config, 2);

    let weights = ClassWeightConfig::balanced();
    tree.fit_weighted(&dataset, &samples, &weights);

    assert!(tree.num_nodes() > 0, "the tree has nodes");
    assert!(tree.num_samples() > 0, "the tree has samples");

    let mut correct = 0;
    for sample in &samples {
        if tree.predict(sample) == sample.label() {
            correct += 1;
        }
    }
    assert!(correct >= 4, "at least half are right: {}/8", correct);
}

#[test]
fn test_fit_weighted_imbalanced() {
    let samples = make_imbalanced_samples();
    let dataset = ArrayDataset::from_samples(&samples, 2);

    let config = TreeConfig {
        max_depth: 10,
        min_samples_split: 2,
        min_samples_leaf: 1,
        max_features: Some(2),
        num_splits_to_try: 10,
        split_quality_threshold: None,
        ..Default::default()
    };

    let mut tree_unweighted = DynFrsTree::new(0, 42, config.clone(), 2);
    let mut samples_for_fit = samples.clone();
    tree_unweighted.fit(&dataset, &mut samples_for_fit);

    let mut tree_weighted = DynFrsTree::new(1, 42, config, 2);
    let weights = ClassWeightConfig::from_ratio(parts(0.02));
    tree_weighted.fit_weighted(&dataset, &samples, &weights);

    assert!(tree_weighted.num_nodes() > 0, "the tree has nodes");
    // All positive samples and twice as many negative ones
    assert_eq!(tree_weighted.num_samples(), 6);
    assert_eq!(tree_unweighted.num_samples(), 100);

    let attack_samples: Vec<_> = samples.iter().filter(|s| s.label()).collect();

    let mut weighted_attack_correct = 0;
    for sample in &attack_samples {
        if tree_weighted.predict(*sample) == sample.label() {
            weighted_attack_correct += 1;
        }
    }

    println!(
        "positive samples found: {}/{} ({:.1}%)",
        weighted_attack_correct,
        attack_samples.len(),
        100.0 * weighted_attack_correct as f64 / attack_samples.len() as f64
    );
}

#[test]
fn draws_pick_all_of_the_smaller_class() {
    let samples: Vec<_> = (0..9).map(|i| sample(i, [i as f32, 0.0], i == 4)).collect();
    // Two of the eight negative samples, the sixth and the third, behind the positive one
    let picked = sample_from_draws(&samples, &vec![5, 2], &vec![2, 1]);
    let ids: Vec<u64> = picked.iter().map(|s| s.id()).collect();
    assert_eq!(ids, vec![4, 6, 2]);
    // The last place is exchanged with the first one
    let picked = sample_from_draws(&samples, &vec![5, 2], &vec![0, 1]);
    let ids: Vec<u64> = picked.iter().map(|s| s.id()).collect();
    assert_eq!(ids, vec![2, 6, 4]);
}

#[test]
fn forgetting_undoes_learning() {
    let (mut tree, _, samples) = fitted(config(10));
    let nodes = tree.num_nodes();
    let newcomer = sample(100, [2.5, 2.5], false);
    assert!(tree.add_sample_incremental(&newcomer).is_some());
    assert_eq!(tree.num_samples(), 9);
    assert!(tree.forget(100, false));
    assert_eq!(tree.num_samples(), 8);
    assert_eq!(tree.num_nodes(), nodes);
    for s in &samples {
        assert_eq!(tree.predict(s), s.label());
    }
}

#[test]
fn a_tree_without_nodes_becomes_a_leaf() {
    let mut tree = DynFrsTree::new(0, 1, TreeConfig::default(), 2);
    assert!(!tree.predict(&sample(0, [0.0, 0.0], true)));
    let first = sample(3, [1.0, 1.0], true);
    assert_eq!(tree.add_sample_incremental(&first), Some(1));
    assert_eq!((tree.num_nodes(), tree.num_samples()), (1, 1));
    assert!(tree.predict(&sample(0, [9.0, 9.0], false)));
}

#[test]
fn samples_can_be_added_together() {
    let (mut tree, _, _) = fitted(config(10));
    let more = vec![sample(20, [1.5, 0.0], true), sample(21, [8.5, 0.0], false)];
    let ends = tree.add_samples_incremental(&more);
    assert_eq!(ends.len(), 2);
    assert_eq!(tree.num_samples(), 10);
    assert!(tree.contains_sample(20) && tree.contains_sample(21));
}

#[test]
fn forgetting_few_samples_keeps_the_nodes() {
    let (mut tree, dataset, samples) = fitted(config(10));
    let nodes = tree.num_nodes();
    // Two of eight are no more than a third
    let gone = tree.forget_batch_optimized(&[(0, true), (4, false)], &dataset, &samples);
    assert_eq!(gone, 2);
    assert_eq!(tree.num_samples(), 6);
    assert_eq!(tree.num_nodes(), nodes);
}

#[test]
fn forgetting_many_samples_grows_the_tree_anew() {
    let (mut tree, dataset, samples) = fitted(config(10));
    // Four of eight are more than a third: only one class is left
    let list = [(0, true), (1, true), (2, true), (3, true)];
    let gone = tree.forget_batch_optimized(&list, &dataset, &samples);
    assert_eq!(gone, 4);
    assert_eq!(tree.num_samples(), 4);
    assert_eq!(tree.num_nodes(), 1);
    assert!(!tree.predict(&samples[0]));
}

#[test]
fn forgetting_nothing_changes_nothing() {
    let (mut tree, dataset, samples) = fitted(config(10));
    assert_eq!(tree.forget_batch_optimized(&[], &dataset, &samples), 0);
    assert_eq!(tree.forget_batch_optimized(&[(77, true), (78, true), (79, false)], &dataset, &samples), 0);
    assert_eq!(tree.num_samples(), 8);
}

#[test]
fn a_batch_is_forgotten_sample_by_sample() {
    let (mut tree, _, _) = fitted(config(10));
    tree.forget_batch(&[(0, true), (99, true), (7, false)]);
    assert_eq!(tree.num_samples(), 6);
    assert!(!tree.contains_sample(0) && !tree.contains_sample(7));
}

#[test]
fn a_node_with_too_few_samples_is_marked() {
    let mut limits = config(10);
    limits.min_samples_split = 8;
    let (mut tree, _, _) = fitted(limits);
    assert!(!tree.has_dirty_nodes());
    tree.forget(0, true);
    assert!(tree.has_dirty_nodes());
    match tree.node(1) {
        Some(Node::Internal { lazy_tag, num_samples, .. }) => {
            assert_eq!(*lazy_tag, LazyTag::Dirty);
            assert_eq!(*num_samples, 7);
        }
        _ => panic!("the root has a split"),
    }
}

#[test]
fn a_split_that_worsens_is_marked() {
    // A root that is split at the top, with one stray negative sample on the left
    let mut samples = make_samples();
    samples.push(sample(8, [2.5, 2.5], false));
    let dataset = ArrayDataset::from_samples(&samples, 2);
    let mut limits = config(30);
    limits.max_depth = 1;
    limits.split_quality_threshold = Some(parts(0.01));
    let mut tree = DynFrsTree::new(0, 42, limits, 2);
    tree.fit(&dataset, &mut samples.clone());
    let before = match tree.node(1) {
        Some(Node::Internal { split_gini, .. }) => value(*split_gini),
        _ => panic!("the root has a split"),
    };
    assert!((value(tree.compute_current_split_gini(1).unwrap()) - before).abs() < 1e-12);
    // Forgetting positive samples raises the impurity that the split leaves
    tree.forget(0, true);
    tree.forget(1, true);
    let after = value(tree.compute_current_split_gini(1).unwrap());
    match tree.node(1) {
        Some(Node::Internal { lazy_tag, .. }) => {
            assert_eq!(*lazy_tag == LazyTag::Rebuild, after - before > 0.01);
            assert!(after - before > 0.01, "{} -> {}", before, after);
        }
        _ => panic!("the root has a split"),
    }
    // Its sides are leaves, which have no split
    assert!(tree.compute_current_split_gini(2).is_none());
}

#[test]
fn old_splits_are_grown_anew() {
    let (mut tree, dataset, samples) = fitted(config(10));
    let map = index_samples(&samples);
    tree.develop_with_age(&dataset, &map, 500, Some(500));
    match tree.node(1) {
        Some(Node::Internal { created_at, .. }) => assert_eq!(*created_at, 0),
        _ => panic!("the root has a split"),
    }
    tree.develop_with_age(&dataset, &map, 501, Some(500));
    match tree.node(1) {
        Some(Node::Internal { created_at, .. }) => assert_eq!(*created_at, 501),
        _ => panic!("the root has a split"),
    }
    assert_eq!(tree.num_samples(), 8);
}

#[test]
fn streaming_is_turned_off_with_its_statistics() {
    let (mut tree, _, samples) = fitted(config(10));
    tree.init_streaming_states(&samples);
    assert!(tree.is_streaming());
    assert_eq!(tree.num_streaming_states(), tree.num_nodes());
    tree.set_streaming(false);
    assert!(!tree.is_streaming());
    assert_eq!(tree.num_streaming_states(), 0);
}

#[test]
fn a_leaf_is_split_on_the_spot() {
    let samples = make_samples();
    let mut tree = DynFrsTree::new_streaming(0, 3, config(10), 2);
    for s in &samples {
        tree.add_sample_streaming(s, &s.values, true);
    }
    assert_eq!(tree.num_nodes(), 1);
    let map = index_samples(&samples[1..]);
    assert!(tree.perform_hoeffding_split(1, 0, fixed(5.0), &map));
    assert_eq!(tree.num_nodes(), 3);
    // The first sample was not known
    assert_eq!(tree.num_samples(), 7);
    assert!(!tree.contains_sample(0));
    assert_eq!(tree.node_sample_count(2), Some(3));
    assert_eq!(tree.node_sample_count(3), Some(4));
    assert_eq!(tree.num_streaming_states(), 3);
    for s in &samples {
        assert_eq!(tree.predict(s), s.label());
    }
    // An inner node is not split again, nor is a node that there is not
    assert!(!tree.perform_hoeffding_split(1, 0, fixed(5.0), &map));
    assert!(!tree.perform_hoeffding_split(9, 0, fixed(5.0), &map));
}

#[test]
fn a_leaf_waits_for_enough_samples() {
    let samples = make_samples();
    let mut tree = DynFrsTree::new_streaming(0, 3, config(10), 2);
    for s in &samples {
        tree.add_sample_streaming(s, &s.values, true);
    }
    let limits =
        HoeffdingConfig { grace_period: 8, tau: parts(0.05), ..HoeffdingConfig::default() };
    let low = Some(Fraction { num: 1, den: 10 });
    let high = Some(Fraction { num: 3, den: 10 });
    // The scores differ by 0.2
    assert!(tree.hoeffding_should_split(&limits, 1, low, high, parts(0.19)));
    assert!(!tree.hoeffding_should_split(&limits, 1, low, high, parts(0.2)));
    assert!(tree.hoeffding_should_split(&limits, 1, low, low, parts(0.04)));
    assert!(!tree.hoeffding_should_split(&limits, 1, low, None, parts(0.05)));
    assert!(tree.hoeffding_should_split(&limits, 1, low, None, parts(0.04)));
    assert!(!tree.hoeffding_should_split(&limits, 1, None, None, parts(0.04)));
    let later = HoeffdingConfig { grace_period: 9, ..limits };
    assert!(!tree.hoeffding_should_split(&later, 1, low, high, parts(0.01)));
    assert!(!tree.hoeffding_should_split(&limits, 2, low, high, parts(0.01)));
}

#[test]
fn the_bound_shrinks_with_the_samples() {
    let config = HoeffdingConfig::default();
    for n in [1u32, 7, 200, 1_000_000] {
        let exact = ((1e7f64).ln() / (2.0 * n as f64)).sqrt();
        assert!((config.hoeffding_bound(n) as f64 / 1e9 - exact).abs() < 2e-9);
    }
}

#[test]
fn leaves_are_split_while_samples_come() {
    let samples: Vec<_> = (0..40)
        .map(|i| sample(i, [(i % 10) as f32, (i % 3) as f32], i % 10 < 5))
        .collect();
    let map = index_samples(&samples);
    let hoeffding = HoeffdingConfig { enabled: true, grace_period: 20, log_inverse_delta: 0, tau: 1 };
    let mut tree = DynFrsTree::new_streaming(0, 11, TreeConfig { hoeffding, ..config(10) }, 2);
    for s in &samples[..10] {
        let r = tree.add_sample_streaming_hoeffding(s, &s.values, true, Some(&map));
        assert_eq!(r, (Some(1), false));
    }
    // Statistics are made of the samples that the leaf has by now
    tree.init_streaming_states(&samples[..10]);
    for s in &samples[10..] {
        let r = tree.add_sample_streaming_hoeffding(s, &s.values, true, Some(&map));
        assert!(r.0.is_some());
    }
    assert_eq!(tree.num_samples(), 40);
    assert!(tree.num_nodes() >= 3);
    for s in &samples {
        assert!(tree.contains_sample(s.id()));
    }
}

#[test]
fn a_marked_root_is_grown_anew_from_what_is_left() {
    let (mut tree, dataset, samples) = fitted(config(10));
    for id in [0, 4, 5] {
        tree.forget(id, id < 4);
    }
    let rest: Vec<_> = samples.iter().filter(|s| tree.contains_sample(s.id())).cloned().collect();
    assert_eq!(rest.len(), 5);
    assert!(tree.force_lazy_tag_for_test(1, LazyTag::Rebuild));
    tree.develop(&dataset, &rest);
    assert!(!tree.has_dirty_nodes());
    assert_eq!(tree.node_sample_count(1), Some(5));
    assert_eq!(tree.num_samples(), 5);
    for s in &rest {
        assert_eq!(tree.predict(s), s.label());
    }
}

#[test]
fn categories_are_split_by_subsets() {
    // Only the category tells the classes apart, and no threshold does
    let mut samples: Vec<_> =
        (0..60).map(|i| sample(i, [(i % 6) as f32, 0.0], i % 6 % 2 == 0)).collect();
    let mut dataset = ArrayDataset::from_samples(&samples, 2);
    dataset.set_attribute_type(0, AttributeType::Categorical);
    let mut tree = DynFrsTree::new(0, 5, TreeConfig { max_depth: 8, ..config(20) }, 2);
    tree.fit(&dataset, &mut samples);
    let mut subsets = Vec::new();
    for id in tree.internal_node_ids() {
        match tree.node(id).unwrap().split().unwrap() {
            Split::Categorical { attribute_index, subset } => {
                assert_eq!(*attribute_index, 0);
                subsets.push(*subset);
            }
            Split::Numerical { .. } => panic!("the other attribute is constant"),
        }
    }
    assert!(!subsets.is_empty());
    for s in &samples {
        assert_eq!(tree.predict(s), s.label());
    }
}

#[test]
fn leaves_are_only_marked_unless_splitting_is_enabled() {
    let samples: Vec<_> = (0..40)
        .map(|i| sample(i, [(i % 10) as f32, (i % 3) as f32], i % 10 < 5))
        .collect();
    let map = index_samples(&samples);
    // The bound is small enough at once, and there are enough samples
    let hoeffding =
        HoeffdingConfig { enabled: false, grace_period: 2, log_inverse_delta: 0, tau: 1 };
    let limits = TreeConfig { hoeffding, ..config(10) };
    let mut marked = DynFrsTree::new_streaming(0, 11, limits, 2);
    let mut plain = DynFrsTree::new_streaming(0, 11, limits, 2);
    for s in &samples[..10] {
        marked.add_sample_streaming_hoeffding(s, &s.values, true, Some(&map));
        plain.add_sample_streaming(s, &s.values, true);
    }
    marked.init_streaming_states(&samples[..10]);
    plain.init_streaming_states(&samples[..10]);
    for s in &samples[10..] {
        assert_eq!(
            marked.add_sample_streaming_hoeffding(s, &s.values, true, Some(&map)),
            plain.add_sample_streaming(s, &s.values, true)
        );
    }
    assert_eq!(marked.num_nodes(), 1);
    assert_eq!(marked.num_samples(), 40);
}

#[test]
fn forgetting_goes_on_after_development() {
    let (mut tree, dataset, samples) = fitted(config(10));
    tree.forget(0, true);
    assert!(tree.force_lazy_tag_for_test(1, LazyTag::Rebuild));
    let rest: Vec<_> = samples.iter().filter(|s| tree.contains_sample(s.id())).cloned().collect();
    tree.develop(&dataset, &rest);
    // The counts are those of what is left, at every node
    for id in [4, 1] {
        assert!(tree.forget(id, id < 4));
    }
    assert_eq!(tree.node_sample_count(1), Some(5));
    let mut in_leaves = 0;
    for id in tree.internal_node_ids() {
        let below = |c: u64| tree.node_sample_count(c).unwrap_or(0);
        assert_eq!(tree.node_sample_count(id), Some(below(2 * id) + below(2 * id + 1)));
    }
    for s in &samples {
        if tree.contains_sample(s.id()) {
            in_leaves += 1;
        }
    }
    assert_eq!(in_leaves, 5);
}

#[test]
fn there_is_no_work_where_nothing_is_marked() {
    let (mut tree, dataset, samples) = fitted(config(10));
    let map = index_samples(&samples);
    let nodes = tree.num_nodes();
    let counts: Vec<_> = (0..40).map(|id| tree.node_sample_count(id)).collect();
    // An inner node that is up to date, leaves, and nodes that there are not
    for id in 0..40 {
        tree.lazy_resolve_this_node(&dataset, &map, id);
    }
    assert_eq!(tree.num_nodes(), nodes);
    assert_eq!((0..40).map(|id| tree.node_sample_count(id)).collect::<Vec<_>>(), counts);
    for s in &samples {
        assert_eq!(tree.predict(s), s.label());
    }
    assert!(tree.force_lazy_tag_for_test(1, LazyTag::Dirty));
    tree.lazy_resolve_this_node(&dataset, &map, 1);
    assert!(!tree.has_dirty_nodes());
    assert_eq!(tree.node_sample_count(1), Some(8));
}
