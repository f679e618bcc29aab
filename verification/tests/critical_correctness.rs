use rand::{Rng, SeedableRng};
use rand_xorshift::XorShiftRng;
use suda_core::fixed::ONE;
use suda_core::forest::{DynFrsForest, ForestConfig};
use suda_core::sample::VecSample;
use suda_core::table::IdTable;
use suda_core::tree::collect::index_samples;
use suda_core::tree::TreeConfig;

fn fixed(x: f32) -> i64 {
    (x as f64 * ONE as f64).round() as i64
}

fn to_fixed(values: &[f32]) -> Vec<i64> {
    values.iter().map(|&x| fixed(x)).collect()
}

fn make_feature_map(samples: &[VecSample]) -> IdTable<Vec<i64>> {
    let mut map = IdTable::new();
    for s in samples {
        map.insert(s.id, s.values.clone());
    }
    map
}

fn forget_with_streaming(forest: &mut DynFrsForest, samples: &[VecSample], ids: &[u64]) -> usize {
    let mut fmap: IdTable<Vec<i64>> = IdTable::new();
    for s in samples {
        if ids.contains(&s.id) {
            fmap.insert(s.id, s.values.clone());
        }
    }
    forest.forget_batch(ids, &fmap)
}

fn make_samples_seeded(count: usize, num_features: u8, seed: u64) -> Vec<VecSample> {
    let mut rng = XorShiftRng::seed_from_u64(seed);
    (0..count)
        .map(|i| {
            let values: Vec<f32> = (0..num_features)
                .map(|_| rng.gen_range(-5.0..5.0))
                .collect();
            let label = values[0] > 0.0;
            VecSample::new(i as u64, to_fixed(&values), label)
        })
        .collect()
}

fn make_test_samples(count: usize, num_features: u8, base: u64) -> Vec<VecSample> {
    let mut rng = XorShiftRng::seed_from_u64(base + 999);
    (0..count)
        .map(|i| {
            let values: Vec<f32> = (0..num_features)
                .map(|_| rng.gen_range(-5.0..5.0))
                .collect();
            VecSample::new(1_000_000 + i as u64, to_fixed(&values), false)
        })
        .collect()
}

fn build_exact_forest(num_features: u8, seed: u64) -> DynFrsForest {
    let config = ForestConfig {
        num_trees: 16,
        k: 4,
        minority_k: 0,
        tree_config: TreeConfig {
            max_depth: 8,
            min_samples_split: 2,
            min_samples_leaf: 1,
            max_features: None,
            num_splits_to_try: 5,
            ..TreeConfig::default()
        },
        seed,
    };
    DynFrsForest::new(config, num_features)
}

fn predict_all(forest: &DynFrsForest, probes: &[VecSample]) -> Vec<bool> {
    probes.iter().map(|s| forest.predict(s)).collect()
}

fn full_lazy_resolve(forest: &mut DynFrsForest, samples: &[VecSample]) {
    if samples.is_empty() {
        return;
    }
    let map = index_samples(&samples);
    let _ = forest.predict_batch_with_lazy_resolve(samples, &map);
}

#[test]
fn test_forget_then_develop_equivalent_to_retrain() {
    let num_features: u8 = 8;
    let all_samples = make_conflicting_samples(200, num_features, 42);
    let probes = make_test_samples(120, num_features, 42);

    let mut forest_a = build_exact_forest(num_features, 42);
    let mut samples_a = all_samples.clone();
    forest_a.fit(&samples_a);
    forest_a.enable_streaming(&samples_a);
    let forget_ids: Vec<u64> = (100..140).map(|i| i as u64).collect();
    forget_with_streaming(&mut forest_a, &all_samples, &forget_ids);
    samples_a.retain(|s| !forget_ids.contains(&s.id));
    full_lazy_resolve(&mut forest_a, &samples_a);
    let preds_a = predict_all(&forest_a, &probes);

    let mut forest_b = build_exact_forest(num_features, 42);
    let samples_b: Vec<VecSample> = all_samples
        .iter()
        .filter(|s| !forget_ids.contains(&s.id))
        .cloned()
        .collect();
    forest_b.fit(&samples_b);
    let preds_b = predict_all(&forest_b, &probes);

    let mismatches: Vec<(usize, bool, bool)> = preds_a
        .iter()
        .zip(preds_b.iter())
        .enumerate()
        .filter(|(_, (a, b))| a != b)
        .map(|(i, (&a, &b))| (i, a, b))
        .collect();

    let agreement_rate = (probes.len() - mismatches.len()) as f64 / probes.len() as f64;
    assert!(
        agreement_rate >= 0.75,
        "forgetting differs from growing anew: agreement={:.3} ({} mismatches / {} probes): {:?}",
        agreement_rate,
        mismatches.len(),
        probes.len(),
        &mismatches[..5.min(mismatches.len())]
    );
}

fn make_conflicting_samples(count: usize, num_features: u8, seed: u64) -> Vec<VecSample> {
    let mut rng = XorShiftRng::seed_from_u64(seed);
    (0..count)
        .map(|i| {
            let values: Vec<f32> = (0..num_features)
                .map(|_| rng.gen_range(-3.0..3.0))
                .collect();
            let label = if i < 100 {
                values[0] > 0.0
            } else {
                if values[0] > 0.0 && values[1] > 0.5 {
                    false
                } else {
                    values[0] > 0.0
                }
            };
            VecSample::new(i as u64, to_fixed(&values), label)
        })
        .collect()
}

#[test]
fn test_develop_adds_routing_change_beyond_forget() {
    let num_features: u8 = 8;
    let all_samples = make_conflicting_samples(200, num_features, 7);
    let probes = make_test_samples(120, num_features, 7);

    let mut f1 = build_exact_forest(num_features, 7);
    f1.fit(&all_samples);
    f1.enable_streaming(&all_samples);
    let forget_ids: Vec<u64> = (100..140).map(|i| i as u64).collect();
    forget_with_streaming(&mut f1, &all_samples, &forget_ids);
    let preds_f1 = predict_all(&f1, &probes);

    let mut f2 = build_exact_forest(num_features, 7);
    f2.fit(&all_samples);
    f2.enable_streaming(&all_samples);
    forget_with_streaming(&mut f2, &all_samples, &forget_ids);
    let remaining: Vec<VecSample> = all_samples
        .iter()
        .filter(|s| !forget_ids.contains(&s.id))
        .cloned()
        .collect();
    full_lazy_resolve(&mut f2, &remaining);
    let preds_f2 = predict_all(&f2, &probes);

    let extra_changes = preds_f1
        .iter()
        .zip(preds_f2.iter())
        .filter(|(a, b)| a != b)
        .count();

    let pct = extra_changes as f64 / probes.len() as f64;
    assert!(
        pct >= 0.05,
        "the work on the trees changes too little: {}/{} = {:.1}%",
        extra_changes,
        probes.len(),
        pct * 100.0
    );
}

#[test]
fn test_streaming_enabled_forget_updates_state() {
    let num_features: u8 = 4;
    let samples = make_samples_seeded(60, num_features, 11);

    let mut forest = build_exact_forest(num_features, 11);
    forest.fit(&samples);
    forest.enable_streaming(&samples);

    let sample_to_forget = &samples[10];
    let removed = forest.forget(sample_to_forget.id, &sample_to_forget.values);
    assert!(removed, "forget failed for known sample id");

    assert!(
        !forest.contains_sample(sample_to_forget.id),
        "the sample is still there"
    );
}

#[test]
fn test_forget_updates_internal_counts_along_path() {
    let num_features: u8 = 4;
    let samples = make_samples_seeded(60, num_features, 13);
    let fmap = make_feature_map(&samples);

    let mut forest = build_exact_forest(num_features, 13);
    forest.fit(&samples);
    forest.enable_streaming(&samples);

    let root_total_before: usize = (0..forest.num_trees())
        .filter_map(|i| forest.tree(i))
        .filter_map(|t| t.node_sample_count(1))
        .sum();

    let total_before = forest.get_all_sample_ids().len();
    let forget_ids: Vec<u64> = (0..20).map(|i| i as u64).collect();
    let n_forgotten = forest.forget_batch(&forget_ids, &fmap);

    let total_after = forest.get_all_sample_ids().len();
    assert!(total_after < total_before, "no sample has gone");
    assert!(n_forgotten > 0, "nothing was forgotten");

    let root_total_after: usize = (0..forest.num_trees())
        .filter_map(|i| forest.tree(i))
        .filter_map(|t| t.node_sample_count(1))
        .sum();
    let drop = root_total_before.saturating_sub(root_total_after);
    assert!(
        drop >= n_forgotten,
        "the roots count {} fewer samples, but {} were forgotten: before={} after={}",
        drop, n_forgotten, root_total_before, root_total_after
    );
}

#[test]
fn test_streaming_states_no_orphan_after_develop() {
    let num_features: u8 = 6;
    let samples = make_samples_seeded(150, num_features, 21);

    let mut forest = build_exact_forest(num_features, 21);
    forest.fit(&samples);
    forest.enable_streaming(&samples);

    for cycle in 0..5 {
        let lo = (cycle * 20) as u64;
        let ids: Vec<u64> = (lo..lo + 20).collect();
        forget_with_streaming(&mut forest, &samples, &ids);
        let remaining: Vec<VecSample> = samples
            .iter()
            .filter(|s| s.id >= ((cycle + 1) * 20) as u64)
            .cloned()
            .collect();
        full_lazy_resolve(&mut forest, &remaining);
    }

    let stats = forest.streaming_stats();
    let states = stats.total_streaming_states;
    assert!(
        states <= 1500,
        "too many states: {}",
        states
    );
}

#[test]
fn test_attr_stats_candidates_recover_after_heavy_forget() {
    let num_features: u8 = 8;
    let samples = make_samples_seeded(200, num_features, 31);

    let mut forest = build_exact_forest(num_features, 31);
    forest.fit(&samples);
    forest.enable_streaming(&samples);

    let initial_states = forest.streaming_stats().total_streaming_states;

    let ids: Vec<u64> = (0..80).map(|i| i as u64).collect();
    forget_with_streaming(&mut forest, &samples, &ids);

    let remaining: Vec<VecSample> = samples.iter().filter(|s| s.id >= 80).cloned().collect();
    full_lazy_resolve(&mut forest, &remaining);

    let after_states = forest.streaming_stats().total_streaming_states;

    assert!(
        after_states <= initial_states * 3 + 50,
        "too many states: initial={}, after={}",
        initial_states,
        after_states
    );
}

#[test]
fn test_internal_sample_ids_after_streaming_cycles() {
    let num_features: u8 = 6;
    let mut samples = make_samples_seeded(100, num_features, 51);

    let mut forest = build_exact_forest(num_features, 51);
    forest.fit(&samples);
    forest.enable_streaming(&samples);

    let mut rng = XorShiftRng::seed_from_u64(999);
    let mut extra = Vec::new();
    for i in 100u64..200u64 {
        let values: Vec<f32> = (0..num_features)
            .map(|_| rng.gen_range(-5.0..5.0))
            .collect();
        let label = values[0] > 0.0;
        extra.push(VecSample::new(i, to_fixed(&values), label));
    }
    forest.add_samples_streaming(&extra, true);
    samples.extend(extra);

    let ids: Vec<u64> = (50..100).map(|i| i as u64).collect();
    forget_with_streaming(&mut forest, &samples, &ids);

    let remaining: Vec<VecSample> = samples
        .iter()
        .filter(|s| !ids.contains(&s.id))
        .cloned()
        .collect();
    full_lazy_resolve(&mut forest, &remaining);

    let stats = forest.streaming_stats();
    assert!(
        stats.total_streaming_states <= 2000,
        "too many states: {}",
        stats.total_streaming_states
    );
}

#[test]
fn test_forget_min_max_sample_triggers_split_threshold_change() {
    let num_features: u8 = 2;
    let mut samples: Vec<VecSample> = Vec::new();
    for i in 0..200 {
        let x0 = -10.0 + (i as f32) * 0.1;
        let label = x0 > 0.0;
        samples.push(VecSample::new(i as u64, to_fixed(&[x0, 0.0]), label));
    }

    let mut forest_a = build_exact_forest(num_features, 71);
    forest_a.fit(&samples);
    forest_a.enable_streaming(&samples);
    forget_with_streaming(&mut forest_a, &samples, &[0u64]);
    let remaining: Vec<VecSample> = samples[1..].to_vec();
    full_lazy_resolve(&mut forest_a, &remaining);

    let mut forest_b = build_exact_forest(num_features, 71);
    forest_b.fit(&remaining);

    let probes = make_test_samples(80, num_features, 71);
    let preds_a: Vec<bool> = probes.iter().map(|s| forest_a.predict(s)).collect();
    let preds_b: Vec<bool> = probes.iter().map(|s| forest_b.predict(s)).collect();

    let mismatches: Vec<usize> = preds_a
        .iter()
        .zip(preds_b.iter())
        .enumerate()
        .filter(|(_, (a, b))| a != b)
        .map(|(i, _)| i)
        .collect();

    assert!(
        mismatches.is_empty(),
        "forgetting differs from growing anew: {} mismatches/{}",
        mismatches.len(), probes.len()
    );
}
