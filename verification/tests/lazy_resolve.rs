use rand::{Rng, SeedableRng};
use rand_xorshift::XorShiftRng;
use suda_core::fixed::ONE;
use suda_core::forest::{DynFrsForest, ForestConfig};
use suda_core::node::node_id::{left_child, right_child, ROOT};
use suda_core::node::LazyTag;
use suda_core::sample::VecSample;
use suda_core::table::IdTable;
use suda_core::tree::collect::index_samples;
use suda_core::tree::TreeConfig;

fn fixed(x: f32) -> i64 {
    (x as f64 * ONE as f64).round() as i64
}

fn to_fixed(values: &[f32]) -> Vec<i64> {
    values.iter().map(|&x| fixed(x)).collect()
}

fn make_drift_samples(count: usize, num_features: u8, seed: u64) -> Vec<VecSample> {
    let mut rng = XorShiftRng::seed_from_u64(seed);
    (0..count)
        .map(|i| {
            let values: Vec<f32> = (0..num_features)
                .map(|_| rng.gen_range(-5.0..5.0))
                .collect();
            let label = values[0] > 0.0;
            VecSample::new(i as u64, to_fixed(&values), label)
        })
        .collect()
}

fn build_exact_forest(num_features: u8, seed: u64) -> DynFrsForest {
    let config = ForestConfig {
        num_trees: 8,
        k: 3,
        minority_k: 0,
        tree_config: TreeConfig {
            max_depth: 6,
            min_samples_split: 2,
            min_samples_leaf: 1,
            max_features: None,
            num_splits_to_try: 5,
            ..TreeConfig::default()
        },
        seed,
    };
    DynFrsForest::new(config, num_features)
}


fn force_all_internal_dirty(forest: &mut DynFrsForest) {
    let num_trees = forest.num_trees();
    for idx in 0..num_trees {
        let tree = forest.tree_mut(idx).expect("tree exists");
        let ids = tree.internal_node_ids();
        for id in ids {
            tree.force_lazy_tag_for_test(id, LazyTag::Dirty);
        }
    }
}

fn total_dirty(forest: &DynFrsForest) -> usize {
    (0..forest.num_trees())
        .filter_map(|idx| forest.tree(idx))
        .map(|t| t.lazy_tag_counts().1)
        .sum()
}

#[test]
fn test_path_amortized_matches_full_develop() {
    let num_features: u8 = 8;
    let warmup = make_drift_samples(160, num_features, 71);
    let forget_ids: Vec<u64> = (40..80).collect();
    let probes = make_drift_samples(60, num_features, 71 + 999);

    let mut a = build_exact_forest(num_features, 71);
    a.fit(&warmup);
    a.enable_streaming(&warmup);
    let mut fmap_a: IdTable<Vec<i64>> = IdTable::new();
    for s in &warmup {
        if forget_ids.contains(&s.id) {
            fmap_a.insert(s.id, s.values.clone());
        }
    }
    a.forget_batch(&forget_ids, &fmap_a);
    let remaining: Vec<VecSample> = warmup
        .iter()
        .filter(|s| !forget_ids.contains(&s.id))
        .cloned()
        .collect();
    let map_a = index_samples(&remaining);
    let preds_a = a.predict_batch_with_lazy_resolve(&probes, &map_a);

    let mut b = build_exact_forest(num_features, 71);
    b.fit(&remaining);
    let preds_b = b.predict_batch(&probes);

    let matches = preds_a
        .iter()
        .zip(preds_b.iter())
        .filter(|(a, b)| a == b)
        .count();
    let agreement = matches as f64 / preds_a.len() as f64;
    assert!(
        agreement >= 0.75,
        "differs from growing anew: {:.3}",
        agreement
    );
}

#[test]
fn test_lazy_resolve_leaves_offpath_intact() {
    let num_features: u8 = 8;
    let warmup = make_drift_samples(400, num_features, 73);

    let mut forest = build_exact_forest(num_features, 73);
    forest.fit(&warmup);
    forest.enable_streaming(&warmup);

    force_all_internal_dirty(&mut forest);
    let dirty_all = total_dirty(&forest);
    assert!(
        dirty_all > 0,
        "some nodes are marked"
    );

    let num_trees = forest.num_trees();
    for idx in 0..num_trees {
        let tree = forest.tree_mut(idx).expect("tree exists");
        tree.force_lazy_tag_for_test(ROOT, LazyTag::Clean);
    }
    let dirty_after_root_clean = total_dirty(&forest);
    assert!(
        dirty_after_root_clean > 0,
        "marked nodes are left below the root: {}",
        dirty_after_root_clean
    );

    let probe = vec![make_drift_samples(1, num_features, 73 + 999)[0].clone()];
    let map = index_samples(&warmup);
    let _ = forest.predict_batch_with_lazy_resolve(&probe, &map);

    let dirty_after = total_dirty(&forest);

    assert!(
        dirty_after > 0,
        "what lies off the path stays marked: {}, {}",
        dirty_after_root_clean,
        dirty_after
    );
    assert!(
        dirty_after < dirty_after_root_clean,
        "what lies on the path is worked on: {}, {}",
        dirty_after_root_clean,
        dirty_after
    );
}

#[test]
fn test_lazy_resolve_persists_across_queries() {
    let num_features: u8 = 8;
    let warmup = make_drift_samples(200, num_features, 75);

    let mut forest = build_exact_forest(num_features, 75);
    forest.fit(&warmup);
    forest.enable_streaming(&warmup);
    force_all_internal_dirty(&mut forest);

    let probe = vec![make_drift_samples(1, num_features, 75 + 999)[0].clone()];
    let map = index_samples(&warmup);

    let _ = forest.predict_batch_with_lazy_resolve(&probe, &map);
    let dirty_q1 = total_dirty(&forest);

    let _ = forest.predict_batch_with_lazy_resolve(&probe, &map);
    let dirty_q2 = total_dirty(&forest);

    assert_eq!(
        dirty_q1, dirty_q2,
        "the second time there is nothing left to do: {}, {}",
        dirty_q1, dirty_q2
    );
}

#[test]
fn test_lazy_resolve_clean_idempotent() {
    let num_features: u8 = 8;
    let warmup = make_drift_samples(200, num_features, 77);

    let mut forest = build_exact_forest(num_features, 77);
    forest.fit(&warmup);
    forest.enable_streaming(&warmup);

    let counts_before: Vec<(usize, usize, usize)> = (0..forest.num_trees())
        .filter_map(|idx| forest.tree(idx))
        .map(|t| t.lazy_tag_counts())
        .collect();

    let probes = make_drift_samples(50, num_features, 77 + 999);
    let map = index_samples(&warmup);
    let _ = forest.predict_batch_with_lazy_resolve(&probes, &map);

    let counts_after: Vec<(usize, usize, usize)> = (0..forest.num_trees())
        .filter_map(|idx| forest.tree(idx))
        .map(|t| t.lazy_tag_counts())
        .collect();

    assert_eq!(
        counts_before, counts_after,
        "nothing changes where nothing is marked"
    );
}

#[test]
fn test_lazy_resolve_with_dirty_children_sequential() {
    let num_features: u8 = 8;
    let warmup = make_drift_samples(300, num_features, 79);

    let mut forest = build_exact_forest(num_features, 79);
    forest.fit(&warmup);
    forest.enable_streaming(&warmup);

    force_all_internal_dirty(&mut forest);

    let probe = vec![make_drift_samples(1, num_features, 79 + 999)[0].clone()];
    let map = index_samples(&warmup);
    let _ = forest.predict_batch_with_lazy_resolve(&probe, &map);

    let root_id = ROOT;
    let left_id = left_child(root_id);
    let right_id = right_child(root_id);

    let mut sequential_observed = false;
    for idx in 0..forest.num_trees() {
        let tree = forest.tree(idx).unwrap();
        let root_tag = tree.lazy_tag_of(root_id);
        let left_tag = tree.lazy_tag_of(left_id);
        let right_tag = tree.lazy_tag_of(right_id);
        if root_tag == Some(LazyTag::Clean)
            && (left_tag == Some(LazyTag::Clean) || right_tag == Some(LazyTag::Clean))
        {
            sequential_observed = true;
            break;
        }
    }

    assert!(
        sequential_observed,
        "no tree was worked on at the root and below it"
    );
}

#[test]
fn shares_and_marks_follow_the_work() {
    let warmup = make_drift_samples(120, 4, 81);
    let mut forest = build_exact_forest(4, 81);
    forest.fit(&warmup);
    forest.enable_streaming(&warmup);
    force_all_internal_dirty(&mut forest);
    let map = index_samples(&warmup);
    let shares = forest.predict_proba_batch_with_lazy_resolve(&warmup[..20], &map);
    assert_eq!(shares.len(), 20);
    for (share, sample) in shares.iter().zip(&warmup) {
        assert_eq!(share.den, 8);
        assert_eq!(*share, forest.predict_proba(sample));
    }
    let (_, before) = forest.rebuild_mark_counts();
    for sample in &warmup[..60] {
        forest.forget(sample.id, &sample.values);
    }
    assert!(forest.rebuild_mark_counts().1 >= before);
}

#[test]
fn marked_roots_are_grown_anew_before_an_answer() {
    let samples = make_drift_samples(60, 4, 5);
    let mut forest = build_exact_forest(4, 17);
    forest.fit(&samples);
    for s in &samples[..20] {
        assert!(forest.forget(s.id, &s.values));
    }
    for idx in 0..forest.num_trees() {
        let tree = forest.tree_mut(idx).expect("tree exists");
        tree.force_lazy_tag_for_test(1, LazyTag::Rebuild);
    }
    let rest = &samples[20..];
    let map = index_samples(rest);
    let answers = forest.predict_batch_with_lazy_resolve(rest, &map);
    assert_eq!(total_dirty(&forest), 0);
    assert_eq!(answers, forest.predict_batch(rest));
    let counted: usize = (0..forest.num_trees())
        .filter_map(|t| forest.tree(t))
        .filter_map(|t| t.node_sample_count(1))
        .sum();
    assert_eq!(counted, 40 * 3);
    // Nothing is left to be done
    assert_eq!(forest.predict_batch_with_lazy_resolve(rest, &map), answers);
}

#[test]
fn work_on_the_way_leaves_exact_answers() {
    let samples = make_drift_samples(120, 4, 23);
    let mut forest = build_exact_forest(4, 29);
    forest.fit(&samples);
    forest.enable_streaming(&samples);
    for s in &samples[..30] {
        assert!(forest.forget(s.id, &s.values));
    }
    force_all_internal_dirty(&mut forest);
    let rest = &samples[30..];
    let map = index_samples(rest);
    let answers = forest.predict_batch_with_lazy_resolve(&rest[..1], &map);
    assert_eq!(answers, forest.predict_batch(&rest[..1]));
    for t in 0..forest.num_trees() {
        let tree = forest.tree(t).unwrap();
        let here: Vec<&VecSample> = rest
            .iter()
            .filter(|s| forest.get_sample_tree_indices(s.id).contains(&t))
            .collect();
        assert_eq!(tree.node_sample_count(ROOT), Some(here.len()));
        // What comes to the children is counted there
        if let Some(split) = tree.node(ROOT).and_then(|n| n.split()) {
            let a = split.attribute_index() as usize;
            let left = here.iter().filter(|s| split.goes_left(s.values[a])).count();
            assert_eq!(tree.node_sample_count(left_child(ROOT)), Some(left));
            assert_eq!(tree.node_sample_count(right_child(ROOT)), Some(here.len() - left));
        }
    }
}
