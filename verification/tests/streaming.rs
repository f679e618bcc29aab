use rand::SeedableRng;
use rand_xorshift::XorShiftRng;
use suda_core::fixed::ONE;
use suda_core::fraction::Fraction;
use suda_core::streaming::{
    calc_score, AttributeCandidate, AttributeStats, DelayTag, Row, StreamingNodeState,
    ThresholdCandidate,
};

fn fixed(x: f32) -> i64 {
    (x as f64 * ONE as f64).round() as i64
}

fn value(f: Option<Fraction>) -> f64 {
    let f = f.unwrap();
    f.num as f64 / f.den as f64
}

fn column(list: &[(f32, bool)]) -> Vec<(i64, bool)> {
    list.iter().map(|&(x, label)| (fixed(x), label)).collect()
}

#[test]
fn test_calc_score() {
    // All positive samples left, all negative ones right
    let score = value(calc_score(50, 50, 50, 0));
    assert!(score < 0.01, "a perfect split leaves next to nothing");

    // Both sides mixed
    let score = value(calc_score(50, 25, 50, 25));
    assert!(score > 0.1, "a random split leaves more");
}

#[test]
fn test_threshold_candidate() {
    let candidate = ThresholdCandidate::new(fixed(5.0), 30, 20);
    let score = value(candidate.score(100, 50));
    assert!(score > 0.0, "the score is positive");
}

#[test]
fn test_attribute_candidate_init() {
    let values = column(&[
        (1.0, true),
        (2.0, true),
        (3.0, false),
        (8.0, false),
        (9.0, false),
    ]);

    let mut rng = XorShiftRng::seed_from_u64(42);
    let candidate = AttributeCandidate::init_from_batch(0, &values, 5, &mut rng);

    assert!(candidate.is_some(), "there is a candidate");
    let c = candidate.unwrap();
    assert_eq!(c.attr_idx, 0);
    assert!((c.min_val - fixed(1.0)).abs() < fixed(f32::EPSILON));
    assert!((c.max_val - fixed(9.0)).abs() < fixed(f32::EPSILON));
}

#[test]
fn test_attribute_candidate_add_sample() {
    let values = column(&[(2.0, true), (4.0, true), (6.0, false), (8.0, false)]);

    let mut rng = XorShiftRng::seed_from_u64(42);
    let mut candidate = AttributeCandidate::init_from_batch(0, &values, 3, &mut rng).unwrap();

    // Within the range
    let invalidated = candidate.add_sample(fixed(5.0), true, 5, 3);
    assert!(!invalidated, "nothing is lost within the range");

    // Beyond the range
    let invalidated = candidate.add_sample(fixed(10.0), false, 6, 3);
    assert!(invalidated, "a wider range starts anew");
}

#[test]
fn test_attribute_stats() {
    let mut stats = AttributeStats::new(4, 42);
    assert_eq!(stats.total_samples, 0);
    assert_eq!(stats.num_candidates(), 0);

    let sample_ids: Vec<u64> = vec![0, 1, 2, 3, 4];
    let features: Vec<Vec<f32>> = vec![
        vec![1.0, 2.0, 3.0, 4.0],
        vec![2.0, 3.0, 4.0, 5.0],
        vec![3.0, 4.0, 5.0, 6.0],
        vec![7.0, 8.0, 9.0, 10.0],
        vec![8.0, 9.0, 10.0, 11.0],
    ];
    let labels: Vec<bool> = vec![true, true, true, false, false];

    let rows: Vec<Row> = sample_ids
        .iter()
        .map(|&id| Row {
            values: features[id as usize].iter().map(|&x| fixed(x)).collect(),
            label: labels[id as usize],
        })
        .collect();
    stats.init_from_batch(&rows, 3);

    assert_eq!(stats.total_samples, 5);
    assert_eq!(stats.total_positive, 3);
    assert!(stats.num_candidates() > 0, "there are candidates");
}

#[test]
fn test_streaming_node_state() {
    let state = StreamingNodeState::new(4, 42, 0);
    assert!(state.is_leaf());
    assert_eq!(state.delay, DelayTag::NeedsBuild);
}

#[test]
fn a_score_is_an_exact_fraction() {
    // Left 10 of 30 positive, right 40 of 70 positive
    let f = calc_score(30, 10, 70, 40).unwrap();
    assert_eq!(f, Fraction { num: 20 * 10 * 70 + 30 * 40 * 30, den: 30 * 70 * 100 });
    assert!(calc_score(0, 0, 5, 2).is_none());
}

#[test]
fn thresholds_count_what_lies_left_of_them() {
    let values = column(&[(1.0, true), (2.0, false), (3.0, true), (4.0, false)]);
    let c = AttributeCandidate::from_thresholds(0, &values, &vec![fixed(2.0), fixed(3.5)]);
    let counts: Vec<(u32, u32)> =
        c.thresholds.iter().map(|t| (t.left_count, t.left_positive)).collect();
    assert_eq!(counts, vec![(2, 1), (3, 2)]);
}

#[test]
fn a_departure_undoes_an_arrival() {
    let values = column(&[(1.0, true), (2.0, false), (3.0, true), (4.0, false)]);
    let mut c = AttributeCandidate::from_thresholds(0, &values, &vec![fixed(2.0), fixed(3.5)]);
    assert!(!c.add_sample(fixed(1.5), true, 5, 3));
    assert_eq!(c.thresholds[0].left_count, 3);
    assert!(!c.remove_sample(fixed(1.5), true, 4, 2));
    let counts: Vec<(u32, u32)> =
        c.thresholds.iter().map(|t| (t.left_count, t.left_positive)).collect();
    assert_eq!(counts, vec![(2, 1), (3, 2)]);
}

#[test]
fn a_constant_attribute_has_no_candidate() {
    let values = column(&[(2.0, true), (2.0, false)]);
    let mut rng = XorShiftRng::seed_from_u64(1);
    assert!(AttributeCandidate::init_from_batch(0, &values, 3, &mut rng).is_none());
}

#[test]
fn the_two_best_splits_are_told() {
    let mut stats = AttributeStats::new(2, 5);
    assert!(stats.top_two_splits().0.is_none());
    // The first attribute tells the classes apart, the second one does not
    let rows: Vec<Row> = (0..8)
        .map(|i| Row { values: vec![fixed(i as f32), fixed((i % 4) as f32)], label: i < 4 })
        .collect();
    stats.init_from_batch(&rows, 2);
    let (best, second) = stats.top_two_splits();
    assert_eq!(best, stats.find_best_split());
    let (best, second) = (best.unwrap(), second.unwrap());
    let score = |f: Fraction| f.num as f64 / f.den as f64;
    assert_eq!(best.0, 0);
    assert!(score(best.2) <= score(second));
    let scores: Vec<f64> = stats.candidates.iter().map(|c| value(c.best_score)).collect();
    assert_eq!(scores.len(), 2);
    assert!((scores[0].max(scores[1]) - score(second)).abs() < 1e-12);
}

#[test]
fn both_ends_are_counted() {
    let mut rng = XorShiftRng::seed_from_u64(42);
    let values = column(&[(9.0, true), (9.0, false), (5.0, false)]);
    let mut c = AttributeCandidate::init_from_batch(0, &values, 1, &mut rng).unwrap();
    assert_eq!((c.min_val, c.min_count), (fixed(5.0), 1));
    assert_eq!((c.max_val, c.max_count), (fixed(9.0), 2));
    assert!(!c.add_sample(fixed(9.0), true, 4, 2));
    assert!(!c.add_sample(fixed(5.0), true, 5, 3));
    assert!(!c.add_sample(fixed(7.0), true, 6, 4));
    assert_eq!((c.min_count, c.max_count), (2, 3));
    assert!(!c.remove_sample(fixed(9.0), true, 5, 3));
    assert!(!c.remove_sample(fixed(9.0), false, 4, 3));
    assert!(!c.remove_sample(fixed(5.0), false, 3, 3));
    assert_eq!((c.min_count, c.max_count), (1, 1));
    // The last largest value goes
    assert!(c.remove_sample(fixed(9.0), true, 2, 2));
    assert_eq!((c.min_count, c.max_count), (1, 0));
}

#[test]
fn a_value_that_is_near_both_ends_counts_at_both() {
    let mut rng = XorShiftRng::seed_from_u64(42);
    let mut c =
        AttributeCandidate::init_from_batch(0, &[(10, true), (12, false)], 1, &mut rng).unwrap();
    assert_eq!((c.min_count, c.max_count), (1, 1));
    assert!(!c.add_sample(11, true, 3, 2));
    assert_eq!((c.min_count, c.max_count), (2, 2));
    assert!(!c.remove_sample(11, true, 2, 1));
    assert_eq!((c.min_count, c.max_count), (1, 1));
    // A new end starts at one, and the other end keeps its count
    assert!(c.add_sample(3, true, 3, 2));
    assert_eq!((c.min_val, c.min_count, c.max_val, c.max_count), (3, 1, 12, 1));
}

#[test]
fn the_seed_decides_the_candidates() {
    let rows: Vec<Row> = (0..40)
        .map(|i| Row { values: (0..4).map(|a| fixed((i * (a + 3)) as f32)).collect(), label: i < 20 })
        .collect();
    let drawn = |seed: u64| {
        let mut stats = AttributeStats::new(4, seed);
        stats.init_from_batch(&rows, 5);
        format!("{:?}", stats.candidates)
    };
    assert_eq!(drawn(11), drawn(11));
    assert_ne!(drawn(11), drawn(12));
}
