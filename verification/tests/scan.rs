use suda_core::fixed::ONE;
use suda_core::sample::{ArraySample, Sample};
use suda_core::scan::{
    partition_in_place, partition_indices, scan, scan_auto, scan_branchless, scan_refs,
};
use suda_core::split::Split;

fn fixed(x: f32) -> i64 {
    (x as f64 * ONE as f64).round() as i64
}

fn make_samples() -> Vec<ArraySample<2>> {
    vec![
        ArraySample::new(0, [1.0, 5.0].map(fixed), true),  // left, positive
        ArraySample::new(1, [2.0, 3.0].map(fixed), false), // left, negative
        ArraySample::new(2, [8.0, 7.0].map(fixed), true),  // right, positive
        ArraySample::new(3, [9.0, 2.0].map(fixed), false), // right, negative
        ArraySample::new(4, [3.0, 6.0].map(fixed), true),  // left, positive
        ArraySample::new(5, [7.0, 1.0].map(fixed), false), // right, negative
    ]
}

#[test]
fn test_scan() {
    let samples = make_samples();
    let split = Split::numerical(0, fixed(5.0));

    let stats = scan(&samples, &split);

    assert_eq!(stats.num_plus_left, 2); // samples 0, 4
    assert_eq!(stats.num_minus_left, 1); // sample 1
    assert_eq!(stats.num_plus_right, 1); // sample 2
    assert_eq!(stats.num_minus_right, 2); // samples 3, 5
}

#[test]
fn test_scan_branchless() {
    let samples = make_samples();
    let split = Split::numerical(0, fixed(5.0));

    let stats = scan_branchless(&samples, &split);

    assert_eq!(stats.num_plus_left, 2);
    assert_eq!(stats.num_minus_left, 1);
    assert_eq!(stats.num_plus_right, 1);
    assert_eq!(stats.num_minus_right, 2);
}

#[test]
fn test_partition_in_place() {
    let mut samples = make_samples();
    let split = Split::numerical(0, fixed(5.0));

    let split_idx = partition_in_place(&mut samples, &split);

    assert_eq!(split_idx, 3);

    for s in &samples[..split_idx] {
        assert!(s.is_left_of(&split));
    }
    for s in &samples[split_idx..] {
        assert!(!s.is_left_of(&split));
    }
}

#[test]
fn every_way_of_counting_agrees() {
    let samples = make_samples();
    let refs: Vec<&ArraySample<2>> = samples.iter().collect();
    for threshold in [0.0, 2.0, 5.0, 7.5, 9.0, 20.0] {
        for attribute in [0, 1] {
            let split = Split::numerical(attribute, fixed(threshold));
            let a = scan(&samples, &split);
            for b in [
                scan_branchless(&samples, &split),
                scan_auto(&samples, &split),
                scan_refs(&refs, &split),
            ] {
                assert_eq!(a.num_plus_left, b.num_plus_left);
                assert_eq!(a.num_minus_left, b.num_minus_left);
                assert_eq!(a.num_plus_right, b.num_plus_right);
                assert_eq!(a.num_minus_right, b.num_minus_right);
            }
        }
    }
}

#[test]
fn indices_keep_their_order() {
    let samples = make_samples();
    let refs: Vec<&ArraySample<2>> = samples.iter().collect();
    let (left, right) = partition_indices(&refs, &Split::numerical(0, fixed(5.0)));
    assert_eq!(left, vec![0, 1, 4]);
    assert_eq!(right, vec![2, 3, 5]);
}

#[test]
fn a_partition_keeps_every_sample() {
    let mut samples = make_samples();
    let n = partition_in_place(&mut samples, &Split::numerical(1, fixed(5.0)));
    assert_eq!(n, 4);
    let mut ids: Vec<u64> = samples.iter().map(|s| s.id()).collect();
    ids.sort();
    assert_eq!(ids, vec![0, 1, 2, 3, 4, 5]);
}

#[test]
fn samples_that_go_left_keep_their_order() {
    let mut samples = make_samples();
    let n = partition_in_place(&mut samples, &Split::numerical(0, fixed(5.0)));
    let left: Vec<u64> = samples[..n].iter().map(|s| s.id()).collect();
    assert_eq!(left, vec![0, 1, 4]);
}
