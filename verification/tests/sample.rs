use suda_core::fixed::ONE;
use suda_core::sample::{ArraySample, RefSample, Sample, VecSample};
use suda_core::split::Split;

/// A number in ticks.
fn fixed(x: f32) -> i64 {
    (x as f64 * ONE as f64).round() as i64
}

#[test]
fn test_array_sample() {
    let sample = ArraySample::new(42, [1.0, 2.0, 3.0].map(fixed), true);
    assert_eq!(sample.id(), 42);
    assert_eq!(sample.attribute_value(0), fixed(1.0));
    assert_eq!(sample.attribute_value(1), fixed(2.0));
    assert_eq!(sample.attribute_value(2), fixed(3.0));
    assert!(sample.label());
}

#[test]
fn test_vec_sample() {
    let sample = VecSample::new(1, vec![fixed(0.5), fixed(1.5), fixed(2.5)], false);
    assert_eq!(sample.id(), 1);
    assert_eq!(sample.attribute_value(2), fixed(2.5));
    assert!(!sample.label());
}

#[test]
fn test_is_left_of() {
    let sample = ArraySample::new(1, [5.0, 10.0].map(fixed), true);

    let split = Split::numerical(0, fixed(6.0));
    assert!(sample.is_left_of(&split)); // 5.0 < 6.0

    let split = Split::numerical(0, fixed(4.0));
    assert!(!sample.is_left_of(&split)); // 5.0 >= 4.0
}

#[test]
fn a_borrowed_sample_reads_like_an_owned_one() {
    let row = [fixed(0.25), fixed(-3.0)];
    let sample = RefSample::new(9, &row, true);
    assert_eq!(sample.id(), 9);
    assert_eq!(sample.attribute_value(1), fixed(-3.0));
    assert!(sample.label());
    assert!(sample.is_left_of(&Split::numerical(1, fixed(-3.0))));
}
