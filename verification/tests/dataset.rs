use suda_core::dataset::{ArrayDataset, AttributeType, Dataset};
use suda_core::fixed::ONE;
use suda_core::sample::ArraySample;

fn fixed(x: f32) -> i64 {
    (x as f64 * ONE as f64).round() as i64
}

fn range(low: f32, high: f32) -> (i64, i64) {
    (fixed(low), fixed(high))
}

#[test]
fn test_array_dataset() {
    let dataset = ArrayDataset::new(
        100,
        30,
        vec![range(0.0, 1.0), range(0.0, 10.0)],
        vec![AttributeType::Numerical, AttributeType::Categorical],
    );

    assert_eq!(dataset.num_records(), 100);
    assert_eq!(dataset.num_plus(), 30);
    assert_eq!(dataset.num_minus(), 70);
    assert_eq!(dataset.num_attributes(), 2);
    assert_eq!(dataset.attribute_range(0), range(0.0, 1.0));
    assert_eq!(dataset.attribute_type(1), AttributeType::Categorical);
}

#[test]
fn test_from_samples() {
    let samples = vec![
        ArraySample::new(0, [1.0, 5.0].map(fixed), true),
        ArraySample::new(1, [3.0, 2.0].map(fixed), false),
        ArraySample::new(2, [2.0, 8.0].map(fixed), true),
    ];

    let dataset = ArrayDataset::from_samples(&samples, 2);

    assert_eq!(dataset.num_records(), 3);
    assert_eq!(dataset.num_plus(), 2);
    assert_eq!(dataset.attribute_range(0), range(1.0, 3.0));
    assert_eq!(dataset.attribute_range(1), range(2.0, 8.0));
}

#[test]
fn without_samples_attributes_range_over_the_unit() {
    let none: Vec<ArraySample<2>> = vec![];
    let mut dataset = ArrayDataset::from_samples(&none, 2);
    assert_eq!(dataset.num_records(), 0);
    assert_eq!(dataset.attribute_range(0), range(0.0, 1.0));
    assert_eq!(dataset.attribute_type(1), AttributeType::Numerical);
    dataset.set_attribute_type(1, AttributeType::Categorical);
    assert_eq!(dataset.attribute_type(1), AttributeType::Categorical);
}
