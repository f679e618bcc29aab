use suda_core::fixed::ONE;
use suda_core::split::Split;

fn fixed(x: f32) -> i64 {
    (x as f64 * ONE as f64).round() as i64
}

#[test]
fn split_test_numerical_split() {
    let split = Split::numerical(0, fixed(5.0));
    assert!(split.goes_left(fixed(4.0)));
    assert!(split.goes_left(fixed(5.0))); // on the threshold: left
    assert!(!split.goes_left(fixed(6.0)));
}

#[test]
fn test_boundary_value_routes_left_matching_stats() {
    let split = Split::numerical(0, fixed(5.0));
    assert!(
        split.goes_left(fixed(5.0)),
        "a value on the threshold goes left"
    );
    assert!(split.goes_left(fixed(4.99)));
    assert!(!split.goes_left(fixed(5.01)));
}

#[test]
fn split_test_categorical_split() {
    // The subset has the categories 0, 2 and 3
    let split = Split::categorical(1, 0b1101);
    assert!(split.goes_left(fixed(0.0)));
    assert!(!split.goes_left(fixed(1.0)));
    assert!(split.goes_left(fixed(2.0)));
    assert!(split.goes_left(fixed(3.0)));
    assert!(!split.goes_left(fixed(4.0)));
}

#[test]
fn a_split_knows_its_attribute() {
    assert_eq!(Split::numerical(7, 0).attribute_index(), 7);
    assert_eq!(Split::categorical(3, 1).attribute_index(), 3);
}

#[test]
fn a_split_can_be_written_down() {
    assert_eq!(Split::numerical(0, fixed(5.0)).to_text(), "X[0] < 5.0000");
    assert_eq!(Split::numerical(12, fixed(-0.5)).to_text(), "X[12] < -0.5000");
    assert_eq!(Split::numerical(3, 1).to_text(), "X[3] < 0.0000");
    assert_eq!(Split::categorical(200, 0b1101).to_text(), "X[200] in 1101");
    assert_eq!(Split::categorical(1, 0).to_text(), "X[1] in 0");
    // As floating-point numbers are written
    for x in [0.1f32, 2.71828, -3.14159, 1234.56789, 0.03125, 0.25, 99999.99] {
        assert_eq!(Split::numerical(7, fixed(x)).to_text(), format!("X[7] < {:.4}", x));
    }
}
