use suda_core::fraction::Fraction;
use suda_core::split_stats::{gini_impurity, has_risen, SplitStats};

fn value(f: Fraction) -> f64 {
    f.num as f64 / f.den as f64
}

#[test]
fn test_gini_impurity() {
    // One class only
    assert_eq!(value(gini_impurity(0, 100)), 0.0);
    assert_eq!(value(gini_impurity(100, 100)), 0.0);

    // Both classes alike
    let impurity = value(gini_impurity(50, 100));
    assert!((impurity - 0.5).abs() < 1e-10);

    // A quarter positive
    let impurity = value(gini_impurity(25, 100));
    assert!((impurity - 0.375).abs() < 1e-10);
}

#[test]
fn test_split_stats() {
    let mut stats = SplitStats::new(10, 40, 30, 20);

    // 40 positive samples out of 100
    let impurity_before = gini_impurity(40, 100);
    stats.update_score(impurity_before);

    assert!(stats.has_positive_score());
    assert!(stats.is_valid());
    assert_eq!(stats.num_left(), 50);
    assert_eq!(stats.num_right(), 50);
}

#[test]
fn test_invalid_split() {
    let mut stats = SplitStats::new(0, 0, 50, 50);
    stats.update_score_with_impurity();

    assert!(!stats.has_positive_score());
    assert!(!stats.is_valid());
}

#[test]
fn the_score_is_the_gain_in_parts_of_a_billionth() {
    // Before: 0.48. After: half of 0.32 and half of 0.48.
    let mut stats = SplitStats::new(10, 40, 30, 20);
    stats.update_score(gini_impurity(40, 100));
    assert_eq!(stats.score, Some(80_000_000_000));
    assert_eq!(stats.num_total(), 100);
    assert_eq!(stats.num_plus(), 40);
}

#[test]
fn a_better_split_compares_greater() {
    let mut a = SplitStats::new(50, 0, 0, 50);
    a.update_score_with_impurity();
    let mut b = SplitStats::new(30, 20, 20, 30);
    b.update_score_with_impurity();
    assert!(b < a);
    assert!(a != b);
    assert!(!SplitStats::empty().has_positive_score());
}

#[test]
fn a_split_never_makes_things_worse() {
    for (a, b, c, d) in [(1, 1, 1, 1), (5, 3, 2, 9), (0, 4, 7, 1), (100, 1, 1, 100)] {
        let mut stats = SplitStats::new(a, b, c, d);
        stats.update_score_with_impurity();
        assert!(stats.score.unwrap() >= 0);
    }
}

#[test]
fn a_rise_is_told_exactly() {
    let half = Fraction { num: 1, den: 2 };
    let third = Fraction { num: 1, den: 3 };
    // The difference is a sixth
    assert!(has_risen(half, third, 166_666_666));
    assert!(!has_risen(half, third, 166_666_667));
    assert!(!has_risen(third, half, 0));
    assert!(!has_risen(half, half, 0));
    assert!(has_risen(half, half, -1));
}

#[test]
fn counts_can_be_written_down() {
    assert_eq!(SplitStats::new(10, 0, 305, 4_294_967).fmt(), "(+L:10, -L:0, +R:305, -R:4294967)");
}
