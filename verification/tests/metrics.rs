use suda_core::fraction::Fraction;
use suda_core::metrics::{ConfusionMatrix, MetricsTracker, StreamingMetrics};

#[test]
fn test_confusion_matrix_basic() {
    let mut cm = ConfusionMatrix::new();
    assert_eq!(cm.total(), 0);

    cm.update(false, false);
    cm.update(false, true);
    cm.update(true, false);
    cm.update(true, true);

    assert_eq!(cm.tn, 1);
    assert_eq!(cm.fp, 1);
    assert_eq!(cm.fn_, 1);
    assert_eq!(cm.tp, 1);
    assert_eq!(cm.total(), 4);
}

#[test]
fn test_confusion_matrix_remove() {
    let mut cm = ConfusionMatrix::new();

    cm.update(true, true);
    cm.update(false, false);
    assert_eq!(cm.total(), 2);

    cm.remove(true, true);
    assert_eq!(cm.tp, 0);
    assert_eq!(cm.total(), 1);
}

fn value(f: Fraction) -> f64 {
    f.num as f64 / f.den as f64
}

fn gmean(cm: &ConfusionMatrix) -> f64 {
    value(cm.gmean_squared()).sqrt()
}

fn close(a: f64, b: f64) -> bool {
    (a - b).abs() < 1e-10
}

#[test]
fn test_confusion_matrix_rates() {
    let mut cm = ConfusionMatrix::new();

    // 100 of each class: 80 TN, 20 FP; 30 FN, 70 TP
    cm.tn = 80;
    cm.fp = 20;
    cm.fn_ = 30;
    cm.tp = 70;

    assert!((value(cm.tpr()) - 0.70).abs() < 1e-10);
    assert!((value(cm.tnr()) - 0.80).abs() < 1e-10);
    assert!((value(cm.accuracy()) - 0.75).abs() < 1e-10);
    assert!((value(cm.balanced_accuracy()) - 0.75).abs() < 1e-10);
}

#[test]
fn test_gmean() {
    let mut cm = ConfusionMatrix::new();

    // Always right
    cm.tn = 100;
    cm.tp = 100;
    cm.fp = 0;
    cm.fn_ = 0;
    assert!((gmean(&cm) - 1.0).abs() < 1e-10);

    // Always negative
    cm.tn = 100;
    cm.fp = 0;
    cm.fn_ = 100;
    cm.tp = 0;
    assert_eq!(gmean(&cm), 0.0);

    // Equally good on both classes
    cm.tn = 80;
    cm.fp = 20;
    cm.fn_ = 20;
    cm.tp = 80;
    let expected = (0.8f64 * 0.8f64).sqrt();
    assert!((gmean(&cm) - expected).abs() < 1e-10);
}

#[test]
fn test_kappa() {
    let mut cm = ConfusionMatrix::new();

    cm.tn = 100;
    cm.tp = 100;
    cm.fp = 0;
    cm.fn_ = 0;
    assert!((value(cm.kappa()) - 1.0).abs() < 1e-10);

    // No better than chance
    cm.tn = 50;
    cm.fp = 50;
    cm.fn_ = 50;
    cm.tp = 50;
    assert!(value(cm.kappa()).abs() < 0.1);

    cm.tn = 85;
    cm.fp = 15;
    cm.fn_ = 10;
    cm.tp = 90;
    assert!(value(cm.kappa()) > 0.7);
}

#[test]
fn test_imbalanced_scenario() {
    let mut cm = ConfusionMatrix::new();

    // Always negative, where one in a hundred is positive
    cm.tn = 9900;
    cm.fp = 0;
    cm.fn_ = 100;
    cm.tp = 0;

    assert!((value(cm.accuracy()) - 0.99).abs() < 1e-10);
    assert_eq!(value(cm.tpr()), 0.0);
    assert_eq!(gmean(&cm), 0.0);

    cm.tn = 9850;
    cm.fp = 50;
    cm.fn_ = 20;
    cm.tp = 80;

    assert!(value(cm.accuracy()) > 0.99);
    assert!((value(cm.tpr()) - 0.80).abs() < 1e-10);
    assert!(gmean(&cm) > 0.88);
}

#[test]
fn test_metrics_tracker_cumulative() {
    let mut tracker = MetricsTracker::new();

    for _ in 0..100 {
        tracker.update(false, false);
    }
    for _ in 0..50 {
        tracker.update(true, true);
    }

    let metrics = tracker.current_metrics();
    assert_eq!(metrics.total_samples, 150);
    assert!((value(metrics.accuracy) - 1.0).abs() < 1e-10);
    assert!((value(metrics.gmean_squared).sqrt() - 1.0).abs() < 1e-10);
}

#[test]
fn test_metrics_tracker_windowed() {
    let mut tracker = MetricsTracker::with_window(100);

    for _ in 0..100 {
        tracker.update(false, false);
    }

    let metrics = tracker.current_metrics();
    assert_eq!(metrics.total_samples, 100);

    // Now always wrong
    for _ in 0..100 {
        tracker.update(false, true);
    }

    let windowed = tracker.windowed_metrics().unwrap();
    assert_eq!(windowed.total_samples, 100);
    assert!((value(windowed.accuracy) - 0.0).abs() < 1e-10);

    let cumulative = tracker.cumulative_metrics();
    assert_eq!(cumulative.total_samples, 200);
    assert!((value(cumulative.accuracy) - 0.5).abs() < 1e-10);
}

#[test]
fn test_streaming_metrics_from_predictions() {
    let actual = vec![false, false, true, true, false];
    let predicted = vec![false, true, true, false, false];

    let metrics = StreamingMetrics::from_predictions(&actual, &predicted);

    assert_eq!(metrics.total_samples, 5);
    assert!((value(metrics.accuracy) - 0.6).abs() < 1e-10);
}

#[test]
fn rates_are_exact_fractions() {
    let mut cm = ConfusionMatrix::new();
    cm.tn = 85;
    cm.fp = 15;
    cm.fn_ = 10;
    cm.tp = 90;
    assert!(close(value(cm.precision()), 90.0 / 105.0));
    assert!(close(value(cm.fpr()), 0.15));
    assert!(close(value(cm.fnr()), 0.10));
    assert!(close(value(cm.f1_score()), 2.0 * 90.0 / (2.0 * 90.0 + 15.0 + 10.0)));
    // Observed agreement 175/200, agreement by chance 1/2
    assert!(close(value(cm.kappa()), (0.875 - 0.5) / 0.5));
}

#[test]
fn f1_is_the_harmonic_mean() {
    let mut cm = ConfusionMatrix::new();
    cm.tn = 3;
    cm.fp = 5;
    cm.fn_ = 2;
    cm.tp = 7;
    let p = value(cm.precision());
    let r = value(cm.tpr());
    assert!(close(value(cm.f1_score()), 2.0 * p * r / (p + r)));
}

#[test]
fn removing_undoes_updating() {
    let mut cm = ConfusionMatrix::new();
    cm.update(true, false);
    cm.update(false, true);
    let before = cm;
    cm.update(true, true);
    cm.remove(true, true);
    assert_eq!((cm.tn, cm.fp, cm.fn_, cm.tp), (before.tn, before.fp, before.fn_, before.tp));
}

#[test]
fn removing_what_is_not_there_changes_nothing() {
    let mut cm = ConfusionMatrix::new();
    cm.update(true, true);
    cm.remove(false, false);
    assert_eq!((cm.tn, cm.fp, cm.fn_, cm.tp), (0, 0, 0, 1));
}

#[test]
fn matrices_add_up() {
    let mut a = ConfusionMatrix::new();
    a.tp = 4;
    a.fn_ = 1;
    let mut b = ConfusionMatrix::new();
    b.tp = 2;
    b.tn = 3;
    a.merge(&b);
    assert_eq!((a.tn, a.fp, a.fn_, a.tp), (3, 0, 1, 6));
    a.reset();
    assert_eq!(a.total(), 0);
}

#[test]
fn the_window_holds_the_latest_predictions() {
    let mut tracker = MetricsTracker::with_window(3);
    let predictions = [true, true, false, true, false];
    for p in predictions {
        tracker.update(true, p);
    }
    let cm = tracker.windowed_confusion_matrix().unwrap();
    assert_eq!((cm.tp, cm.fn_), (1, 2));
    assert_eq!(tracker.window_samples(), 3);
    assert_eq!(tracker.total_samples(), 5);
    assert!(MetricsTracker::new().windowed_metrics().is_none());
}

#[test]
fn classes_are_counted() {
    let mut tracker = MetricsTracker::new();
    for (actual, predicted) in [(true, true), (true, false), (false, false)] {
        tracker.update(actual, predicted);
    }
    let cm = tracker.confusion_matrix();
    assert_eq!(cm.actual_positive(), 2);
    assert_eq!(cm.actual_negative(), 1);
}
