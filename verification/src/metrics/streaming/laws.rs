//! What holds of the measures of predictions.

use super::{
    counted_on, lemma_kappa_sizes, lemma_two_shares, paired, tally, ConfusionMatrix,
    MetricsTracker, StreamingMetrics,
};
use crate::count::{lemma_those, lemma_those_agree, those};
use vstd::prelude::*;

verus! {

/// How many of some predictions were made for a class and were for a class.
pub open spec fn times(list: Seq<(bool, bool)>, actual: bool, predicted: bool) -> int {
    those(list.len() as int, |i: int| list[i] == (actual, predicted)).len() as int
}

/// One prediction more.
proof fn lemma_times(list: Seq<(bool, bool)>, actual: bool, predicted: bool)
    ensures
        0 <= times(list, actual, predicted) <= list.len(),
        list.len() > 0 ==> times(list, actual, predicted) == times(
            list.drop_last(),
            actual,
            predicted,
        ) + (if list.last() == (actual, predicted) {
            1int
        } else {
            0
        }),
{
    let n = list.len() as int;
    let p = |i: int| list[i] == (actual, predicted);
    lemma_those(n, p);
    if n > 0 {
        let before = list.drop_last();
        let q = |i: int| before[i] == (actual, predicted);
        lemma_those_agree(n - 1, p, q);
    }
}

/// Predictions are counted by what they were made for and what they were: negative ones
/// that are right and wrong, and positive ones that are wrong and right.
pub proof fn law_predictions_are_counted(list: Seq<(bool, bool)>)
    requires
        list.len() <= u64::MAX,
    ensures
        tally(list).tn == times(list, false, false),
        tally(list).fp == times(list, false, true),
        tally(list).fn_ == times(list, true, false),
        tally(list).tp == times(list, true, true),
    decreases list.len(),
{
    lemma_times(list, false, false);
    lemma_times(list, false, true);
    lemma_times(list, true, false);
    lemma_times(list, true, true);
    if list.len() > 0 {
        law_predictions_are_counted(list.drop_last());
        lemma_times(list.drop_last(), false, false);
        lemma_times(list.drop_last(), false, true);
        lemma_times(list.drop_last(), true, false);
        lemma_times(list.drop_last(), true, true);
    }
}

/// Predictions that come later are counted on top of the earlier ones.
pub proof fn law_counting_goes_on(m: ConfusionMatrix, list: Seq<(bool, bool)>)
    requires
        m.count() + list.len() <= u64::MAX,
    ensures
        counted_on(m, list).tn == m.tn + times(list, false, false),
        counted_on(m, list).fp == m.fp + times(list, false, true),
        counted_on(m, list).fn_ == m.fn_ + times(list, true, false),
        counted_on(m, list).tp == m.tp + times(list, true, true),
        counted_on(m, list).count() == m.count() + list.len(),
    decreases list.len(),
{
    lemma_times(list, false, false);
    lemma_times(list, false, true);
    lemma_times(list, true, false);
    lemma_times(list, true, true);
    if list.len() > 0 {
        law_counting_goes_on(m, list.drop_last());
    }
}

/// Predictions are paired with the classes in order, up to the shorter one of both lists.
pub proof fn law_pairs_are_in_order(actual: Seq<bool>, predicted: Seq<bool>)
    ensures
        paired(actual, predicted).len() <= actual.len(),
        paired(actual, predicted).len() <= predicted.len(),
        paired(actual, predicted).len() == actual.len() || paired(actual, predicted).len()
            == predicted.len(),
        forall|i: int|
            0 <= i < paired(actual, predicted).len() ==> (#[trigger] paired(actual, predicted)[i]).0
                == actual[i] && paired(actual, predicted)[i].1 == predicted[i],
{
}

/// The measures are what they are called: the accuracy is the share of right predictions,
/// the recall of a class is the share of right ones among those made for it, the precision
/// is that among the positive predictions, the balanced accuracy is the average of both
/// recalls, the squared geometric mean is their product, and the score of both precision
/// and recall counts wrong ones of either sort by half. A share of nothing is one; without
/// predictions the accuracy is zero.
pub proof fn law_measures_are_shares(s: StreamingMetrics, m: ConfusionMatrix)
    requires
        m.wf(),
        s.measures(m),
    ensures
        s.total_samples == m.tp + m.tn + m.fp + m.fn_,
        s.total_samples > 0 ==> s.accuracy.num * s.total_samples == (m.tp + m.tn) * s.accuracy.den,
        s.total_samples == 0 ==> s.accuracy.num == 0,
        s.accuracy.den > 0,
        if m.tp + m.fn_ > 0 {
            s.attack_recall.num * (m.tp + m.fn_) == m.tp * s.attack_recall.den
        } else {
            s.attack_recall.num == s.attack_recall.den
        },
        if m.tn + m.fp > 0 {
            s.benign_recall.num * (m.tn + m.fp) == m.tn * s.benign_recall.den
        } else {
            s.benign_recall.num == s.benign_recall.den
        },
        if m.tp + m.fp > 0 {
            s.precision.num * (m.tp + m.fp) == m.tp * s.precision.den
        } else {
            s.precision.num == s.precision.den
        },
        if m.tp + m.fp + m.fn_ > 0 {
            s.f1_score.num * (2 * m.tp + m.fp + m.fn_) == 2 * m.tp * s.f1_score.den
        } else {
            s.f1_score.num == s.f1_score.den
        },
        s.attack_recall.den > 0,
        s.benign_recall.den > 0,
        s.precision.den > 0,
        s.f1_score.den > 0,
        2 * (s.balanced_accuracy.num * (s.attack_recall.den * s.benign_recall.den))
            == s.balanced_accuracy.den * (s.attack_recall.num * s.benign_recall.den
            + s.benign_recall.num * s.attack_recall.den),
        s.gmean_squared.num * (s.attack_recall.den * s.benign_recall.den) == s.gmean_squared.den * (
        s.attack_recall.num * s.benign_recall.num),
        s.balanced_accuracy.den > 0,
        s.gmean_squared.den > 0,
{
    let a = s.attack_recall;
    let b = s.benign_recall;
    lemma_two_shares(a, b);
    let x = s.accuracy.num as int;
    let y = s.accuracy.den as int;
    assert(x * y == y * x) by (nonlinear_arith);
    let d = a.den * b.den;
    let n = a.num * b.den + b.num * a.den;
    assert(2 * (n * d) == (2 * d) * n) by (nonlinear_arith);
    let g = a.num * b.num;
    assert(g * d == d * g) by (nonlinear_arith);
}

/// The chance-corrected agreement: with no wrong prediction among samples of both classes it
/// is one, and otherwise, unless nearly all agreement is due to chance, it is the agreement
/// less that due to chance, over what chance leaves. What chance brings about is what as
/// many predictions of either class would, made without looking.
pub proof fn law_kappa_is_agreement_beyond_chance(s: StreamingMetrics, m: ConfusionMatrix)
    requires
        m.wf(),
        s.measures(m),
        m.count() > 0,
    ensures
        ({
            let t = m.tp + m.tn + m.fp + m.fn_;
            let chance = (m.tp + m.fn_) * (m.tp + m.fp) + (m.tn + m.fp) * (m.tn + m.fn_);
            let left = t * t - chance;
            &&& left * 10000000000 >= t * t ==> s.kappa.den > 0 && s.kappa.num * left
                == s.kappa.den * ((m.tp + m.tn) * t - chance)
            &&& left * 10000000000 < t * t ==> s.kappa.den == 1 && s.kappa.num == (if (m.fp
                + m.fn_) * 10000000000 < t {
                1int
            } else {
                0
            })
        }),
{
    super::law_kappa_corrects_for_chance(m);
    lemma_kappa_sizes(m.tp as int, m.tn as int, m.fp as int, m.fn_ as int);
    let k = m.disagreement();
    let x = 2 * (m.tp * m.tn - m.fp * m.fn_);
    assert(x * k == k * x) by (nonlinear_arith);
    let t = m.count();
    assert(t * t > 0);
    assert(k * 10000000000 >= t * t ==> k > 0);
}

/// One more prediction ends the latest ones; the first of them goes if there were as many as
/// are kept.
pub proof fn law_latest_ends_with_prediction(t: MetricsTracker, actual: bool, predicted: bool)
    requires
        t.window() > 0,
        t.latest().len() <= t.window(),
    ensures
        t.pushed(actual, predicted).len() <= t.window(),
        t.pushed(actual, predicted).last() == (actual, predicted),
        t.latest().len() < t.window() ==> t.pushed(actual, predicted).drop_last() == t.latest(),
        t.latest().len() == t.window() ==> t.pushed(actual, predicted).drop_last()
            == t.latest().drop_first(),
{
    let all = t.pushed(actual, predicted);
    if t.latest().len() < t.window() {
        assert(all.drop_last() =~= t.latest());
    } else {
        assert(all.drop_last() =~= t.latest().drop_first());
    }
}

/// Current measures are taken from the latest predictions, if any are kept, and from all of
/// them otherwise.
pub proof fn law_current_is_the_latest(t: MetricsTracker)
    requires
        t.latest().len() <= u64::MAX,
    ensures
        t.window() == 0 || t.latest().len() == 0 ==> t.current() == t.all(),
        t.window() > 0 && t.latest().len() > 0 ==> t.current().count() == t.latest().len()
            && t.current().tp == times(t.latest(), true, true) && t.current().tn == times(
            t.latest(),
            false,
            false,
        ),
{
    law_predictions_are_counted(t.latest());
    super::lemma_tally(t.latest());
}

} // verus!
