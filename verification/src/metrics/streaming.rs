//! Counting right and wrong predictions of two classes while they come in.

use crate::fraction::Fraction;
use std::collections::VecDeque;
use vstd::prelude::*;

pub mod laws;

verus! {

/// How often each class was predicted right and wrong.
#[derive(Clone, Copy, Debug, PartialEq, Eq, Structural)]
pub struct ConfusionMatrix {
    /// Negative samples predicted as negative.
    pub tn: u64,
    /// Negative samples predicted as positive.
    pub fp: u64,
    /// Positive samples predicted as negative.
    pub fn_: u64,
    /// Positive samples predicted as positive.
    pub tp: u64,
}

/// A share, which is one where there is nothing to share.
pub open spec fn share_or_one(part: int, whole: int) -> Fraction {
    if whole == 0 {
        Fraction { num: 1, den: 1 }
    } else {
        Fraction { num: part as i128, den: whole as u128 }
    }
}

impl Default for ConfusionMatrix {
    fn default() -> (r: Self)
        ensures
            r == (ConfusionMatrix { tn: 0, fp: 0, fn_: 0, tp: 0 }),
    {
        ConfusionMatrix { tn: 0, fp: 0, fn_: 0, tp: 0 }
    }
}

impl ConfusionMatrix {
    /// The number of predictions.
    pub open spec fn count(&self) -> int {
        self.tn + self.fp + self.fn_ + self.tp
    }

    /// Whether the number of predictions fits.
    pub open spec fn wf(&self) -> bool {
        self.count() <= u64::MAX
    }

    /// The counts with one prediction more.
    pub open spec fn with(&self, actual: bool, predicted: bool) -> ConfusionMatrix {
        match (actual, predicted) {
            (false, false) => ConfusionMatrix { tn: (self.tn + 1) as u64, ..*self },
            (false, true) => ConfusionMatrix { fp: (self.fp + 1) as u64, ..*self },
            (true, false) => ConfusionMatrix { fn_: (self.fn_ + 1) as u64, ..*self },
            (true, true) => ConfusionMatrix { tp: (self.tp + 1) as u64, ..*self },
        }
    }

    /// The count that a prediction belongs to.
    pub open spec fn cell(&self, actual: bool, predicted: bool) -> u64 {
        match (actual, predicted) {
            (false, false) => self.tn,
            (false, true) => self.fp,
            (true, false) => self.fn_,
            (true, true) => self.tp,
        }
    }

    /// The counts with one prediction less; no count goes below zero.
    pub open spec fn without(&self, actual: bool, predicted: bool) -> ConfusionMatrix {
        if self.cell(actual, predicted) == 0 {
            *self
        } else {
            match (actual, predicted) {
                (false, false) => ConfusionMatrix { tn: (self.tn - 1) as u64, ..*self },
                (false, true) => ConfusionMatrix { fp: (self.fp - 1) as u64, ..*self },
                (true, false) => ConfusionMatrix { fn_: (self.fn_ - 1) as u64, ..*self },
                (true, true) => ConfusionMatrix { tp: (self.tp - 1) as u64, ..*self },
            }
        }
    }

    /// The chance-corrected agreement: zero without predictions. Where nearly all
    /// agreement is due to chance, it is one if nearly all predictions are right and zero
    /// otherwise.
    pub open spec fn kappa_of(&self) -> Fraction {
        let t = self.count();
        let chance = self.disagreement();
        if t == 0 {
            Fraction { num: 0, den: 1 }
        } else if chance * NEARLY < t * t {
            if (self.fp + self.fn_) * NEARLY < t {
                Fraction { num: 1, den: 1 }
            } else {
                Fraction { num: 0, den: 1 }
            }
        } else {
            Fraction {
                num: (2 * (self.tp * self.tn - self.fp * self.fn_)) as i128,
                den: chance as u128,
            }
        }
    }

    /// How much disagreement chance brings about, in parts of the square of the number of
    /// predictions.
    pub open spec fn disagreement(&self) -> int {
        (self.tp + self.fp) * (self.fp + self.tn) + (self.tp + self.fn_) * (self.fn_ + self.tn)
    }

    /// How much agreement chance brings about, in parts of the square of the number of
    /// predictions.
    pub open spec fn agreement(&self) -> int {
        (self.tp + self.fn_) * (self.tp + self.fp) + (self.tn + self.fp) * (self.tn + self.fn_)
    }

    /// No predictions.
    pub fn new() -> (r: Self)
        ensures
            r == (ConfusionMatrix { tn: 0, fp: 0, fn_: 0, tp: 0 }),
    {
        ConfusionMatrix { tn: 0, fp: 0, fn_: 0, tp: 0 }
    }

    /// Counts a prediction.
    pub fn update(&mut self, actual: bool, predicted: bool)
        requires
            old(self).cell(actual, predicted) < u64::MAX,
        ensures
            *final(self) == old(self).with(actual, predicted),
    {
        match (actual, predicted) {
            (false, false) => {
                self.tn = self.tn + 1;
            },
            (false, true) => {
                self.fp = self.fp + 1;
            },
            (true, false) => {
                self.fn_ = self.fn_ + 1;
            },
            (true, true) => {
                self.tp = self.tp + 1;
            },
        }
    }

    /// Takes a prediction out of the counts.
    pub fn remove(&mut self, actual: bool, predicted: bool)
        ensures
            *final(self) == old(self).without(actual, predicted),
    {
        match (actual, predicted) {
            (false, false) => {
                self.tn = self.tn.saturating_sub(1);
            },
            (false, true) => {
                self.fp = self.fp.saturating_sub(1);
            },
            (true, false) => {
                self.fn_ = self.fn_.saturating_sub(1);
            },
            (true, true) => {
                self.tp = self.tp.saturating_sub(1);
            },
        }
    }

    /// The number of predictions.
    pub fn total(&self) -> (r: u64)
        requires
            self.wf(),
        ensures
            r == self.count(),
    {
        self.tn + self.fp + self.fn_ + self.tp
    }

    /// The number of positive samples.
    pub fn actual_positive(&self) -> (r: u64)
        requires
            self.tp + self.fn_ <= u64::MAX,
        ensures
            r == self.tp + self.fn_,
    {
        self.tp + self.fn_
    }

    /// The number of negative samples.
    pub fn actual_negative(&self) -> (r: u64)
        requires
            self.tn + self.fp <= u64::MAX,
        ensures
            r == self.tn + self.fp,
    {
        self.tn + self.fp
    }

    /// The share of positive samples that were predicted right.
    pub fn tpr(&self) -> (r: Fraction)
        requires
            self.wf(),
        ensures
            r == share_or_one(self.tp as int, self.tp + self.fn_),
            r.wf(),
    {
        share_of(self.tp, self.tp + self.fn_)
    }

    /// The share of negative samples that were predicted right.
    pub fn tnr(&self) -> (r: Fraction)
        requires
            self.wf(),
        ensures
            r == share_or_one(self.tn as int, self.tn + self.fp),
            r.wf(),
    {
        share_of(self.tn, self.tn + self.fp)
    }

    /// The share of negative samples that were predicted wrong.
    pub fn fpr(&self) -> (r: Fraction)
        requires
            self.wf(),
        ensures
            r == (if self.tn + self.fp == 0 {
                Fraction { num: 0, den: 1 }
            } else {
                Fraction { num: self.fp as i128, den: (self.tn + self.fp) as u128 }
            }),
            r.wf(),
    {
        share_or_none(self.fp, self.tn + self.fp)
    }

    /// The share of positive samples that were predicted wrong.
    pub fn fnr(&self) -> (r: Fraction)
        requires
            self.wf(),
        ensures
            r == (if self.tp + self.fn_ == 0 {
                Fraction { num: 0, den: 1 }
            } else {
                Fraction { num: self.fn_ as i128, den: (self.tp + self.fn_) as u128 }
            }),
            r.wf(),
    {
        share_or_none(self.fn_, self.tp + self.fn_)
    }

    /// The share of positive predictions that are right.
    pub fn precision(&self) -> (r: Fraction)
        requires
            self.wf(),
        ensures
            r == share_or_one(self.tp as int, self.tp + self.fp),
            r.wf(),
    {
        share_of(self.tp, self.tp + self.fp)
    }

    /// The share of predictions that are right; zero without predictions.
    pub fn accuracy(&self) -> (r: Fraction)
        requires
            self.wf(),
        ensures
            r == (if self.count() == 0 {
                Fraction { num: 0, den: 1 }
            } else {
                Fraction { num: (self.tp + self.tn) as i128, den: self.count() as u128 }
            }),
            r.wf(),
    {
        share_or_none(self.tp + self.tn, self.total())
    }

    /// The average of the shares of both classes that were predicted right.
    pub fn balanced_accuracy(&self) -> (r: Fraction)
        requires
            self.wf(),
        ensures
            ({
                let a = share_or_one(self.tp as int, self.tp + self.fn_);
                let b = share_or_one(self.tn as int, self.tn + self.fp);
                r == (Fraction {
                    num: (a.num * b.den + b.num * a.den) as i128,
                    den: (2 * (a.den * b.den)) as u128,
                })
            }),
            r.wf(),
    {
        let a = self.tpr();
        let b = self.tnr();
        proof {
            lemma_two_shares(a, b);
        }
        Fraction {
            num: a.num * b.den as i128 + b.num * a.den as i128,
            den: 2 * (a.den * b.den),
        }
    }

    /// The square of the geometric mean of the shares of both classes that were predicted
    /// right.
    pub fn gmean_squared(&self) -> (r: Fraction)
        requires
            self.wf(),
        ensures
            ({
                let a = share_or_one(self.tp as int, self.tp + self.fn_);
                let b = share_or_one(self.tn as int, self.tn + self.fp);
                r == (Fraction {
                    num: (a.num * b.num) as i128,
                    den: (a.den * b.den) as u128,
                })
            }),
            r.wf(),
    {
        let a = self.tpr();
        let b = self.tnr();
        proof {
            lemma_two_shares(a, b);
        }
        Fraction { num: a.num * b.num, den: a.den * b.den }
    }

    /// The harmonic mean of precision and recall. It is one if no sample is positive and
    /// none was predicted so.
    pub fn f1_score(&self) -> (r: Fraction)
        requires
            self.wf(),
        ensures
            r == (if self.tp + self.fp + self.fn_ == 0 {
                Fraction { num: 1, den: 1 }
            } else {
                Fraction {
                    num: (2 * self.tp) as i128,
                    den: (2 * self.tp + self.fp + self.fn_) as u128,
                }
            }),
            r.wf(),
    {
        if self.tp == 0 && self.fp == 0 && self.fn_ == 0 {
            return Fraction { num: 1, den: 1 };
        }
        Fraction {
            num: 2 * self.tp as i128,
            den: 2 * self.tp as u128 + self.fp as u128 + self.fn_ as u128,
        }
    }

    /// The chance-corrected agreement.
    pub fn kappa(&self) -> (r: Fraction)
        requires
            self.wf(),
        ensures
            r == self.kappa_of(),
            r.wf(),
    {
        let total: u64 = self.total();
        if total == 0 {
            return Fraction { num: 0, den: 1 };
        }
        let t: u128 = total as u128;
        let tp: u128 = self.tp as u128;
        let tn: u128 = self.tn as u128;
        let fp: u128 = self.fp as u128;
        let fn_: u128 = self.fn_ as u128;
        proof {
            lemma_kappa_sizes(tp as int, tn as int, fp as int, fn_ as int);
        }
        let chance: u128 = (tp + fp) * (fp + tn) + (tp + fn_) * (fn_ + tn);
        let limit: u128 = (t * t - 1) / (NEARLY as u128);
        proof {
            lemma_below(chance as int, (t * t) as int, limit as int);
        }
        if chance <= limit {
            let near: u128 = (t - 1) / (NEARLY as u128);
            proof {
                lemma_below((fp + fn_) as int, t as int, near as int);
            }
            if fp + fn_ <= near {
                return Fraction { num: 1, den: 1 };
            } else {
                return Fraction { num: 0, den: 1 };
            }
        }
        let good: i128 = (tp * tn) as i128;
        let bad: i128 = (fp * fn_) as i128;
        Fraction { num: 2 * (good - bad), den: chance }
    }

    /// Adds the counts of another matrix.
    pub fn merge(&mut self, other: &ConfusionMatrix)
        requires
            old(self).tn + other.tn <= u64::MAX,
            old(self).fp + other.fp <= u64::MAX,
            old(self).fn_ + other.fn_ <= u64::MAX,
            old(self).tp + other.tp <= u64::MAX,
        ensures
            final(self).tn == old(self).tn + other.tn,
            final(self).fp == old(self).fp + other.fp,
            final(self).fn_ == old(self).fn_ + other.fn_,
            final(self).tp == old(self).tp + other.tp,
    {
        self.tn = self.tn + other.tn;
        self.fp = self.fp + other.fp;
        self.fn_ = self.fn_ + other.fn_;
        self.tp = self.tp + other.tp;
    }

    /// Forgets all predictions.
    pub fn reset(&mut self)
        ensures
            *final(self) == (ConfusionMatrix { tn: 0, fp: 0, fn_: 0, tp: 0 }),
    {
        self.tn = 0;
        self.fp = 0;
        self.fn_ = 0;
        self.tp = 0;
    }
}

/// A share above one minus one part in so many is nearly one.
pub const NEARLY: u64 = 10000000000;

/// A share, which is one where there is nothing to share.
fn share_of(part: u64, whole: u64) -> (r: Fraction)
    ensures
        r == share_or_one(part as int, whole as int),
        r.wf(),
{
    if whole == 0 {
        Fraction { num: 1, den: 1 }
    } else {
        Fraction { num: part as i128, den: whole as u128 }
    }
}

/// A share, which is zero where there is nothing to share.
fn share_or_none(part: u64, whole: u64) -> (r: Fraction)
    ensures
        r == (if whole == 0 {
            Fraction { num: 0, den: 1 }
        } else {
            Fraction { num: part as i128, den: whole as u128 }
        }),
        r.wf(),
{
    if whole == 0 {
        Fraction { num: 0, den: 1 }
    } else {
        Fraction { num: part as i128, den: whole as u128 }
    }
}

/// A quotient decides whether a multiple is below a bound.
proof fn lemma_below(x: int, bound: int, limit: int)
    requires
        0 <= x,
        bound >= 1,
        limit == (bound - 1) / (NEARLY as int),
    ensures
        (x <= limit) == (x * NEARLY < bound),
{
    vstd::arithmetic::div_mod::lemma_fundamental_div_mod(bound - 1, NEARLY as int);
    let r = (bound - 1) % (NEARLY as int);
    assert(bound - 1 == NEARLY * limit + r);
    if x <= limit {
        assert(x * NEARLY <= NEARLY * limit) by (nonlinear_arith)
            requires
                x <= limit,
        ;
    } else {
        assert(x * NEARLY >= NEARLY * limit + NEARLY) by (nonlinear_arith)
            requires
                x >= limit + 1,
        ;
    }
}

/// The sizes of the numbers that two shares are combined with.
proof fn lemma_two_shares(a: Fraction, b: Fraction)
    requires
        0 <= a.num <= a.den,
        0 <= b.num <= b.den,
        0 < a.den,
        0 < b.den,
        a.den + b.den <= 0x1_0000_0000_0000_0000,
        a.den + b.den <= 0xffff_ffff_ffff_ffff || a.den == 1 || b.den == 1,
    ensures
        0 <= a.num * b.num <= a.den * b.den,
        0 <= a.num * b.den <= a.den * b.den,
        0 <= b.num * a.den <= a.den * b.den,
        0 < a.den * b.den <= 0x8000_0000_0000_0000 * 0x8000_0000_0000_0000,
        a.num * b.den + b.num * a.den <= 0x7fff_ffff_ffff_ffff_ffff_ffff_ffff_ffff,
{
    let x = a.num as int;
    let y = b.num as int;
    let p = a.den as int;
    let q = b.den as int;
    assert(0 <= x * y <= p * q) by (nonlinear_arith)
        requires
            0 <= x <= p,
            0 <= y <= q,
    ;
    assert(0 <= x * q <= p * q) by (nonlinear_arith)
        requires
            0 <= x <= p,
            0 <= q,
    ;
    assert(0 <= y * p <= p * q) by (nonlinear_arith)
        requires
            0 <= y <= q,
            0 <= p,
    ;
    assert(0 < p * q && 4 * (p * q) <= (p + q) * (p + q)) by (nonlinear_arith)
        requires
            0 < p,
            0 < q,
    ;
    if p + q <= 0xffff_ffff_ffff_ffff {
        assert((p + q) * (p + q) <= 0xffff_ffff_ffff_ffff * 0xffff_ffff_ffff_ffff)
            by (nonlinear_arith)
            requires
                0 < p + q <= 0xffff_ffff_ffff_ffff,
        ;
    } else {
        assert(p * q <= 0x1_0000_0000_0000_0000) by (nonlinear_arith)
            requires
                0 < p + q <= 0x1_0000_0000_0000_0000,
                p == 1 || q == 1,
        ;
    }
}

/// The sizes of the numbers that the chance-corrected agreement is made of.
proof fn lemma_kappa_sizes(tp: int, tn: int, fp: int, fn_: int)
    requires
        0 <= tp,
        0 <= tn,
        0 <= fp,
        0 <= fn_,
        tp + tn + fp + fn_ <= u64::MAX,
        tp + tn + fp + fn_ > 0,
    ensures
        ({
            let t = tp + tn + fp + fn_;
            &&& 0 < t * t <= 0xffff_ffff_ffff_ffff * 0xffff_ffff_ffff_ffff
            &&& 0 <= (tp + fp) * (fp + tn) <= t * t
            &&& 0 <= (tp + fn_) * (fn_ + tn) <= t * t
            &&& (tp + fp) * (fp + tn) + (tp + fn_) * (fn_ + tn) <= t * t
            &&& 0 <= tp * tn <= 0x3fff_ffff_ffff_ffff_ffff_ffff_ffff_ffff
            &&& 0 <= fp * fn_ <= 0x3fff_ffff_ffff_ffff_ffff_ffff_ffff_ffff
        }),
{
    let t = tp + tn + fp + fn_;
    assert(0 < t * t <= 0xffff_ffff_ffff_ffff * 0xffff_ffff_ffff_ffff) by (nonlinear_arith)
        requires
            0 < t <= 0xffff_ffff_ffff_ffff,
    ;
    assert(0 <= (tp + fp) * (fp + tn) && 0 <= (tp + fn_) * (fn_ + tn)) by (nonlinear_arith)
        requires
            0 <= tp,
            0 <= tn,
            0 <= fp,
            0 <= fn_,
    ;
    assert((tp + fp) * (fp + tn) + (tp + fn_) * (fn_ + tn) + ((tp + fn_) * (tp + fp) + (tn + fp) * (
    tn + fn_)) == t * t) by (nonlinear_arith)
        requires
            t == tp + tn + fp + fn_,
    ;
    assert(0 <= (tp + fn_) * (tp + fp) + (tn + fp) * (tn + fn_)) by (nonlinear_arith)
        requires
            0 <= tp,
            0 <= tn,
            0 <= fp,
            0 <= fn_,
    ;
    assert(4 * (tp * tn) <= t * t && 4 * (fp * fn_) <= t * t && 0 <= tp * tn && 0 <= fp * fn_)
        by (nonlinear_arith)
        requires
            0 <= tp,
            0 <= tn,
            0 <= fp,
            0 <= fn_,
            t == tp + tn + fp + fn_,
    ;
}

/// Taking out the prediction that was counted last gives the counts back.
pub proof fn law_remove_undoes_update(m: ConfusionMatrix, actual: bool, predicted: bool)
    requires
        m.cell(actual, predicted) < u64::MAX,
    ensures
        m.with(actual, predicted).without(actual, predicted) == m,
        m.with(actual, predicted).count() == m.count() + 1,
{
}

/// The chance-corrected agreement is the observed agreement minus that due to chance, in
/// proportion to what chance leaves: with `t` predictions, `o` of them right, and `e` the
/// agreement due to chance in parts of `t * t`, it is `(o * t - e) / (t * t - e)`.
pub proof fn law_kappa_corrects_for_chance(m: ConfusionMatrix)
    ensures
        ({
            let t = m.count();
            let o = (m.tp + m.tn) * t;
            let e = m.agreement();
            &&& o - e == 2 * (m.tp * m.tn - m.fp * m.fn_)
            &&& t * t - e == m.disagreement()
        }),
{
    let tp = m.tp as int;
    let tn = m.tn as int;
    let fp = m.fp as int;
    let fn_ = m.fn_ as int;
    let t = m.count();
    assert((tp + tn) * t - ((tp + fn_) * (tp + fp) + (tn + fp) * (tn + fn_)) == 2 * (tp * tn - fp
        * fn_)) by (nonlinear_arith)
        requires
            t == tn + fp + fn_ + tp,
    ;
    assert(t * t - ((tp + fn_) * (tp + fp) + (tn + fp) * (tn + fn_)) == (tp + fp) * (fp + tn) + (tp
        + fn_) * (fn_ + tn)) by (nonlinear_arith)
        requires
            t == tn + fp + fn_ + tp,
    ;
}

/// Where there are positive samples and positive predictions, the harmonic mean is twice
/// the product of precision and recall over their sum; both are zero together.
pub proof fn law_f1_is_harmonic(m: ConfusionMatrix)
    requires
        m.tp > 0,
    ensures
        ({
            let p = Fraction { num: m.tp as i128, den: (m.tp + m.fp) as u128 };
            let r = Fraction { num: m.tp as i128, den: (m.tp + m.fn_) as u128 };
            2 * (p.num * r.num) * (2 * m.tp + m.fp + m.fn_) == (2 * m.tp) * (p.num * r.den + r.num
                * p.den)
        }),
{
    let tp = m.tp as int;
    let fp = m.fp as int;
    let fn_ = m.fn_ as int;
    assert(2 * (tp * tp) * (2 * tp + fp + fn_) == (2 * tp) * (tp * (tp + fn_) + tp * (tp + fp)))
        by (nonlinear_arith);
}

/// What predictions are worth.
#[derive(Clone, Copy, Debug)]
pub struct StreamingMetrics {
    pub accuracy: Fraction,
    pub balanced_accuracy: Fraction,
    pub gmean_squared: Fraction,
    pub kappa: Fraction,
    pub attack_recall: Fraction,
    pub benign_recall: Fraction,
    pub precision: Fraction,
    pub f1_score: Fraction,
    pub total_samples: u64,
}

impl StreamingMetrics {
    /// Whether these are the values that counts give.
    pub open spec fn measures(&self, m: ConfusionMatrix) -> bool {
        let a = share_or_one(m.tp as int, m.tp + m.fn_);
        let b = share_or_one(m.tn as int, m.tn + m.fp);
        &&& self.accuracy == (if m.count() == 0 {
            Fraction { num: 0, den: 1 }
        } else {
            Fraction { num: (m.tp + m.tn) as i128, den: m.count() as u128 }
        })
        &&& self.balanced_accuracy == (Fraction {
            num: (a.num * b.den + b.num * a.den) as i128,
            den: (2 * (a.den * b.den)) as u128,
        })
        &&& self.gmean_squared == (Fraction {
            num: (a.num * b.num) as i128,
            den: (a.den * b.den) as u128,
        })
        &&& self.kappa == m.kappa_of()
        &&& self.attack_recall == a
        &&& self.benign_recall == b
        &&& self.precision == share_or_one(m.tp as int, m.tp + m.fp)
        &&& self.f1_score == (if m.tp + m.fp + m.fn_ == 0 {
            Fraction { num: 1, den: 1 }
        } else {
            Fraction { num: (2 * m.tp) as i128, den: (2 * m.tp + m.fp + m.fn_) as u128 }
        })
        &&& self.total_samples == m.count()
    }

    /// The values that counts give.
    pub fn from_confusion(cm: &ConfusionMatrix) -> (r: Self)
        requires
            cm.wf(),
        ensures
            r.measures(*cm),
    {
        StreamingMetrics {
            accuracy: cm.accuracy(),
            balanced_accuracy: cm.balanced_accuracy(),
            gmean_squared: cm.gmean_squared(),
            kappa: cm.kappa(),
            attack_recall: cm.tpr(),
            benign_recall: cm.tnr(),
            precision: cm.precision(),
            f1_score: cm.f1_score(),
            total_samples: cm.total(),
        }
    }

    /// The values that predictions give. Of lists of different lengths the rest of the
    /// longer one is left out.
    pub fn from_predictions(actual: &[bool], predicted: &[bool]) -> (r: Self)
        ensures
            r.measures(tally(paired(actual@, predicted@))),
    {
        let n: usize = if actual.len() <= predicted.len() {
            actual.len()
        } else {
            predicted.len()
        };
        let ghost all = paired(actual@, predicted@);
        let mut cm = ConfusionMatrix::new();
        let mut i: usize = 0;
        assert(all.take(0) =~= Seq::<(bool, bool)>::empty());
        while i < n
            invariant
                i <= n == all.len(),
                n <= actual@.len(),
                n <= predicted@.len(),
                all == paired(actual@, predicted@),
                cm == tally(all.take(i as int)),
            decreases n - i,
        {
            proof {
                lemma_tally(all.take(i as int));
                assert(all.take(i as int + 1).drop_last() =~= all.take(i as int));
            }
            cm.update(actual[i], predicted[i]);
            i = i + 1;
        }
        proof {
            assert(all.take(i as int) =~= all);
            lemma_tally(all);
        }
        Self::from_confusion(&cm)
    }
}

/// Predictions with the classes that they were made for.
pub open spec fn paired(actual: Seq<bool>, predicted: Seq<bool>) -> Seq<(bool, bool)> {
    Seq::new(
        if actual.len() <= predicted.len() {
            actual.len()
        } else {
            predicted.len()
        },
        |i: int| (actual[i], predicted[i]),
    )
}

/// The counts of some predictions.
pub open spec fn tally(list: Seq<(bool, bool)>) -> ConfusionMatrix
    decreases list.len(),
{
    if list.len() == 0 {
        ConfusionMatrix { tn: 0, fp: 0, fn_: 0, tp: 0 }
    } else {
        tally(list.drop_last()).with(list.last().0, list.last().1)
    }
}

/// Each prediction is counted once.
pub proof fn lemma_tally(list: Seq<(bool, bool)>)
    requires
        list.len() <= u64::MAX,
    ensures
        tally(list).count() == list.len(),
    decreases list.len(),
{
    if list.len() > 0 {
        lemma_tally(list.drop_last());
    }
}

/// The first prediction of a list can be taken out of its counts.
proof fn lemma_tally_first(list: Seq<(bool, bool)>)
    requires
        0 < list.len() <= u64::MAX,
    ensures
        tally(list).without(list[0].0, list[0].1) == tally(list.drop_first()),
        tally(list).cell(list[0].0, list[0].1) > 0,
    decreases list.len(),
{
    lemma_tally(list);
    lemma_tally(list.drop_last());
    lemma_tally(list.drop_first());
    if list.len() == 1 {
        assert(list.drop_last() =~= Seq::<(bool, bool)>::empty());
        assert(list.drop_first() =~= Seq::<(bool, bool)>::empty());
    } else {
        let front = list.drop_last();
        lemma_tally_first(front);
        assert(front.drop_first() =~= list.drop_first().drop_last());
        assert(list.drop_first().last() == list.last());
        lemma_tally(front.drop_first());
    }
}

/// Counts of all predictions, and of the latest ones.
pub struct MetricsTracker {
    cumulative: ConfusionMatrix,
    windowed: ConfusionMatrix,
    history: VecDeque<(bool, bool)>,
    window_size: usize,
}

impl MetricsTracker {
    /// The counts of all predictions.
    pub closed spec fn all(&self) -> ConfusionMatrix {
        self.cumulative
    }

    /// The latest predictions.
    pub closed spec fn latest(&self) -> Seq<(bool, bool)> {
        self.history@
    }

    /// How many of the latest predictions are kept; zero stands for none.
    pub closed spec fn window(&self) -> usize {
        self.window_size
    }

    /// Whether no more predictions are kept than asked for, and the counts of the latest
    /// ones are theirs.
    pub closed spec fn wf(&self) -> bool {
        &&& self.cumulative.wf()
        &&& self.history@.len() <= self.window_size
        &&& self.windowed == tally(self.history@)
    }

    /// The counts that current values are taken from: those of the latest predictions if
    /// any are kept.
    pub open spec fn current(&self) -> ConfusionMatrix {
        if self.window() > 0 && self.latest().len() > 0 {
            tally(self.latest())
        } else {
            self.all()
        }
    }

    /// The latest predictions once there is one more.
    pub open spec fn pushed(&self, actual: bool, predicted: bool) -> Seq<(bool, bool)> {
        if self.window() == 0 {
            self.latest()
        } else if self.latest().len() >= self.window() {
            self.latest().drop_first().push((actual, predicted))
        } else {
            self.latest().push((actual, predicted))
        }
    }

    /// A tracker that keeps no latest predictions.
    pub fn new() -> (r: Self)
        ensures
            r.wf(),
            r.all() == (ConfusionMatrix { tn: 0, fp: 0, fn_: 0, tp: 0 }),
            r.latest() == Seq::<(bool, bool)>::empty(),
            r.window() == 0,
    {
        MetricsTracker {
            cumulative: ConfusionMatrix::new(),
            windowed: ConfusionMatrix::new(),
            history: VecDeque::new(),
            window_size: 0,
        }
    }

    /// A tracker that keeps so many of the latest predictions.
    pub fn with_window(window_size: usize) -> (r: Self)
        ensures
            r.wf(),
            r.all() == (ConfusionMatrix { tn: 0, fp: 0, fn_: 0, tp: 0 }),
            r.latest() == Seq::<(bool, bool)>::empty(),
            r.window() == window_size,
    {
        MetricsTracker {
            cumulative: ConfusionMatrix::new(),
            windowed: ConfusionMatrix::new(),
            history: VecDeque::new(),
            window_size,
        }
    }

    /// Counts a prediction. The number of all predictions stops at its upper bound.
    pub fn update(&mut self, actual: bool, predicted: bool)
        requires
            old(self).wf(),
        ensures
            final(self).wf(),
            final(self).window() == old(self).window(),
            final(self).latest() == old(self).pushed(actual, predicted),
            final(self).all() == (if old(self).all().count() < u64::MAX {
                old(self).all().with(actual, predicted)
            } else {
                old(self).all()
            }),
    {
        if self.cumulative.total() < u64::MAX {
            self.cumulative.update(actual, predicted);
        }
        if self.window_size > 0 {
            proof {
                lemma_tally(self.history@);
            }
            if self.history.len() >= self.window_size {
                let ghost before = self.history@;
                proof {
                    lemma_tally_first(before);
                }
                match self.history.pop_front() {
                    Some(oldest) => {
                        self.windowed.remove(oldest.0, oldest.1);
                    },
                    None => {},
                }
                assert(self.history@ =~= before.drop_first());
            }
            proof {
                lemma_tally(self.history@);
            }
            let ghost kept = self.history@;
            self.history.push_back((actual, predicted));
            self.windowed.update(actual, predicted);
            assert(self.history@.drop_last() =~= kept);
        }
    }

    /// Counts predictions one after the other, and gives the current values. Of lists of
    /// different lengths the rest of the longer one is left out.
    pub fn update_batch(&mut self, actual: &[bool], predicted: &[bool]) -> (r: StreamingMetrics)
        requires
            old(self).wf(),
        ensures
            final(self).wf(),
            final(self).window() == old(self).window(),
            final(self).all() == counted_on(old(self).all(), paired(actual@, predicted@)),
            final(self).latest() == kept_on(
                old(self).latest(),
                old(self).window(),
                paired(actual@, predicted@),
            ),
            r.measures(final(self).current()),
    {
        let n: usize = if actual.len() <= predicted.len() {
            actual.len()
        } else {
            predicted.len()
        };
        let ghost pairs = paired(actual@, predicted@);
        let mut i: usize = 0;
        assert(pairs.take(0) =~= Seq::<(bool, bool)>::empty());
        while i < n
            invariant
                i <= n == pairs.len(),
                n <= actual@.len(),
                n <= predicted@.len(),
                pairs == paired(actual@, predicted@),
                self.wf(),
                self.window() == old(self).window(),
                self.all() == counted_on(old(self).all(), pairs.take(i as int)),
                self.latest() == kept_on(old(self).latest(), old(self).window(), pairs.take(i as int)),
            decreases n - i,
        {
            assert(pairs.take(i as int + 1).drop_last() =~= pairs.take(i as int));
            self.update(actual[i], predicted[i]);
            i = i + 1;
        }
        assert(pairs.take(i as int) =~= pairs);
        self.current_metrics()
    }

    /// The values of the latest predictions if any are kept, and of all predictions
    /// otherwise.
    pub fn current_metrics(&self) -> (r: StreamingMetrics)
        requires
            self.wf(),
        ensures
            r.measures(self.current()),
    {
        proof {
            lemma_tally(self.history@);
        }
        if self.window_size > 0 && self.history.len() > 0 {
            StreamingMetrics::from_confusion(&self.windowed)
        } else {
            StreamingMetrics::from_confusion(&self.cumulative)
        }
    }

    /// The values of all predictions.
    pub fn cumulative_metrics(&self) -> (r: StreamingMetrics)
        requires
            self.wf(),
        ensures
            r.measures(self.all()),
    {
        StreamingMetrics::from_confusion(&self.cumulative)
    }

    /// The values of the latest predictions, if any are kept.
    pub fn windowed_metrics(&self) -> (r: Option<StreamingMetrics>)
        requires
            self.wf(),
        ensures
            r is Some <==> self.window() > 0 && self.latest().len() > 0,
            r is Some ==> r->0.measures(tally(self.latest())),
    {
        proof {
            lemma_tally(self.history@);
        }
        if self.window_size > 0 && self.history.len() > 0 {
            Some(StreamingMetrics::from_confusion(&self.windowed))
        } else {
            None
        }
    }

    /// Forgets all predictions.
    pub fn reset(&mut self)
        ensures
            final(self).wf(),
            final(self).window() == old(self).window(),
            final(self).all() == (ConfusionMatrix { tn: 0, fp: 0, fn_: 0, tp: 0 }),
            final(self).latest() == Seq::<(bool, bool)>::empty(),
    {
        self.cumulative.reset();
        self.windowed.reset();
        self.history.clear();
    }

    /// The number of all predictions.
    pub fn total_samples(&self) -> (r: u64)
        requires
            self.wf(),
        ensures
            r == self.all().count(),
    {
        self.cumulative.total()
    }

    /// The number of latest predictions that are kept.
    pub fn window_samples(&self) -> (r: usize)
        requires
            self.wf(),
        ensures
            r == self.latest().len(),
    {
        self.history.len()
    }

    /// The counts of all predictions.
    pub fn confusion_matrix(&self) -> (r: &ConfusionMatrix)
        ensures
            *r == self.all(),
    {
        &self.cumulative
    }

    /// The counts of the latest predictions, if any are to be kept.
    pub fn windowed_confusion_matrix(&self) -> (r: Option<&ConfusionMatrix>)
        requires
            self.wf(),
        ensures
            r is Some <==> self.window() > 0,
            r is Some ==> *(r->0) == tally(self.latest()),
    {
        if self.window_size > 0 {
            Some(&self.windowed)
        } else {
            None
        }
    }
}

impl Default for MetricsTracker {
    fn default() -> (r: Self)
        ensures
            r.wf(),
            r.all() == (ConfusionMatrix { tn: 0, fp: 0, fn_: 0, tp: 0 }),
            r.latest() == Seq::<(bool, bool)>::empty(),
            r.window() == 0,
    {
        MetricsTracker::new()
    }
}

/// Counts after more predictions, which stop at their upper bound.
pub open spec fn counted_on(m: ConfusionMatrix, list: Seq<(bool, bool)>) -> ConfusionMatrix
    decreases list.len(),
{
    if list.len() == 0 {
        m
    } else {
        let before = counted_on(m, list.drop_last());
        if before.count() < u64::MAX {
            before.with(list.last().0, list.last().1)
        } else {
            before
        }
    }
}

/// The latest predictions after more of them.
pub open spec fn kept_on(kept: Seq<(bool, bool)>, window: usize, list: Seq<(bool, bool)>) -> Seq<
    (bool, bool),
>
    decreases list.len(),
{
    if list.len() == 0 {
        kept
    } else {
        let before = kept_on(kept, window, list.drop_last());
        if window == 0 {
            before
        } else if before.len() >= window {
            before.drop_first().push(list.last())
        } else {
            before.push(list.last())
        }
    }
}

/// What is kept is the end of all predictions that were made: at most as many as asked
/// for, and all of them while there are not more.
pub proof fn law_window_is_the_latest(
    kept: Seq<(bool, bool)>,
    window: usize,
    list: Seq<(bool, bool)>,
)
    requires
        window > 0,
        kept.len() <= window,
    ensures
        ({
            let all = kept + list;
            let n = if all.len() <= window {
                all.len() as int
            } else {
                window as int
            };
            kept_on(kept, window, list) == all.skip(all.len() - n)
        }),
    decreases list.len(),
{
    let all = kept + list;
    if list.len() == 0 {
        assert(all.skip(0) =~= kept);
    } else {
        law_window_is_the_latest(kept, window, list.drop_last());
        let front = kept + list.drop_last();
        assert(all =~= front.push(list.last()));
        if front.len() < window {
            assert(front.skip(0) =~= front);
            assert(all.skip(0) =~= all);
        } else {
            let cut = front.skip(front.len() - window);
            assert(cut.len() == window);
            assert(cut.drop_first().push(list.last()) =~= all.skip(all.len() - window));
        }
    }
}

} // verus!
