//! Split statistics that follow a node while samples come and go.

pub mod columns;
pub mod laws;

use crate::fixed::{distance, is_apart, is_near, near, EPSILON};
use crate::fraction::Fraction;
use crate::node::{lower, lowered, raise, raised};
use crate::draw::{ask_attributes, asks_attributes, chosen, is_choice, places};
use crate::random::{ask_value, generator, put_since, seeded, Inquiry, Question};
use rand_xorshift::XorShiftRng;
use vstd::multiset::Multiset;
use vstd::prelude::*;

verus! {

/// How many attributes a node keeps candidates for.
pub const P_COUNT: usize = 10;

/// How many thresholds a candidate keeps.
pub const P_TRIES: usize = 10;

/// The weighted impurity of two sides; there is none if a side is empty.
pub open spec fn score_of(ls_s: int, ls_1: int, rs_s: int, rs_1: int) -> Option<Fraction> {
    if ls_s == 0 || rs_s == 0 {
        None
    } else {
        Some(
            Fraction {
                num: ((ls_s - ls_1) * ls_1 * rs_s + (rs_s - rs_1) * rs_1 * ls_s) as i128,
                den: (ls_s * rs_s * (ls_s + rs_s)) as u128,
            },
        )
    }
}

/// Whether a score is lower than another; a missing score is above every other.
pub open spec fn better(a: Option<Fraction>, b: Option<Fraction>) -> bool {
    match (a, b) {
        (Some(x), Some(y)) => x.below(&y),
        (Some(_), None) => true,
        (None, _) => false,
    }
}

/// Whether a score, where there is one, has a positive denominator.
pub open spec fn score_wf(a: Option<Fraction>) -> bool {
    a is Some ==> a->0.wf()
}

/// Computes the weighted impurity of two sides. Lower is better.
pub fn calc_score(ls_s: u32, ls_1: u32, rs_s: u32, rs_1: u32) -> (r: Option<Fraction>)
    ensures
        r == score_of(ls_s as int, ls_1 as int, rs_s as int, rs_1 as int),
        score_wf(r),
{
    if ls_s == 0 || rs_s == 0 {
        return None;
    }
    let a: i128 = ls_s as i128;
    let b: i128 = ls_1 as i128;
    let c: i128 = rs_s as i128;
    let d: i128 = rs_1 as i128;
    proof {
        lemma_score_sizes(a as int, b as int, c as int);
        lemma_score_sizes(c as int, d as int, a as int);
        assert(0 < a * c <= 0xffff_ffff * 0xffff_ffff) by (nonlinear_arith)
            requires
                0 < a <= 0xffff_ffff,
                0 < c <= 0xffff_ffff,
        ;
        assert(0 < a * c * (a + c) <= 0xffff_ffff * 0xffff_ffff * 0x1_ffff_fffe)
            by (nonlinear_arith)
            requires
                0 < a * c <= 0xffff_ffff * 0xffff_ffff,
                0 < a + c <= 0x1_ffff_fffe,
        ;
    }
    let num: i128 = (a - b) * b * c + (c - d) * d * a;
    let den: u128 = (a * c * (a + c)) as u128;
    Some(Fraction { num, den })
}

/// The sizes of the numbers that a score is made of.
proof fn lemma_score_sizes(s: int, p: int, o: int)
    requires
        0 <= s <= 0xffff_ffff,
        0 <= p <= 0xffff_ffff,
        0 <= o <= 0xffff_ffff,
    ensures
        -0xffff_ffff * 0xffff_ffff <= (s - p) * p <= 0xffff_ffff * 0xffff_ffff,
        -0xffff_ffff * 0xffff_ffff * 0xffff_ffff <= (s - p) * p * o <= 0xffff_ffff * 0xffff_ffff
            * 0xffff_ffff,
{
    let x = (s - p) * p;
    assert(-0xffff_ffff * 0xffff_ffff <= x <= 0xffff_ffff * 0xffff_ffff) by (nonlinear_arith)
        requires
            x == (s - p) * p,
            0 <= s <= 0xffff_ffff,
            0 <= p <= 0xffff_ffff,
    ;
    assert(-0xffff_ffff * 0xffff_ffff * 0xffff_ffff <= x * o <= 0xffff_ffff * 0xffff_ffff
        * 0xffff_ffff) by (nonlinear_arith)
        requires
            -0xffff_ffff * 0xffff_ffff <= x <= 0xffff_ffff * 0xffff_ffff,
            0 <= o <= 0xffff_ffff,
    ;
}

/// Tells whether a score is lower than another.
pub fn is_better(a: Option<Fraction>, b: Option<Fraction>) -> (r: bool)
    requires
        score_wf(a),
        score_wf(b),
    ensures
        r == better(a, b),
{
    match (a, b) {
        (Some(x), Some(y)) => x.is_below(&y),
        (Some(_), None) => true,
        (None, _) => false,
    }
}

/// A threshold, with the counts of the samples up to it.
#[derive(Clone, Copy, Debug)]
pub struct ThresholdCandidate {
    pub threshold: i64,
    /// The samples up to the threshold.
    pub left_count: u32,
    /// The positive ones among them.
    pub left_positive: u32,
}

impl ThresholdCandidate {
    /// The score of the split at the threshold in a node with so many samples. A side
    /// that would have fewer than no samples counts as empty.
    pub open spec fn scored(&self, total_samples: u32, total_positive: u32) -> Option<Fraction> {
        score_of(
            self.left_count as int,
            self.left_positive as int,
            if self.left_count <= total_samples {
                total_samples - self.left_count
            } else {
                0
            },
            if self.left_positive <= total_positive {
                total_positive - self.left_positive
            } else {
                0
            },
        )
    }

    /// The counts after a sample has come.
    pub open spec fn with_sample(&self, value: i64, label: bool) -> ThresholdCandidate {
        ThresholdCandidate {
            threshold: self.threshold,
            left_count: raised(self.left_count, value <= self.threshold),
            left_positive: raised(self.left_positive, value <= self.threshold && label),
        }
    }

    /// The counts after a sample has gone.
    pub open spec fn without_sample(&self, value: i64, label: bool) -> ThresholdCandidate {
        ThresholdCandidate {
            threshold: self.threshold,
            left_count: lowered(self.left_count, value <= self.threshold),
            left_positive: lowered(self.left_positive, value <= self.threshold && label),
        }
    }

    /// A threshold with its counts.
    pub fn new(threshold: i64, left_count: u32, left_positive: u32) -> (r: Self)
        ensures
            r == (ThresholdCandidate { threshold, left_count, left_positive }),
    {
        ThresholdCandidate { threshold, left_count, left_positive }
    }

    /// Computes the score of the split at the threshold.
    pub fn score(&self, total_samples: u32, total_positive: u32) -> (r: Option<Fraction>)
        ensures
            r == self.scored(total_samples, total_positive),
            score_wf(r),
    {
        let rs_s: u32 = total_samples.saturating_sub(self.left_count);
        let rs_1: u32 = total_positive.saturating_sub(self.left_positive);
        calc_score(self.left_count, self.left_positive, rs_s, rs_1)
    }
}

/// The best of the first thresholds: the lowest score, and the first threshold that
/// has it. Where no threshold has a score, a given threshold stands.
pub open spec fn best_upto(
    c: Seq<ThresholdCandidate>,
    n: int,
    total_samples: u32,
    total_positive: u32,
    initial: i64,
) -> (Option<Fraction>, i64)
    decreases n,
{
    if n <= 0 {
        (None, initial)
    } else {
        let best = best_upto(c, n - 1, total_samples, total_positive, initial);
        let score = c[n - 1].scored(total_samples, total_positive);
        if better(score, best.0) {
            (score, c[n - 1].threshold)
        } else {
            best
        }
    }
}

/// A column of values, each with the class of its sample.
pub type Column = Seq<(i64, bool)>;

/// The smallest and the largest value, each with how many values are equal to it up to
/// rounding.
pub struct Extent {
    pub min_val: i64,
    pub min_count: u32,
    pub max_val: i64,
    pub max_count: u32,
}

impl Extent {
    /// What one value more does to the extent. A value beyond an end is the new end, with
    /// a count of one, and the other end keeps its count. A value between counts at each
    /// end that it is equal to up to rounding.
    pub open spec fn with(&self, v: i64) -> Extent {
        if v < self.min_val {
            Extent { min_val: v, min_count: 1, ..*self }
        } else if v > self.max_val {
            Extent { max_val: v, max_count: 1, ..*self }
        } else {
            Extent {
                min_count: raised(self.min_count, near(v, self.min_val)),
                max_count: raised(self.max_count, near(v, self.max_val)),
                ..*self
            }
        }
    }

    /// What one value less does to the extent: it leaves the count of each end that it is
    /// equal to up to rounding.
    pub open spec fn without(&self, v: i64) -> Extent {
        Extent {
            min_count: lowered(self.min_count, near(v, self.min_val)),
            max_count: lowered(self.max_count, near(v, self.max_val)),
            ..*self
        }
    }

    /// Whether the counts are those of a column: at each end, how many of its values are
    /// equal to that end up to rounding.
    pub open spec fn counts(&self, column: Column) -> bool {
        &&& self.min_count == clamped(near_upto(column, column.len() as int, self.min_val))
        &&& self.max_count == clamped(near_upto(column, column.len() as int, self.max_val))
    }
}

/// How many of the first values are equal to a value up to rounding.
pub open spec fn near_upto(column: Column, n: int, v: i64) -> nat
    decreases n,
{
    if n <= 0 {
        0
    } else {
        near_upto(column, n - 1, v) + if near(column[n - 1].0, v) {
            1nat
        } else {
            0nat
        }
    }
}

/// The smallest of the first values.
pub open spec fn least_upto(column: Column, n: int) -> i64
    decreases n,
{
    if n <= 1 {
        column[0].0
    } else if column[n - 1].0 < least_upto(column, n - 1) {
        column[n - 1].0
    } else {
        least_upto(column, n - 1)
    }
}

/// The largest of the first values.
pub open spec fn greatest_upto(column: Column, n: int) -> i64
    decreases n,
{
    if n <= 1 {
        column[0].0
    } else if column[n - 1].0 > greatest_upto(column, n - 1) {
        column[n - 1].0
    } else {
        greatest_upto(column, n - 1)
    }
}

/// The extent of a column.
pub open spec fn extent_of(column: Column) -> Extent {
    let n = column.len() as int;
    Extent {
        min_val: least_upto(column, n),
        min_count: clamped(near_upto(column, n, least_upto(column, n))),
        max_val: greatest_upto(column, n),
        max_count: clamped(near_upto(column, n, greatest_upto(column, n))),
    }
}

/// The ends among the first values are values, and no value lies beyond them.
proof fn lemma_ends(column: Column, n: int)
    requires
        1 <= n <= column.len(),
    ensures
        forall|i: int|
            0 <= i < n ==> least_upto(column, n) <= (#[trigger] column[i]).0 <= greatest_upto(
                column,
                n,
            ),
        exists|i: int| 0 <= i < n && (#[trigger] column[i]).0 == least_upto(column, n),
        exists|i: int| 0 <= i < n && (#[trigger] column[i]).0 == greatest_upto(column, n),
    decreases n,
{
    if n > 1 {
        lemma_ends(column, n - 1);
        let a = choose|i: int|
            0 <= i < n - 1 && (#[trigger] column[i]).0 == least_upto(column, n - 1);
        let b = choose|i: int|
            0 <= i < n - 1 && (#[trigger] column[i]).0 == greatest_upto(column, n - 1);
        assert(column[n - 1].0 == least_upto(column, n) || column[a].0 == least_upto(column, n));
        assert(column[n - 1].0 == greatest_upto(column, n) || column[b].0 == greatest_upto(
            column,
            n,
        ));
    } else {
        assert(column[0].0 == least_upto(column, n));
    }
}

/// The extent holds the smallest and the largest value of a column, and at each of the two
/// how many values are equal to it up to rounding.
pub proof fn law_extent(column: Column)
    requires
        column.len() > 0,
    ensures
        forall|i: int|
            0 <= i < column.len() ==> extent_of(column).min_val <= (#[trigger] column[i]).0
                <= extent_of(column).max_val,
        exists|i: int|
            0 <= i < column.len() && (#[trigger] column[i]).0 == extent_of(column).min_val,
        exists|i: int|
            0 <= i < column.len() && (#[trigger] column[i]).0 == extent_of(column).max_val,
        extent_of(column).counts(column),
{
    lemma_ends(column, column.len() as int);
}

/// The counts at the two ends follow a column to which a value is added: they are those of
/// the longer column. A value that lies beyond an end and is still equal to it up to
/// rounding is left out, since what it is near to is not counted yet.
pub proof fn law_extent_follows_arrival(column: Column, e: Extent, value: i64, label: bool)
    requires
        e.counts(column),
        forall|i: int|
            0 <= i < column.len() ==> e.min_val <= (#[trigger] column[i]).0 <= e.max_val,
        e.min_val < e.max_val,
        !near(e.min_val, e.max_val),
        value < e.min_val ==> !near(value, e.min_val),
        value > e.max_val ==> !near(value, e.max_val),
    ensures
        e.with(value).counts(column.push((value, label))),
{
    let longer = column.push((value, label));
    let n = column.len() as int;
    lemma_near_prefix(column, longer, n, e.min_val);
    lemma_near_prefix(column, longer, n, e.max_val);
    if value < e.min_val || value > e.max_val {
        lemma_near_prefix(column, longer, n, value);
        assert(forall|i: int| 0 <= i < n ==> !near((#[trigger] column[i]).0, value));
        lemma_near_none(column, n, value);
    }
    assert(longer[n] == (value, label));
}

/// The counts at the two ends follow a column from which a value is taken: they are those
/// of the shorter column.
pub proof fn law_extent_follows_departure(column: Column, e: Extent, i: int)
    requires
        0 <= i < column.len() <= u32::MAX,
        e.counts(column),
    ensures
        e.without(column[i].0).counts(column.remove(i)),
{
    let n = column.len() as int;
    lemma_near_removed(column, i, n, e.min_val);
    lemma_near_removed(column, i, n, e.max_val);
    lemma_near_bounds(column, n, e.min_val);
    lemma_near_bounds(column, n, e.max_val);
}

/// A count of near values is no larger than what is counted.
proof fn lemma_near_bounds(column: Column, n: int, v: i64)
    requires
        n >= 0,
    ensures
        near_upto(column, n, v) <= n,
    decreases n,
{
    if n > 0 {
        lemma_near_bounds(column, n - 1, v);
    }
}

/// A count of near values rests on the values counted alone.
proof fn lemma_near_prefix(a: Column, b: Column, n: int, v: i64)
    requires
        n <= a.len(),
        n <= b.len(),
        forall|i: int| 0 <= i < n ==> a[i] == b[i],
    ensures
        near_upto(a, n, v) == near_upto(b, n, v),
    decreases n,
{
    if n > 0 {
        lemma_near_prefix(a, b, n - 1, v);
    }
}

/// Where no value is near, none is counted.
proof fn lemma_near_none(column: Column, n: int, v: i64)
    requires
        n <= column.len(),
        forall|i: int| 0 <= i < n ==> !near((#[trigger] column[i]).0, v),
    ensures
        near_upto(column, n, v) == 0,
    decreases n,
{
    if n > 0 {
        lemma_near_none(column, n - 1, v);
    }
}

/// What taking a value out does to a count of near values.
proof fn lemma_near_removed(column: Column, i: int, n: int, v: i64)
    requires
        0 <= i < n <= column.len(),
    ensures
        near_upto(column, n, v) == near_upto(column.remove(i), n - 1, v) + (if near(
            column[i].0,
            v,
        ) {
            1nat
        } else {
            0nat
        }),
    decreases n,
{
    let shorter = column.remove(i);
    if n - 1 == i {
        lemma_near_prefix(column, shorter, i, v);
    } else {
        lemma_near_removed(column, i, n - 1, v);
        assert(shorter[n - 2] == column[n - 1]);
    }
}

/// Whether a column has no two values to split between.
pub open spec fn is_constant(column: Column) -> bool {
    column.len() == 0 || near(extent_of(column).max_val, extent_of(column).min_val)
}

/// How many of the first values are at most a threshold.
pub open spec fn count_upto(column: Column, n: int, threshold: i64) -> nat
    decreases n,
{
    if n <= 0 {
        0
    } else {
        count_upto(column, n - 1, threshold) + if column[n - 1].0 <= threshold {
            1nat
        } else {
            0nat
        }
    }
}

/// How many of the first values are at most a threshold and come from positive samples.
pub open spec fn plus_upto(column: Column, n: int, threshold: i64) -> nat
    decreases n,
{
    if n <= 0 {
        0
    } else {
        plus_upto(column, n - 1, threshold) + if column[n - 1].0 <= threshold && column[n - 1].1 {
            1nat
        } else {
            0nat
        }
    }
}

/// How many of the first values come from positive samples.
pub open spec fn label_count(column: Column, n: int) -> nat
    decreases n,
{
    if n <= 0 {
        0
    } else {
        label_count(column, n - 1) + if column[n - 1].1 {
            1nat
        } else {
            0nat
        }
    }
}

/// A count is no larger than what is counted.
pub proof fn lemma_count_bounds(column: Column, n: int, threshold: i64)
    requires
        n >= 0,
    ensures
        count_upto(column, n, threshold) <= n,
        plus_upto(column, n, threshold) <= count_upto(column, n, threshold),
        plus_upto(column, n, threshold) <= label_count(column, n),
        label_count(column, n) <= n,
    decreases n,
{
    if n > 0 {
        lemma_count_bounds(column, n - 1, threshold);
    }
}

/// A number as a count, which stops at its upper bound.
pub open spec fn clamped(n: nat) -> u32 {
    if n <= u32::MAX {
        n as u32
    } else {
        u32::MAX
    }
}

/// The threshold candidate that a column gives.
pub open spec fn counted(column: Column, threshold: i64) -> ThresholdCandidate {
    ThresholdCandidate {
        threshold,
        left_count: clamped(count_upto(column, column.len() as int, threshold)),
        left_positive: clamped(plus_upto(column, column.len() as int, threshold)),
    }
}

/// Statistics follow a column to which a value is added: counting the new sample gives
/// what counting the longer column gives.
pub proof fn law_counts_follow_arrival(column: Column, value: i64, label: bool, threshold: i64)
    ensures
        counted(column, threshold).with_sample(value, label) == counted(
            column.push((value, label)),
            threshold,
        ),
{
    let longer = column.push((value, label));
    lemma_count_prefix(column, longer, column.len() as int, threshold);
    assert(longer[column.len() as int] == (value, label));
}

/// Statistics follow a column from which a value is taken: taking the sample out of the
/// counts gives what counting the shorter column gives.
pub proof fn law_counts_follow_departure(column: Column, i: int, threshold: i64)
    requires
        0 <= i < column.len() <= u32::MAX,
    ensures
        counted(column, threshold).without_sample(column[i].0, column[i].1) == counted(
            column.remove(i),
            threshold,
        ),
{
    lemma_count_removed(column, i, column.len() as int, threshold);
    lemma_count_bounds(column, column.len() as int, threshold);
}

/// Counts of the first values rest on those alone.
proof fn lemma_count_prefix(a: Column, b: Column, n: int, threshold: i64)
    requires
        n <= a.len(),
        n <= b.len(),
        forall|i: int| 0 <= i < n ==> a[i] == b[i],
    ensures
        count_upto(a, n, threshold) == count_upto(b, n, threshold),
        plus_upto(a, n, threshold) == plus_upto(b, n, threshold),
    decreases n,
{
    if n > 0 {
        lemma_count_prefix(a, b, n - 1, threshold);
    }
}

/// What taking a value out does to the counts.
proof fn lemma_count_removed(column: Column, i: int, n: int, threshold: i64)
    requires
        0 <= i < n <= column.len(),
    ensures
        count_upto(column, n, threshold) == count_upto(column.remove(i), n - 1, threshold) + (
        if column[i].0 <= threshold {
            1nat
        } else {
            0nat
        }),
        plus_upto(column, n, threshold) == plus_upto(column.remove(i), n - 1, threshold) + (
        if column[i].0 <= threshold && column[i].1 {
            1nat
        } else {
            0nat
        }),
    decreases n,
{
    let shorter = column.remove(i);
    if n - 1 == i {
        lemma_count_prefix(column, shorter, i, threshold);
    } else {
        lemma_count_removed(column, i, n - 1, threshold);
        assert(shorter[n - 2] == column[n - 1]);
    }
}

/// Makes a number a count.
pub fn clamp(n: usize) -> (r: u32)
    ensures
        r == clamped(n as nat),
{
    if n <= u32::MAX as usize {
        n as u32
    } else {
        u32::MAX
    }
}

/// What is known of one attribute at a node.
#[verifier::ext_equal]
pub struct CandidateView {
    pub attr_idx: u8,
    pub min_val: i64,
    pub min_count: u32,
    pub max_val: i64,
    pub max_count: u32,
    pub thresholds: Seq<ThresholdCandidate>,
    pub best_score: Option<Fraction>,
    pub best_threshold: i64,
}

impl CandidateView {
    /// The extent of the values that were seen.
    pub open spec fn extent(&self) -> Extent {
        Extent {
            min_val: self.min_val,
            min_count: self.min_count,
            max_val: self.max_val,
            max_count: self.max_count,
        }
    }

    /// The candidate with another extent.
    pub open spec fn with_extent(&self, e: Extent) -> CandidateView {
        CandidateView {
            min_val: e.min_val,
            min_count: e.min_count,
            max_val: e.max_val,
            max_count: e.max_count,
            ..*self
        }
    }

    /// The candidate with other thresholds, of which the best one is found anew.
    pub open spec fn rated(
        &self,
        thresholds: Seq<ThresholdCandidate>,
        total_samples: u32,
        total_positive: u32,
    ) -> CandidateView {
        let best = best_upto(
            thresholds,
            thresholds.len() as int,
            total_samples,
            total_positive,
            self.best_threshold,
        );
        CandidateView { thresholds, best_score: best.0, best_threshold: best.1, ..*self }
    }

    /// Whether a new value lies outside what was seen, which makes the candidate void.
    pub open spec fn broken_by(&self, value: i64) -> bool {
        value < self.min_val || value > self.max_val
    }

    /// The candidate after a sample has come.
    pub open spec fn with_sample(
        &self,
        value: i64,
        label: bool,
        total_samples: u32,
        total_positive: u32,
    ) -> CandidateView {
        let moved = self.with_extent(self.extent().with(value));
        if self.broken_by(value) {
            moved
        } else {
            moved.rated(
                self.thresholds.map_values(|t: ThresholdCandidate| t.with_sample(value, label)),
                total_samples,
                total_positive,
            )
        }
    }

    /// Whether the last smallest or the last largest value goes, which makes the
    /// candidate void.
    pub open spec fn emptied_by(&self, value: i64) -> bool {
        ||| near(value, self.min_val) && self.min_count <= 1
        ||| near(value, self.max_val) && self.max_count <= 1
    }

    /// The candidate after a sample has gone.
    pub open spec fn without_sample(
        &self,
        value: i64,
        label: bool,
        total_samples: u32,
        total_positive: u32,
    ) -> CandidateView {
        let moved = self.with_extent(self.extent().without(value));
        if self.emptied_by(value) {
            moved
        } else {
            moved.rated(
                self.thresholds.map_values(|t: ThresholdCandidate| t.without_sample(value, label)),
                total_samples,
                total_positive,
            )
        }
    }

    /// Whether the candidate is what a column of values and some thresholds inside its
    /// extent give.
    pub open spec fn fresh(&self, attr_idx: u8, column: Column, num_thresholds: int) -> bool {
        let e = extent_of(column);
        let best = best_upto(
            self.thresholds,
            self.thresholds.len() as int,
            clamped(column.len()),
            clamped(label_count(column, column.len() as int)),
            self.thresholds[0].threshold,
        );
        &&& self.attr_idx == attr_idx
        &&& self.extent() == e
        &&& self.thresholds.len() == num_thresholds
        &&& forall|i: int|
            0 <= i < num_thresholds ==> (#[trigger] self.thresholds[i]) == counted(
                column,
                self.thresholds[i].threshold,
            )
        &&& forall|i: int|
            0 <= i < num_thresholds ==> e.min_val <= (#[trigger] self.thresholds[i]).threshold
                < e.max_val
        &&& forall|i: int, j: int|
            0 <= i <= j < num_thresholds ==> (#[trigger] self.thresholds[i]).threshold <= (
            #[trigger] self.thresholds[j]).threshold
        &&& self.best_score == best.0
        &&& self.best_threshold == best.1
    }
}

/// Whether questions are all for any value from the smallest one up to below the largest one.
pub open spec fn asks_values(low: int, high: int, asked: Seq<Question>) -> bool {
    forall|i: int|
        0 <= i < asked.len() ==> (#[trigger] asked[i]).low == low && asked[i].high == high
            && asked[i].answered()
}

/// The values that were answered.
pub open spec fn values_answered(asked: Seq<Question>) -> Multiset<i64>
    decreases asked.len(),
{
    if asked.len() == 0 {
        Multiset::empty()
    } else {
        values_answered(asked.drop_last()).insert(asked.last().answer as i64)
    }
}

/// The values of thresholds.
pub open spec fn values_of(thresholds: Seq<ThresholdCandidate>) -> Seq<i64> {
    Seq::new(thresholds.len(), |i: int| thresholds[i].threshold)
}

/// Whether thresholds are what was answered to questions for any value of a column's extent.
pub open spec fn asks_thresholds(
    column: Column,
    thresholds: Seq<ThresholdCandidate>,
    asked: Seq<Question>,
) -> bool {
    &&& asks_values(
        extent_of(column).min_val as int,
        extent_of(column).max_val as int,
        asked,
    )
    &&& values_of(thresholds).to_multiset() == values_answered(asked)
}

/// Any threshold can come: each value from the smallest one of a column up to below the
/// largest one is an answer to the question that is put for a threshold, and no other is.
pub proof fn law_every_threshold_can_come(column: Column, t: i64)
    requires
        column.len() > 0,
    ensures
        (exists|i: int, j: int|
            #![trigger column[i], column[j]]
            0 <= i < column.len() && 0 <= j < column.len() && column[i].0 <= t < column[j].0)
            <==> asks_values(
            extent_of(column).min_val as int,
            extent_of(column).max_val as int,
            seq![Question {
                low: extent_of(column).min_val as int,
                high: extent_of(column).max_val as int,
                answer: t as int,
            }],
        ),
{
    let e = extent_of(column);
    law_extent(column);
    let q = seq![Question { low: e.min_val as int, high: e.max_val as int, answer: t as int }];
    let a = choose|i: int| 0 <= i < column.len() && (#[trigger] column[i]).0 == e.min_val;
    let b = choose|i: int| 0 <= i < column.len() && (#[trigger] column[i]).0 == e.max_val;
    if asks_values(e.min_val as int, e.max_val as int, q) {
        assert(q[0].answered());
        assert(column[a].0 <= t < column[b].0);
    }
}

/// What is known of one attribute at a node.
#[derive(Debug)]
pub struct AttributeCandidate {
    pub attr_idx: u8,
    /// The smallest value, and how often it was seen.
    pub min_val: i64,
    pub min_count: u32,
    /// The largest value, and how often it was seen.
    pub max_val: i64,
    pub max_count: u32,
    /// Thresholds in order.
    pub thresholds: Vec<ThresholdCandidate>,
    /// The lowest score of a threshold, and the threshold that has it.
    pub best_score: Option<Fraction>,
    pub best_threshold: i64,
}

impl View for AttributeCandidate {
    type V = CandidateView;

    open spec fn view(&self) -> CandidateView {
        CandidateView {
            attr_idx: self.attr_idx,
            min_val: self.min_val,
            min_count: self.min_count,
            max_val: self.max_val,
            max_count: self.max_count,
            thresholds: self.thresholds@,
            best_score: self.best_score,
            best_threshold: self.best_threshold,
        }
    }
}

impl AttributeCandidate {
    /// Nothing is known yet.
    pub fn new(attr_idx: u8) -> (r: Self)
        ensures
            r@ == (CandidateView {
                attr_idx,
                min_val: i64::MAX,
                min_count: 0,
                max_val: i64::MIN,
                max_count: 0,
                thresholds: Seq::empty(),
                best_score: None,
                best_threshold: 0,
            }),
    {
        AttributeCandidate {
            attr_idx,
            min_val: i64::MAX,
            min_count: 0,
            max_val: i64::MIN,
            max_count: 0,
            thresholds: Vec::new(),
            best_score: None,
            best_threshold: 0,
        }
    }

    /// Finds the extent of a column.
    pub fn extent(values: &[(i64, bool)]) -> (r: Extent)
        requires
            values@.len() > 0,
        ensures
            r == extent_of(values@),
    {
        let mut min_val: i64 = values[0].0;
        let mut max_val: i64 = values[0].0;
        let mut i: usize = 1;
        while i < values.len()
            invariant
                1 <= i <= values@.len(),
                min_val == least_upto(values@, i as int),
                max_val == greatest_upto(values@, i as int),
            decreases values@.len() - i,
        {
            let v: i64 = values[i].0;
            if v < min_val {
                min_val = v;
            }
            if v > max_val {
                max_val = v;
            }
            i = i + 1;
        }
        let mut min_count: u32 = 0;
        let mut max_count: u32 = 0;
        let mut k: usize = 0;
        while k < values.len()
            invariant
                k <= values@.len(),
                min_count == clamped(near_upto(values@, k as int, min_val)),
                max_count == clamped(near_upto(values@, k as int, max_val)),
            decreases values@.len() - k,
        {
            let v: i64 = values[k].0;
            min_count = raise(min_count, is_near(v, min_val));
            max_count = raise(max_count, is_near(v, max_val));
            k = k + 1;
        }
        Extent { min_val, min_count, max_val, max_count }
    }

    /// The candidate that a column and a choice of thresholds give.
    pub fn from_thresholds(
        attr_idx: u8,
        values: &[(i64, bool)],
        thresholds: &Vec<i64>,
    ) -> (r: Self)
        requires
            values@.len() > 0,
            thresholds@.len() > 0,
        ensures
            r.attr_idx == attr_idx,
            r@.extent() == extent_of(values@),
            r@.thresholds == Seq::new(
                thresholds@.len(),
                |i: int| counted(values@, thresholds@[i]),
            ),
            (r.best_score, r.best_threshold) == best_upto(
                r@.thresholds,
                thresholds@.len() as int,
                clamped(values@.len()),
                clamped(label_count(values@, values@.len() as int)),
                thresholds@[0],
            ),
            score_wf(r.best_score),
    {
        let e = Self::extent(values);
        let total_samples: u32 = clamp(values.len());
        let mut total_positive: u32 = 0;
        let mut i: usize = 0;
        while i < values.len()
            invariant
                i <= values@.len(),
                total_positive == clamped(label_count(values@, i as int)),
            decreases values@.len() - i,
        {
            total_positive = raise(total_positive, values[i].1);
            i = i + 1;
        }
        let mut candidates: Vec<ThresholdCandidate> = Vec::new();
        let mut best_score: Option<Fraction> = None;
        let mut best_threshold: i64 = thresholds[0];
        let mut k: usize = 0;
        while k < thresholds.len()
            invariant
                k <= thresholds@.len(),
                total_samples == clamped(values@.len()),
                total_positive == clamped(label_count(values@, values@.len() as int)),
                candidates@ == Seq::new(k as nat, |i: int| counted(values@, thresholds@[i])),
                (best_score, best_threshold) == best_upto(
                    candidates@,
                    k as int,
                    total_samples,
                    total_positive,
                    thresholds@[0],
                ),
                score_wf(best_score),
            decreases thresholds@.len() - k,
        {
            let thresh: i64 = thresholds[k];
            let mut left_count: u32 = 0;
            let mut left_positive: u32 = 0;
            let mut i: usize = 0;
            while i < values.len()
                invariant
                    i <= values@.len(),
                    left_count == clamped(count_upto(values@, i as int, thresh)),
                    left_positive == clamped(plus_upto(values@, i as int, thresh)),
                decreases values@.len() - i,
            {
                if values[i].0 <= thresh {
                    left_count = raise(left_count, true);
                    left_positive = raise(left_positive, values[i].1);
                }
                i = i + 1;
            }
            let candidate = ThresholdCandidate::new(thresh, left_count, left_positive);
            let score = candidate.score(total_samples, total_positive);
            let ghost before = candidates@;
            candidates.push(candidate);
            proof {
                assert(candidates@ =~= Seq::new(
                    (k + 1) as nat,
                    |i: int| counted(values@, thresholds@[i]),
                ));
                lemma_best_prefix(
                    before,
                    candidates@,
                    k as int,
                    total_samples,
                    total_positive,
                    thresholds@[0],
                );
            }
            if is_better(score, best_score) {
                best_score = score;
                best_threshold = thresh;
            }
            k = k + 1;
        }
        AttributeCandidate {
            attr_idx,
            min_val: e.min_val,
            min_count: e.min_count,
            max_val: e.max_val,
            max_count: e.max_count,
            thresholds: candidates,
            best_score,
            best_threshold,
        }
    }

    /// A candidate with thresholds drawn from the extent of a column, and the questions that
    /// were put for them. There is none for a column without values or with equal values.
    pub fn ask_thresholds(
        attr_idx: u8,
        values: &[(i64, bool)],
        num_thresholds: usize,
        rng: &mut XorShiftRng,
        log: &mut Inquiry,
    ) -> (r: Option<Self>)
        requires
            num_thresholds > 0,
        ensures
            r is None <==> is_constant(values@),
            r is Some ==> r->0@.fresh(attr_idx, values@, num_thresholds as int),
            r is Some ==> score_wf(r->0.best_score),
            old(log)@.is_prefix_of(final(log)@),
            r is None ==> final(log)@ == old(log)@,
            r is Some ==> asks_thresholds(
                values@,
                r->0@.thresholds,
                put_since(old(log)@, final(log)@),
            ),
    {
        if values.len() == 0 {
            return None;
        }
        let e = Self::extent(values);
        if is_near(e.max_val, e.min_val) {
            return None;
        }
        proof {
            law_extent(values@);
        }
        let ghost start = log@;
        let mut thresholds: Vec<i64> = Vec::new();
        assert(put_since(start, log@) =~= Seq::<Question>::empty());
        assert(thresholds@.to_multiset() =~= values_answered(put_since(start, log@))) by {
            broadcast use vstd::seq_lib::group_to_multiset_ensures;

        }
        while thresholds.len() < num_thresholds
            invariant
                e.min_val < e.max_val,
                thresholds@.len() <= num_thresholds,
                start.is_prefix_of(log@),
                log@.len() == start.len() + thresholds@.len(),
                asks_values(e.min_val as int, e.max_val as int, put_since(start, log@)),
                thresholds@.to_multiset() == values_answered(put_since(start, log@)),
                forall|i: int|
                    0 <= i < thresholds@.len() ==> e.min_val <= #[trigger] thresholds@[i]
                        < e.max_val,
                forall|i: int, j: int|
                    0 <= i <= j < thresholds@.len() ==> thresholds@[i] <= thresholds@[j],
            decreases num_thresholds - thresholds@.len(),
        {
            let ghost asked = put_since(start, log@);
            let ghost had = thresholds@;
            let t: i64 = ask_value(rng, log, e.min_val, e.max_val);
            insert_in_order(&mut thresholds, t);
            proof {
                let now = put_since(start, log@);
                assert(now =~= asked.push(
                    Question { low: e.min_val as int, high: e.max_val as int, answer: t as int },
                ));
                assert(now.drop_last() =~= asked);
                let k = choose|k: int|
                    0 <= k <= had.len() && thresholds@ == #[trigger] had.insert(k, t);
                vstd::seq_lib::to_multiset_insert(had, k, t);
            }
        }
        let r = Self::from_thresholds(attr_idx, values, &thresholds);
        proof {
            assert(values_of(r@.thresholds) =~= thresholds@);
        }
        Some(r)
    }

    /// A candidate with thresholds drawn from the extent of a column. There is none for
    /// a column without values or with equal values.
    pub fn init_from_batch(
        attr_idx: u8,
        values: &[(i64, bool)],
        num_thresholds: usize,
        rng: &mut XorShiftRng,
    ) -> (r: Option<Self>)
        requires
            num_thresholds > 0,
        ensures
            r is None <==> is_constant(values@),
            r is Some ==> r->0@.fresh(attr_idx, values@, num_thresholds as int),
            r is Some ==> score_wf(r->0.best_score),
            r is Some ==> exists|asked: Seq<Question>| #[trigger]
                asks_thresholds(values@, r->0@.thresholds, asked),
    {
        let mut log = Inquiry::new();
        Self::ask_thresholds(attr_idx, values, num_thresholds, rng, &mut log)
    }

    /// Counts a sample that has come. Says whether it lies outside what was seen, in
    /// which case the candidate is void.
    pub fn add_sample(
        &mut self,
        value: i64,
        label: bool,
        total_samples: u32,
        total_positive: u32,
    ) -> (r: bool)
        requires
            score_wf(old(self).best_score),
        ensures
            r == old(self)@.broken_by(value),
            final(self)@ == old(self)@.with_sample(value, label, total_samples, total_positive),
            score_wf(final(self).best_score),
    {
        if value < self.min_val {
            self.min_val = value;
            self.min_count = 1;
            return true;
        } else if value > self.max_val {
            self.max_val = value;
            self.max_count = 1;
            return true;
        }
        self.min_count = raise(self.min_count, is_near(value, self.min_val));
        self.max_count = raise(self.max_count, is_near(value, self.max_val));
        let ghost f = |t: ThresholdCandidate| t.with_sample(value, label);
        let ghost before = self.thresholds@;
        let ghost moved = self@;
        self.best_score = None;
        let mut i: usize = 0;
        while i < self.thresholds.len()
            invariant
                i <= self.thresholds@.len() == before.len(),
                f == (|t: ThresholdCandidate| t.with_sample(value, label)),
                forall|j: int| 0 <= j < i ==> #[trigger] self.thresholds@[j] == f(before[j]),
                forall|j: int|
                    i <= j < before.len() ==> #[trigger] self.thresholds@[j] == before[j],
                (self.best_score, self.best_threshold) == best_upto(
                    self.thresholds@,
                    i as int,
                    total_samples,
                    total_positive,
                    moved.best_threshold,
                ),
                score_wf(self.best_score),
                self@ == (CandidateView {
                    thresholds: self@.thresholds,
                    best_score: self@.best_score,
                    best_threshold: self@.best_threshold,
                    ..moved
                }),
            decreases before.len() - i,
        {
            let ghost prior = self.thresholds@;
            let mut candidate = self.thresholds[i];
            if value <= candidate.threshold {
                candidate.left_count = raise(candidate.left_count, true);
                candidate.left_positive = raise(candidate.left_positive, label);
            }
            assert(candidate == f(before[i as int]));
            self.thresholds.set(i, candidate);
            proof {
                lemma_best_prefix(
                    prior,
                    self.thresholds@,
                    i as int,
                    total_samples,
                    total_positive,
                    moved.best_threshold,
                );
            }
            let score = candidate.score(total_samples, total_positive);
            if is_better(score, self.best_score) {
                self.best_score = score;
                self.best_threshold = candidate.threshold;
            }
            i = i + 1;
        }
        assert(self.thresholds@ =~= before.map_values(f));
        false
    }

    /// Takes a sample that has gone out of the counts. Says whether it was the last
    /// smallest or the last largest one, in which case the candidate is void.
    pub fn remove_sample(
        &mut self,
        value: i64,
        label: bool,
        total_samples: u32,
        total_positive: u32,
    ) -> (r: bool)
        requires
            score_wf(old(self).best_score),
        ensures
            r == old(self)@.emptied_by(value),
            final(self)@ == old(self)@.without_sample(value, label, total_samples, total_positive),
            score_wf(final(self).best_score),
    {
        let at_min = is_near(value, self.min_val);
        let at_max = is_near(value, self.max_val);
        self.min_count = lower(self.min_count, at_min);
        self.max_count = lower(self.max_count, at_max);
        if (at_min && self.min_count == 0) || (at_max && self.max_count == 0) {
            return true;
        }
        let ghost f = |t: ThresholdCandidate| t.without_sample(value, label);
        let ghost before = self.thresholds@;
        let ghost moved = self@;
        self.best_score = None;
        let mut i: usize = 0;
        while i < self.thresholds.len()
            invariant
                i <= self.thresholds@.len() == before.len(),
                f == (|t: ThresholdCandidate| t.without_sample(value, label)),
                forall|j: int| 0 <= j < i ==> #[trigger] self.thresholds@[j] == f(before[j]),
                forall|j: int|
                    i <= j < before.len() ==> #[trigger] self.thresholds@[j] == before[j],
                (self.best_score, self.best_threshold) == best_upto(
                    self.thresholds@,
                    i as int,
                    total_samples,
                    total_positive,
                    moved.best_threshold,
                ),
                score_wf(self.best_score),
                self@ == (CandidateView {
                    thresholds: self@.thresholds,
                    best_score: self@.best_score,
                    best_threshold: self@.best_threshold,
                    ..moved
                }),
            decreases before.len() - i,
        {
            let ghost prior = self.thresholds@;
            let mut candidate = self.thresholds[i];
            if value <= candidate.threshold {
                candidate.left_count = lower(candidate.left_count, true);
                candidate.left_positive = lower(candidate.left_positive, label);
            }
            assert(candidate == f(before[i as int]));
            self.thresholds.set(i, candidate);
            proof {
                lemma_best_prefix(
                    prior,
                    self.thresholds@,
                    i as int,
                    total_samples,
                    total_positive,
                    moved.best_threshold,
                );
            }
            let score = candidate.score(total_samples, total_positive);
            if is_better(score, self.best_score) {
                self.best_score = score;
                self.best_threshold = candidate.threshold;
            }
            i = i + 1;
        }
        assert(self.thresholds@ =~= before.map_values(f));
        false
    }
}

/// The best of the first thresholds rests on those alone.
proof fn lemma_best_prefix(
    a: Seq<ThresholdCandidate>,
    b: Seq<ThresholdCandidate>,
    n: int,
    total_samples: u32,
    total_positive: u32,
    initial: i64,
)
    requires
        n <= a.len(),
        n <= b.len(),
        forall|i: int| 0 <= i < n ==> a[i] == b[i],
    ensures
        best_upto(a, n, total_samples, total_positive, initial) == best_upto(
            b,
            n,
            total_samples,
            total_positive,
            initial,
        ),
    decreases n,
{
    if n > 0 {
        lemma_best_prefix(a, b, n - 1, total_samples, total_positive, initial);
    }
}

/// Puts a number into a sorted list.
fn insert_in_order(list: &mut Vec<i64>, value: i64)
    requires
        forall|i: int, j: int| 0 <= i <= j < old(list)@.len() ==> old(list)@[i] <= old(list)@[j],
    ensures
        forall|i: int, j: int|
            0 <= i <= j < final(list)@.len() ==> final(list)@[i] <= final(list)@[j],
        exists|k: int|
            0 <= k <= old(list)@.len() && final(list)@ == #[trigger] old(list)@.insert(k, value),
{
    let mut k: usize = list.len();
    while k > 0 && list[k - 1] > value
        invariant
            k <= list@.len(),
            list@ == old(list)@,
            forall|i: int| k <= i < list@.len() ==> value < list@[i],
            forall|i: int, j: int| 0 <= i <= j < list@.len() ==> list@[i] <= list@[j],
        decreases k,
    {
        k = k - 1;
    }
    list.insert(k, value);
    assert(list@ == old(list)@.insert(k as int, value));
}

/// A row of attribute values with the class of its sample.
pub struct Row {
    pub values: Vec<i64>,
    pub label: bool,
}

/// What a row holds.
#[verifier::ext_equal]
pub struct RowView {
    pub values: Seq<i64>,
    pub label: bool,
}

impl View for Row {
    type V = RowView;

    open spec fn view(&self) -> RowView {
        RowView { values: self.values@, label: self.label }
    }
}

/// What rows hold.
pub open spec fn row_views(rows: Seq<Row>) -> Seq<RowView> {
    rows.map_values(|r: Row| r@)
}

/// The value of an attribute; an attribute that a row lacks is zero.
pub open spec fn value_at(values: Seq<i64>, attr: u8) -> i64 {
    if attr < values.len() {
        values[attr as int]
    } else {
        0
    }
}

/// Reads the value of an attribute.
fn read_value(values: &[i64], attr: u8) -> (r: i64)
    ensures
        r == value_at(values@, attr),
{
    if (attr as usize) < values.len() {
        values[attr as usize]
    } else {
        0
    }
}

/// One attribute of every row.
pub open spec fn column_of(rows: Seq<RowView>, attr: u8) -> Column {
    Seq::new(rows.len(), |i: int| (value_at(rows[i].values, attr), rows[i].label))
}

/// How many rows are positive.
pub open spec fn positive_rows(rows: Seq<RowView>, n: int) -> nat
    decreases n,
{
    if n <= 0 {
        0
    } else {
        positive_rows(rows, n - 1) + if rows[n - 1].label {
            1nat
        } else {
            0nat
        }
    }
}

/// The attributes of a list that can be split.
pub open spec fn varying(rows: Seq<RowView>, attrs: Seq<u8>) -> Seq<u8>
    decreases attrs.len(),
{
    if attrs.len() == 0 {
        Seq::empty()
    } else {
        let rest = varying(rows, attrs.drop_last());
        if is_constant(column_of(rows, attrs.last())) {
            rest
        } else {
            rest.push(attrs.last())
        }
    }
}

/// The candidates that stay valid after a sample has come.
pub open spec fn kept_with(
    c: Seq<CandidateView>,
    values: Seq<i64>,
    label: bool,
    total_samples: u32,
    total_positive: u32,
) -> Seq<CandidateView>
    decreases c.len(),
{
    if c.len() == 0 {
        Seq::empty()
    } else {
        let rest = kept_with(c.drop_last(), values, label, total_samples, total_positive);
        let v = value_at(values, c.last().attr_idx);
        if c.last().broken_by(v) {
            rest
        } else {
            rest.push(c.last().with_sample(v, label, total_samples, total_positive))
        }
    }
}

/// The candidates that stay valid after a sample has gone.
pub open spec fn kept_without(
    c: Seq<CandidateView>,
    values: Seq<i64>,
    label: bool,
    total_samples: u32,
    total_positive: u32,
) -> Seq<CandidateView>
    decreases c.len(),
{
    if c.len() == 0 {
        Seq::empty()
    } else {
        let rest = kept_without(c.drop_last(), values, label, total_samples, total_positive);
        let v = value_at(values, c.last().attr_idx);
        if c.last().emptied_by(v) {
            rest
        } else {
            rest.push(c.last().without_sample(v, label, total_samples, total_positive))
        }
    }
}

/// The best split of the candidates: the lowest score, and the first candidate that
/// has it.
pub open spec fn best_candidate(c: Seq<CandidateView>) -> Option<(u8, i64, Fraction)>
    decreases c.len(),
{
    if c.len() == 0 {
        None
    } else {
        let best = best_candidate(c.drop_last());
        let last = c.last();
        if last.best_score is Some && (best is None || last.best_score->0.below(&(best->0).2)) {
            Some((last.attr_idx, last.best_threshold, last.best_score->0))
        } else {
            best
        }
    }
}

/// The second lowest score of the candidates.
pub open spec fn runner_up(c: Seq<CandidateView>) -> Option<Fraction>
    decreases c.len(),
{
    if c.len() == 0 {
        None
    } else {
        let best = best_candidate(c.drop_last());
        let second = runner_up(c.drop_last());
        match (c.last().best_score, best) {
            (None, _) => second,
            (Some(_), None) => None,
            (Some(s), Some(b)) => if s.below(&b.2) {
                Some(b.2)
            } else if second is None || s.below(&second->0) {
                Some(s)
            } else {
                second
            },
        }
    }
}

/// The split statistics of a node.
#[verifier::ext_equal]
pub struct StatsView {
    pub num_attributes: u8,
    pub total_samples: u32,
    pub total_positive: u32,
    pub candidates: Seq<CandidateView>,
    pub constant: Seq<bool>,
}

impl StatsView {
    /// The statistics after a sample has come.
    pub open spec fn with_sample(&self, values: Seq<i64>, label: bool) -> StatsView {
        let s = raised(self.total_samples, true);
        let p = raised(self.total_positive, label);
        StatsView {
            total_samples: s,
            total_positive: p,
            candidates: kept_with(self.candidates, values, label, s, p),
            ..*self
        }
    }

    /// The statistics after a sample has gone.
    pub open spec fn without_sample(&self, values: Seq<i64>, label: bool) -> StatsView {
        let s = lowered(self.total_samples, true);
        let p = lowered(self.total_positive, label);
        StatsView {
            total_samples: s,
            total_positive: p,
            candidates: kept_without(self.candidates, values, label, s, p),
            ..*self
        }
    }

    /// Whether the statistics are those of some rows, for a choice of attributes.
    pub open spec fn describes(&self, rows: Seq<RowView>, attrs: Seq<u8>) -> bool {
        let split = varying(rows, attrs);
        &&& self.total_samples == clamped(rows.len())
        &&& self.total_positive == clamped(positive_rows(rows, rows.len() as int))
        &&& self.candidates.len() == split.len()
        &&& forall|i: int|
            0 <= i < split.len() ==> (#[trigger] self.candidates[i]).fresh(
                split[i],
                column_of(rows, split[i]),
                P_TRIES as int,
            )
    }
}

impl StatsView {
    /// Whether the statistics have been made anew from some rows, for some choice of
    /// attributes.
    pub open spec fn redrawn(
        &self,
        before: StatsView,
        rows: Seq<RowView>,
        num_candidates: int,
    ) -> bool {
        &&& self.num_attributes == before.num_attributes
        &&& exists|attrs: Seq<u8>|
            {
                &&& is_choice(
                    before.num_attributes,
                    if num_candidates <= before.num_attributes {
                        num_candidates
                    } else {
                        before.num_attributes as int
                    },
                    attrs,
                )
                &&& #[trigger] self.describes(rows, attrs)
                &&& self.constant == Seq::new(
                    before.num_attributes as nat,
                    |a: int|
                        before.constant[a] || (attrs.contains(a as u8) && is_constant(
                            column_of(rows, a as u8),
                        )),
                )
            }
    }
}

impl StatsView {
    /// Whether the statistics are those of some rows, for the attributes that were answered
    /// to the first of some questions, each for any attribute that was left.
    pub open spec fn asked_for(
        &self,
        rows: Seq<RowView>,
        num_candidates: int,
        asked: Seq<Question>,
    ) -> bool {
        let n = if num_candidates <= self.num_attributes {
            num_candidates
        } else {
            self.num_attributes as int
        };
        &&& n <= asked.len()
        &&& asks_attributes(self.num_attributes, n, asked.take(n))
        &&& self.describes(rows, chosen(self.num_attributes, places(asked.take(n))))
    }
}

/// Split statistics of a node, kept up to date while samples come and go.
pub struct AttributeStats {
    num_attributes: u8,
    /// The samples in the node.
    pub total_samples: u32,
    /// The positive ones among them.
    pub total_positive: u32,
    /// One candidate for each attribute that can be split.
    pub candidates: Vec<AttributeCandidate>,
    /// The attributes that had nothing to split when they were looked at.
    constant_attrs: Vec<bool>,
    rng: XorShiftRng,
}

/// What candidates hold.
pub open spec fn candidate_views(c: Seq<AttributeCandidate>) -> Seq<CandidateView> {
    c.map_values(|x: AttributeCandidate| x@)
}

impl View for AttributeStats {
    type V = StatsView;

    closed spec fn view(&self) -> StatsView {
        StatsView {
            num_attributes: self.num_attributes,
            total_samples: self.total_samples,
            total_positive: self.total_positive,
            candidates: candidate_views(self.candidates@),
            constant: self.constant_attrs@,
        }
    }
}

impl AttributeStats {
    /// The generator that attributes and thresholds are drawn from.
    pub closed spec fn source(&self) -> XorShiftRng {
        self.rng
    }

    /// Whether every attribute has its mark and every score is a fraction.
    pub closed spec fn wf(&self) -> bool {
        &&& self.constant_attrs@.len() == self.num_attributes
        &&& forall|i: int|
            0 <= i < self.candidates@.len() ==> score_wf(
                (#[trigger] self.candidates@[i]).best_score,
            )
    }

    /// Statistics of a node without samples, with the generator that a seed starts.
    pub fn new(num_attributes: u8, seed: u64) -> (r: Self)
        ensures
            r.source() == generator(seed),
            r@ == (StatsView {
                num_attributes,
                total_samples: 0,
                total_positive: 0,
                candidates: Seq::empty(),
                constant: Seq::new(num_attributes as nat, |i: int| false),
            }),
            r.wf(),
    {
        let constant_attrs = no_marks(num_attributes);
        let r = AttributeStats {
            num_attributes,
            total_samples: 0,
            total_positive: 0,
            candidates: Vec::new(),
            constant_attrs,
            rng: seeded(seed),
        };
        assert(r@.candidates =~= Seq::empty());
        r
    }

    /// Makes the statistics those of some rows, for a random choice of attributes.
    pub fn init_from_batch(&mut self, rows: &Vec<Row>, num_candidates: usize)
        requires
            old(self).wf(),
        ensures
            final(self).wf(),
            final(self)@.redrawn(old(self)@, row_views(rows@), num_candidates as int),
    {
        let mut log = Inquiry::new();
        self.ask_from_batch(rows, num_candidates, &mut log);
    }

    /// Makes the statistics those of some rows, for a random choice of attributes, and notes
    /// the questions that were put.
    pub fn ask_from_batch(&mut self, rows: &Vec<Row>, num_candidates: usize, log: &mut Inquiry)
        requires
            old(self).wf(),
        ensures
            final(self).wf(),
            final(self)@.redrawn(old(self)@, row_views(rows@), num_candidates as int),
            old(log)@.is_prefix_of(final(log)@),
            final(self)@.asked_for(
                row_views(rows@),
                num_candidates as int,
                put_since(old(log)@, final(log)@),
            ),
    {
        let ghost start = log@;
        let ghost views = row_views(rows@);
        let mut total_positive: u32 = 0;
        let mut i: usize = 0;
        while i < rows.len()
            invariant
                i <= rows@.len(),
                views == row_views(rows@),
                total_positive == clamped(positive_rows(views, i as int)),
            decreases rows@.len() - i,
        {
            assert(views[i as int].label == rows@[i as int].label);
            total_positive = raise(total_positive, rows[i].label);
            i = i + 1;
        }
        self.total_samples = clamp(rows.len());
        self.total_positive = total_positive;
        self.candidates = Vec::new();
        let attrs = ask_attributes(&mut self.rng, log, self.num_attributes, num_candidates);
        let ghost first = put_since(start, log@);
        let mut k: usize = 0;
        assert(attrs@.take(0) =~= Seq::<u8>::empty());
        while k < attrs.len()
            invariant
                k <= attrs@.len(),
                views == row_views(rows@),
                self.num_attributes == old(self).num_attributes,
                is_choice(self.num_attributes, attrs@.len() as int, attrs@),
                start.is_prefix_of(log@),
                start.len() + first.len() <= log@.len(),
                put_since(start, log@).take(first.len() as int) == first,
                self.total_samples == clamped(rows@.len()),
                self.total_positive == clamped(positive_rows(views, rows@.len() as int)),
                self.constant_attrs@.len() == self.num_attributes,
                forall|i: int|
                    0 <= i < self.candidates@.len() ==> score_wf(
                        (#[trigger] self.candidates@[i]).best_score,
                    ),
                self.candidates@.len() == varying(views, attrs@.take(k as int)).len(),
                forall|i: int|
                    0 <= i < self.candidates@.len() ==> (#[trigger] self.candidates@[i])@.fresh(
                        varying(views, attrs@.take(k as int))[i],
                        column_of(views, varying(views, attrs@.take(k as int))[i]),
                        P_TRIES as int,
                    ),
                forall|a: u8|
                    a < self.num_attributes ==> #[trigger] self.constant_attrs@[a as int] == (
                    old(self).constant_attrs@[a as int] || (attrs@.take(k as int).contains(a)
                        && is_constant(column_of(views, a)))),
            decreases attrs@.len() - k,
        {
            let attr: u8 = attrs[k];
            let mut values: Vec<(i64, bool)> = Vec::new();
            let mut i: usize = 0;
            while i < rows.len()
                invariant
                    i <= rows@.len(),
                    views == row_views(rows@),
                    values@ == column_of(views, attr).take(i as int),
                decreases rows@.len() - i,
            {
                let v: i64 = read_value(rows[i].values.as_slice(), attr);
                values.push((v, rows[i].label));
                assert(views[i as int] == rows@[i as int]@);
                assert(values@ =~= column_of(views, attr).take(i as int + 1));
                i = i + 1;
            }
            assert(values@ =~= column_of(views, attr));
            let ghost earlier = attrs@.take(k as int);
            let ghost later = attrs@.take(k as int + 1);
            assert(later =~= earlier.push(attr));
            assert(later.drop_last() =~= earlier);
            let ghost marks = self.constant_attrs@;
            let ghost had = self.candidates@;
            let ghost put = log@;
            match AttributeCandidate::ask_thresholds(
                attr,
                values.as_slice(),
                P_TRIES,
                &mut self.rng,
                log,
            ) {
                Some(candidate) => {
                    self.candidates.push(candidate);
                    assert(varying(views, later) == varying(views, earlier).push(attr));
                    assert forall|i: int| 0 <= i < self.candidates@.len() implies (
                    #[trigger] self.candidates@[i])@.fresh(
                        varying(views, later)[i],
                        column_of(views, varying(views, later)[i]),
                        P_TRIES as int,
                    ) by {
                        if i < had.len() {
                            assert(self.candidates@[i] == had[i]);
                        }
                    }
                },
                None => {
                    self.constant_attrs.set(attr as usize, true);
                },
            }
            proof {
                assert forall|i: int| 0 <= i < start.len() implies start[i] == log@[i] by {
                    assert(put[i] == log@[i]);
                }
                assert(put_since(start, log@).take(first.len() as int) =~= first) by {
                    assert forall|i: int| 0 <= i < first.len() implies put_since(start, log@)[i]
                        == first[i] by {
                        assert(put_since(start, put).take(first.len() as int)[i] == first[i]);
                        assert(put[start.len() + i] == log@[start.len() + i]);
                    }
                }
            }
            assert forall|a: u8| a < self.num_attributes implies #[trigger] self.constant_attrs@[a as int]
                == (old(self).constant_attrs@[a as int] || (later.contains(a) && is_constant(
                column_of(views, a),
            ))) by {
                assert(marks[a as int] == (old(self).constant_attrs@[a as int]
                    || (earlier.contains(a) && is_constant(column_of(views, a)))));
                if earlier.contains(a) {
                    let x = earlier.index_of(a);
                    assert(later[x] == a);
                }
                if later.contains(a) && a != attr {
                    let x = later.index_of(a);
                    assert(earlier[x] == a);
                }
                if a == attr {
                    assert(later[k as int] == a);
                }
            }
            k = k + 1;
        }
        proof {
            assert(attrs@.take(k as int) =~= attrs@);
            assert(self@.describes(views, attrs@)) by {
                assert forall|i: int| 0 <= i < varying(views, attrs@).len() implies (
                #[trigger] self@.candidates[i]).fresh(
                    varying(views, attrs@)[i],
                    column_of(views, varying(views, attrs@)[i]),
                    P_TRIES as int,
                ) by {
                    assert(self@.candidates[i] == self.candidates@[i]@);
                }
            }
            assert(self@.constant =~= Seq::new(
                old(self)@.num_attributes as nat,
                |a: int|
                    old(self)@.constant[a] || (attrs@.contains(a as u8) && is_constant(
                        column_of(views, a as u8),
                    )),
            )) by {
                assert forall|a: int| 0 <= a < self.num_attributes implies #[trigger] self.constant_attrs@[a]
                    == (old(self)@.constant[a] || (attrs@.contains(a as u8) && is_constant(
                    column_of(views, a as u8),
                ))) by {
                    let b = a as u8;
                    assert(self.constant_attrs@[b as int] == (old(self).constant_attrs@[b as int]
                        || (attrs@.contains(b) && is_constant(column_of(views, b)))));
                }
            }
        }
    }

    /// Counts a sample that has come, and drops the candidates that it makes void. Says
    /// how many were dropped.
    pub fn add_sample(&mut self, features: &[i64], label: bool) -> (r: usize)
        requires
            old(self).wf(),
        ensures
            final(self).wf(),
            final(self)@ == old(self)@.with_sample(features@, label),
            r == old(self)@.candidates.len() - final(self)@.candidates.len(),
    {
        self.total_samples = raise(self.total_samples, true);
        self.total_positive = raise(self.total_positive, label);
        let ghost before = candidate_views(self.candidates@);
        let ghost s = self.total_samples;
        let ghost p = self.total_positive;
        let mut rest: Vec<AttributeCandidate> = Vec::new();
        core::mem::swap(&mut self.candidates, &mut rest);
        let count: usize = rest.len();
        let mut dropped: usize = 0;
        assert(before.take(0) =~= Seq::<CandidateView>::empty());
        assert(candidate_views(self.candidates@) =~= Seq::<CandidateView>::empty());
        let mut i: usize = 0;
        for candidate in walk: rest
            invariant
                i == walk.index(),
                walk.seq().len() == count == before.len(),
                forall|j: int| 0 <= j < count ==> (#[trigger] walk.seq()[j])@ == before[j],
                forall|j: int| 0 <= j < count ==> score_wf((#[trigger] walk.seq()[j]).best_score),
                self.total_samples == s,
                self.total_positive == p,
                self.num_attributes == old(self).num_attributes,
                self.constant_attrs@ == old(self).constant_attrs@,
                forall|j: int|
                    0 <= j < self.candidates@.len() ==> score_wf(
                        (#[trigger] self.candidates@[j]).best_score,
                    ),
                candidate_views(self.candidates@) == kept_with(
                    before.take(i as int),
                    features@,
                    label,
                    s,
                    p,
                ),
                dropped + self.candidates@.len() == i,
        {
            let mut candidate = candidate;
            assert(candidate@ == before[i as int]);
            let value: i64 = read_value(features, candidate.attr_idx);
            let ghost had = candidate_views(self.candidates@);
            assert(before.take(i as int + 1).drop_last() =~= before.take(i as int));
            assert(before.take(i as int + 1).last() == before[i as int]);
            let broken = candidate.add_sample(
                value,
                label,
                self.total_samples,
                self.total_positive,
            );
            if broken {
                dropped = dropped + 1;
            } else {
                self.candidates.push(candidate);
                assert(candidate_views(self.candidates@) =~= had.push(candidate@));
            }
            i = i + 1;
        }
        assert(before.take(count as int) =~= before);
        dropped
    }

    /// Takes a sample that has gone out of the counts, and drops the candidates that
    /// this makes void. Says how many were dropped.
    pub fn remove_sample(&mut self, features: &[i64], label: bool) -> (r: usize)
        requires
            old(self).wf(),
        ensures
            final(self).wf(),
            final(self)@ == old(self)@.without_sample(features@, label),
            r == old(self)@.candidates.len() - final(self)@.candidates.len(),
    {
        self.total_samples = lower(self.total_samples, true);
        self.total_positive = lower(self.total_positive, label);
        let ghost before = candidate_views(self.candidates@);
        let ghost s = self.total_samples;
        let ghost p = self.total_positive;
        let mut rest: Vec<AttributeCandidate> = Vec::new();
        core::mem::swap(&mut self.candidates, &mut rest);
        let count: usize = rest.len();
        let mut dropped: usize = 0;
        assert(before.take(0) =~= Seq::<CandidateView>::empty());
        assert(candidate_views(self.candidates@) =~= Seq::<CandidateView>::empty());
        let mut i: usize = 0;
        for candidate in walk: rest
            invariant
                i == walk.index(),
                walk.seq().len() == count == before.len(),
                forall|j: int| 0 <= j < count ==> (#[trigger] walk.seq()[j])@ == before[j],
                forall|j: int| 0 <= j < count ==> score_wf((#[trigger] walk.seq()[j]).best_score),
                self.total_samples == s,
                self.total_positive == p,
                self.num_attributes == old(self).num_attributes,
                self.constant_attrs@ == old(self).constant_attrs@,
                forall|j: int|
                    0 <= j < self.candidates@.len() ==> score_wf(
                        (#[trigger] self.candidates@[j]).best_score,
                    ),
                candidate_views(self.candidates@) == kept_without(
                    before.take(i as int),
                    features@,
                    label,
                    s,
                    p,
                ),
                dropped + self.candidates@.len() == i,
        {
            let mut candidate = candidate;
            assert(candidate@ == before[i as int]);
            let value: i64 = read_value(features, candidate.attr_idx);
            let ghost had = candidate_views(self.candidates@);
            assert(before.take(i as int + 1).drop_last() =~= before.take(i as int));
            assert(before.take(i as int + 1).last() == before[i as int]);
            let emptied = candidate.remove_sample(
                value,
                label,
                self.total_samples,
                self.total_positive,
            );
            if emptied {
                dropped = dropped + 1;
            } else {
                self.candidates.push(candidate);
                assert(candidate_views(self.candidates@) =~= had.push(candidate@));
            }
            i = i + 1;
        }
        assert(before.take(count as int) =~= before);
        dropped
    }

    /// The attribute, the threshold and the score of the best split.
    pub fn find_best_split(&self) -> (r: Option<(u8, i64, Fraction)>)
        requires
            self.wf(),
        ensures
            r == best_candidate(self@.candidates),
    {
        let mut best: Option<(u8, i64, Fraction)> = None;
        let mut i: usize = 0;
        let ghost views = candidate_views(self.candidates@);
        assert(views.take(0) =~= Seq::<CandidateView>::empty());
        while i < self.candidates.len()
            invariant
                i <= self.candidates@.len(),
                self.wf(),
                views == candidate_views(self.candidates@),
                best == best_candidate(views.take(i as int)),
                best is Some ==> (best->0).2.wf(),
            decreases self.candidates@.len() - i,
        {
            let candidate = &self.candidates[i];
            assert(views.take(i as int + 1).drop_last() =~= views.take(i as int));
            assert(views.take(i as int + 1).last() == candidate@);
            match candidate.best_score {
                Some(score) => {
                    let lower = match best {
                        None => true,
                        Some(b) => score.is_below(&b.2),
                    };
                    if lower {
                        best = Some((candidate.attr_idx, candidate.best_threshold, score));
                    }
                },
                None => {},
            }
            i = i + 1;
        }
        assert(views.take(i as int) =~= views);
        best
    }

    /// The attribute, the threshold and the score of the best split, and the score of the
    /// second best.
    pub fn top_two_splits(&self) -> (r: (Option<(u8, i64, Fraction)>, Option<Fraction>))
        requires
            self.wf(),
        ensures
            r.0 == best_candidate(self@.candidates),
            r.1 == runner_up(self@.candidates),
    {
        let mut best: Option<(u8, i64, Fraction)> = None;
        let mut second: Option<Fraction> = None;
        let mut i: usize = 0;
        let ghost views = candidate_views(self.candidates@);
        assert(views.take(0) =~= Seq::<CandidateView>::empty());
        while i < self.candidates.len()
            invariant
                i <= self.candidates@.len(),
                self.wf(),
                views == candidate_views(self.candidates@),
                best == best_candidate(views.take(i as int)),
                second == runner_up(views.take(i as int)),
                best is Some ==> (best->0).2.wf(),
                second is Some ==> second->0.wf(),
            decreases self.candidates@.len() - i,
        {
            let candidate = &self.candidates[i];
            assert(views.take(i as int + 1).drop_last() =~= views.take(i as int));
            assert(views.take(i as int + 1).last() == candidate@);
            match candidate.best_score {
                Some(score) => match best {
                    None => {
                        best = Some((candidate.attr_idx, candidate.best_threshold, score));
                        second = None;
                    },
                    Some(b) => {
                        if score.is_below(&b.2) {
                            best = Some((candidate.attr_idx, candidate.best_threshold, score));
                            second = Some(b.2);
                        } else {
                            let lower = match second {
                                None => true,
                                Some(x) => score.is_below(&x),
                            };
                            if lower {
                                second = Some(score);
                            }
                        }
                    },
                },
                None => {},
            }
            i = i + 1;
        }
        assert(views.take(i as int) =~= views);
        (best, second)
    }

    /// Whether a node with these statistics must not be split.
    pub fn should_be_leaf(
        &self,
        min_samples_split: u32,
        max_depth: u32,
        current_depth: u32,
    ) -> (r: bool)
        ensures
            r == (self@.total_samples < min_samples_split || self@.total_positive == 0
                || self@.total_positive == self@.total_samples || current_depth >= max_depth),
    {
        self.total_samples < min_samples_split || self.total_positive == 0 || self.total_positive
            == self.total_samples || current_depth >= max_depth
    }

    /// The number of candidates.
    pub fn num_candidates(&self) -> (r: usize)
        ensures
            r == self@.candidates.len(),
    {
        self.candidates.len()
    }

    /// Forgets everything.
    pub fn reset(&mut self)
        requires
            old(self).wf(),
        ensures
            final(self).wf(),
            final(self)@ == (StatsView {
                num_attributes: old(self)@.num_attributes,
                total_samples: 0,
                total_positive: 0,
                candidates: Seq::empty(),
                constant: Seq::new(old(self)@.num_attributes as nat, |i: int| false),
            }),
    {
        self.total_samples = 0;
        self.total_positive = 0;
        self.candidates = Vec::new();
        self.constant_attrs = no_marks(self.num_attributes);
        assert(self@.candidates =~= Seq::empty());
    }

    /// Sets the totals of a node whose candidates have not been made.
    pub fn set_totals(&mut self, total_samples: u32, total_positive: u32)
        requires
            old(self).wf(),
        ensures
            final(self).wf(),
            final(self)@ == (StatsView { total_samples, total_positive, ..old(self)@ }),
    {
        self.total_samples = total_samples;
        self.total_positive = total_positive;
    }
}

/// One mark for each attribute, none of them set.
fn no_marks(n: u8) -> (r: Vec<bool>)
    ensures
        r@ == Seq::new(n as nat, |i: int| false),
{
    let mut marks: Vec<bool> = Vec::new();
    let mut a: u8 = 0;
    while a < n
        invariant
            a <= n,
            marks@ == Seq::new(a as nat, |i: int| false),
        decreases n - a,
    {
        marks.push(false);
        a = a + 1;
        assert(marks@ =~= Seq::new(a as nat, |i: int| false));
    }
    marks
}

/// What still has to be done at a node.
#[derive(Clone, Copy, Debug, PartialEq, Eq, Structural)]
pub enum DelayTag {
    /// Nothing.
    NoDelay,
    /// The node has samples but no split.
    NeedsBuild,
    /// The split has changed, and the samples have to be divided anew.
    NeedsSeparateAndBuild,
}

impl Default for DelayTag {
    fn default() -> (r: Self)
        ensures
            r == DelayTag::NoDelay,
    {
        DelayTag::NoDelay
    }
}

/// What streaming knows of a node.
#[verifier::ext_equal]
pub struct StateView {
    pub attr_stats: StatsView,
    pub sample_ids: Seq<u64>,
    pub split_attr: Option<u8>,
    pub split_threshold: i64,
    pub delay: DelayTag,
    pub depth: u32,
}

impl StateView {
    /// Whether the best candidate differs from the split in use.
    pub open spec fn split_changed(&self) -> bool {
        &&& self.split_attr is Some
        &&& best_candidate(self.attr_stats.candidates) is Some
        &&& {
            let best = best_candidate(self.attr_stats.candidates)->0;
            best.0 != self.split_attr->0 || distance(best.1, self.split_threshold) > EPSILON
        }
    }
}

/// What streaming knows of a node.
pub struct StreamingNodeState {
    pub attr_stats: AttributeStats,
    /// The samples of the node.
    pub sample_ids: Vec<u64>,
    /// The attribute that the node splits on; none at a leaf.
    pub split_attr: Option<u8>,
    pub split_threshold: i64,
    pub delay: DelayTag,
    /// The number of steps from the root.
    pub depth: u32,
}

impl View for StreamingNodeState {
    type V = StateView;

    open spec fn view(&self) -> StateView {
        StateView {
            attr_stats: self.attr_stats@,
            sample_ids: self.sample_ids@,
            split_attr: self.split_attr,
            split_threshold: self.split_threshold,
            delay: self.delay,
            depth: self.depth,
        }
    }
}

impl StreamingNodeState {
    /// Whether the statistics are in order.
    pub open spec fn wf(&self) -> bool {
        self.attr_stats.wf()
    }

    /// The state of a node without samples, with the generator that a seed starts.
    pub fn new(num_attributes: u8, seed: u64, depth: u32) -> (r: Self)
        ensures
            r.attr_stats.source() == generator(seed),
            r@ == (StateView {
                attr_stats: StatsView {
                    num_attributes,
                    total_samples: 0,
                    total_positive: 0,
                    candidates: Seq::empty(),
                    constant: Seq::new(num_attributes as nat, |i: int| false),
                },
                sample_ids: Seq::empty(),
                split_attr: None,
                split_threshold: 0,
                delay: DelayTag::NeedsBuild,
                depth,
            }),
            r.wf(),
    {
        StreamingNodeState {
            attr_stats: AttributeStats::new(num_attributes, seed),
            sample_ids: Vec::new(),
            split_attr: None,
            split_threshold: 0,
            delay: DelayTag::NeedsBuild,
            depth,
        }
    }

    /// Whether the node has no split.
    pub fn is_leaf(&self) -> (r: bool)
        ensures
            r == (self@.split_attr is None),
    {
        self.split_attr.is_none()
    }

    /// Whether the best candidate differs from the split in use.
    pub fn best_split_changed(&self) -> (r: bool)
        requires
            self.wf(),
        ensures
            r == self@.split_changed(),
    {
        match self.split_attr {
            Some(current) => match self.attr_stats.find_best_split() {
                Some((attr, threshold, _)) => attr != current || is_apart(
                    threshold,
                    self.split_threshold,
                ),
                None => false,
            },
            None => false,
        }
    }
}

} // verus!
