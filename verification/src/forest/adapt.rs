//! How many trees the samples of a class are put into, by how rare the class is.

use super::learn::{all_full, forest_fitted};
use super::DynFrsForest;
use crate::fraction::Fraction;
use crate::sample::VecSample;
use vstd::prelude::*;

pub mod laws;

verus! {

/// The unit that thresholds are counted in.
pub const THRESHOLD_ONE: i64 = 1_000_000_000;

/// How the number of trees follows from the share of a class.
#[derive(Clone, Copy, Debug)]
pub struct AdaptiveKConfig {
    /// The number of trees for a common class.
    pub k_min: usize,
    /// The number of trees for a rare class.
    pub k_max: usize,
    /// The share from which on a class is common, in parts of 10^9.
    pub ratio_threshold: i64,
    /// The share below which a class is rare, in parts of 10^9.
    pub extreme_threshold: i64,
}

impl Default for AdaptiveKConfig {
    fn default() -> (r: Self)
        ensures
            r.wf(),
            r.k_min == 3,
            r.k_max == 50,
            r.ratio_threshold == 300_000_000,
            r.extreme_threshold == 10_000_000,
    {
        AdaptiveKConfig {
            k_min: 3,
            k_max: 50,
            ratio_threshold: 300_000_000,
            extreme_threshold: 10_000_000,
        }
    }
}

/// Whether a fraction is the share of a class.
pub open spec fn is_class_share(f: Fraction) -> bool {
    0 <= f.num <= f.den && 0 < f.den <= 2 * u64::MAX
}

/// A quotient, rounded to the nearest whole number, halves up.
pub open spec fn rounded(num: int, den: int) -> int {
    (2 * num + den) / (2 * den)
}

impl AdaptiveKConfig {
    /// Whether a rare class gets no fewer trees than a common one, and the share from
    /// which on a class is common is a share.
    pub open spec fn wf(&self) -> bool {
        &&& self.k_min <= self.k_max
        &&& 0 <= self.ratio_threshold
    }

    /// Tells whether a rare class gets no fewer trees than a common one, and the share
    /// from which on a class is common is a share.
    pub fn is_valid(&self) -> (r: bool)
        ensures
            r == self.wf(),
    {
        self.k_min <= self.k_max && 0 <= self.ratio_threshold
    }

    /// The number of trees for a class with a share: all that there may be below the
    /// extreme threshold, as few as there may be from the other threshold on, and
    /// falling evenly in between.
    pub open spec fn k_at(&self, share: Fraction) -> int {
        let n = share.num * THRESHOLD_ONE;
        let d = share.den * self.ratio_threshold;
        if n < self.extreme_threshold * share.den {
            self.k_max as int
        } else if n >= d {
            self.k_min as int
        } else {
            rounded(self.k_max * d - (self.k_max - self.k_min) * n, d)
        }
    }

    /// Computes the number of trees for a class with a share.
    pub fn compute_k(&self, class_ratio: Fraction) -> (r: usize)
        requires
            self.wf(),
            is_class_share(class_ratio),
        ensures
            r == self.k_at(class_ratio),
            self.k_min <= r <= self.k_max,
    {
        proof {
            lemma_k_range(*self, class_ratio);
        }
        let den: u128 = class_ratio.den;
        let n: u128 = class_ratio.num as u128 * THRESHOLD_ONE as u128;
        let d: u128 = den * self.ratio_threshold as u128;
        if self.extreme_threshold > 0 && n < self.extreme_threshold as u128 * den {
            return self.k_max;
        }
        proof {
            if self.extreme_threshold <= 0 {
                let e = self.extreme_threshold as int;
                assert(e * den <= 0) by (nonlinear_arith)
                    requires
                        e <= 0,
                        den > 0,
                ;
            }
        }
        if n >= d {
            return self.k_min;
        }
        let range: usize = self.k_max - self.k_min;
        let (whole, rest) = scaled(range as u64, n, d);
        let k: usize = self.k_max - whole as usize;
        proof {
            let above = self.k_max * d - range * n;
            assert(above == (self.k_max - whole) * d - rest) by (nonlinear_arith)
                requires
                    above == self.k_max * d - range * n,
                    whole * d + rest == range * n,
            ;
            lemma_rounded_down(
                self.k_max * d - range * n,
                d as int,
                self.k_max - whole,
                rest as int,
            );
        }
        if rest > d - rest {
            k - 1
        } else {
            k
        }
    }
}

/// The product of a number and a quotient that is at most one: the whole part, and what
/// the divisor leaves over.
fn scaled(a: u64, num: u128, den: u128) -> (r: (u128, u128))
    requires
        num <= den,
        den > 0,
    ensures
        r.0 * den + r.1 == a * num,
        r.1 < den,
        r.0 <= a,
    decreases a,
{
    if a == 0 {
        assert(0 * den == 0 && 0 * num == 0) by (nonlinear_arith);
        return (0, 0);
    }
    let half: u64 = a / 2;
    let (w, s) = scaled(half, num, den);
    let (mut whole, mut rest): (u128, u128) = if s >= den - s {
        (2 * w + 1, s - (den - s))
    } else {
        (2 * w, s + s)
    };
    proof {
        assert(whole * den + rest == 2 * (half * num)) by (nonlinear_arith)
            requires
                w * den + s == half * num,
                (whole == 2 * w + 1 && rest == 2 * s - den) || (whole == 2 * w && rest == 2 * s),
        ;
    }
    let ghost twice: int = 2 * half;
    assert(2 * (half * num) == twice * num) by (nonlinear_arith)
        requires
            twice == 2 * half,
    ;
    if a % 2 == 1 {
        let ghost (w2, s2) = (whole as int, rest as int);
        if rest >= den - num {
            whole = whole + 1;
            rest = rest - (den - num);
        } else {
            rest = rest + num;
        }
        assert(whole * den + rest == (twice + 1) * num) by (nonlinear_arith)
            requires
                w2 * den + s2 == twice * num,
                (whole == w2 + 1 && rest == s2 - (den - num)) || (whole == w2 && rest == s2 + num),
        ;
    }
    assert(whole * den + rest == a * num);
    assert(whole <= a) by (nonlinear_arith)
        requires
            whole * den + rest == a * num,
            num <= den,
            den > 0,
            rest >= 0,
            a >= 0,
    ;
    (whole, rest)
}

/// A quotient that falls short of a whole number is rounded to it, or to the one below.
proof fn lemma_rounded_down(num: int, den: int, whole: int, short: int)
    requires
        num == whole * den - short,
        0 <= short < den,
    ensures
        rounded(num, den) == (if 2 * short > den {
            whole - 1
        } else {
            whole
        }),
{
    let q = if 2 * short > den {
        whole - 1
    } else {
        whole
    };
    let r = 2 * num + den - q * (2 * den);
    assert(0 <= r < 2 * den) by (nonlinear_arith)
        requires
            num == whole * den - short,
            0 <= short < den,
            2 * short > den ==> q == whole - 1,
            2 * short <= den ==> q == whole,
            r == 2 * num + den - q * (2 * den),
    ;
    vstd::arithmetic::div_mod::lemma_fundamental_div_mod_converse(
        2 * num + den,
        2 * den,
        q,
        r,
    );
}

/// A quotient that exceeds a whole number is rounded to it, or to the one above.
proof fn lemma_rounded_up(num: int, den: int, whole: int, over: int)
    requires
        num == whole * den + over,
        0 <= over < den,
    ensures
        rounded(num, den) == (if 2 * over >= den {
            whole + 1
        } else {
            whole
        }),
{
    let q = if 2 * over >= den {
        whole + 1
    } else {
        whole
    };
    let r = 2 * num + den - q * (2 * den);
    assert(0 <= r < 2 * den) by (nonlinear_arith)
        requires
            num == whole * den + over,
            0 <= over < den,
            2 * over >= den ==> q == whole + 1,
            2 * over < den ==> q == whole,
            r == 2 * num + den - q * (2 * den),
    ;
    vstd::arithmetic::div_mod::lemma_fundamental_div_mod_converse(
        2 * num + den,
        2 * den,
        q,
        r,
    );
}

/// How large the numbers get that the number of trees is computed from.
proof fn lemma_k_range(config: AdaptiveKConfig, share: Fraction)
    requires
        config.wf(),
        is_class_share(share),
    ensures
        ({
            let n = share.num * THRESHOLD_ONE;
            let d = share.den * config.ratio_threshold;
            let range = config.k_max - config.k_min;
            let above = config.k_max * d - range * n;
            &&& 0 <= n <= u128::MAX
            &&& 0 <= d <= u128::MAX
            &&& config.extreme_threshold > 0 ==> 0 <= config.extreme_threshold * share.den
                <= u128::MAX
            &&& n < d ==> config.k_min <= rounded(above, d) <= config.k_max
        }),
{
    let n = share.num * THRESHOLD_ONE;
    let d = share.den * config.ratio_threshold;
    let range = config.k_max - config.k_min;
    let above = config.k_max * d - range * n;
    lemma_wide(share.num as int, THRESHOLD_ONE as int);
    lemma_wide(share.den as int, config.ratio_threshold as int);
    if config.extreme_threshold > 0 {
        lemma_wide(share.den as int, config.extreme_threshold as int);
        assert(config.extreme_threshold * share.den == share.den * config.extreme_threshold)
            by (nonlinear_arith);
    }
    if n < d {
        assert(config.k_min * d <= above <= config.k_max * d) by (nonlinear_arith)
            requires
                0 <= n < d,
                range == config.k_max - config.k_min,
                range >= 0,
                above == config.k_max * d - range * n,
        ;
        lemma_rounded_between(above, d, config.k_min as int, config.k_max as int);
    }
}

/// The product of a count and a threshold has 128 bits.
proof fn lemma_wide(a: int, b: int)
    by (nonlinear_arith)
    requires
        0 <= a <= 2 * 0xffff_ffff_ffff_ffff,
        0 <= b <= 0x7fff_ffff_ffff_ffff,
    ensures
        0 <= a * b <= 0xffff_ffff_ffff_ffff_ffff_ffff_ffff_ffff,
{
}

/// A quotient between two whole numbers stays between them when it is rounded.
proof fn lemma_rounded_between(num: int, den: int, low: int, high: int)
    requires
        den > 0,
        low * den <= num <= high * den,
    ensures
        low <= rounded(num, den) <= high,
{
    let q = rounded(num, den);
    let r = (2 * num + den) % (2 * den);
    assert(2 * num + den == q * (2 * den) + r && 0 <= r < 2 * den) by (nonlinear_arith)
        requires
            den > 0,
            q == (2 * num + den) / (2 * den),
            r == (2 * num + den) % (2 * den),
    ;
    assert(low <= q <= high) by (nonlinear_arith)
        requires
            den > 0,
            low * den <= num <= high * den,
            2 * num + den == q * (2 * den) + r,
            0 <= r < 2 * den,
    ;
}

/// Rounding keeps the order of quotients.
proof fn lemma_rounded_order(a: int, b: int, c: int, d: int)
    requires
        b > 0,
        d > 0,
        a * d >= c * b,
    ensures
        rounded(a, b) >= rounded(c, d),
{
    let p = 2 * a + b;
    let q = 2 * c + d;
    let x = p / (2 * b);
    let y = q / (2 * d);
    let s = p % (2 * b);
    let t = q % (2 * d);
    assert(p == x * (2 * b) + s && 0 <= s < 2 * b) by (nonlinear_arith)
        requires
            b > 0,
            x == p / (2 * b),
            s == p % (2 * b),
    ;
    assert(q == y * (2 * d) + t && 0 <= t < 2 * d) by (nonlinear_arith)
        requires
            d > 0,
            y == q / (2 * d),
            t == q % (2 * d),
    ;
    assert(p * d >= q * b) by (nonlinear_arith)
        requires
            p == 2 * a + b,
            q == 2 * c + d,
            a * d >= c * b,
    ;
    assert((x * (2 * b) + s) * d >= (y * (2 * d) + t) * b);
    assert(x >= y) by (nonlinear_arith)
        requires
            b > 0,
            d > 0,
            0 <= s < 2 * b,
            0 <= t < 2 * d,
            (x * (2 * b) + s) * d >= (y * (2 * d) + t) * b,
    {
        if x < y {
            assert(x + 1 <= y);
            assert((x * (2 * b) + s) * d < (x + 1) * (2 * b) * d);
            assert((x + 1) * (2 * b) * d <= y * (2 * b) * d);
            assert(y * (2 * b) * d == y * (2 * d) * b);
            assert(t * b >= 0);
        }
    }
}

/// The rarer a class is, the more trees its samples are put into; never fewer than the
/// smallest number and never more than the largest one.
pub proof fn law_rarer_gets_more(config: AdaptiveKConfig, rare: Fraction, common: Fraction)
    requires
        config.wf(),
        is_class_share(rare),
        is_class_share(common),
        !common.below(&rare),
    ensures
        config.k_min <= config.k_at(common) <= config.k_at(rare) <= config.k_max,
{
    lemma_k_range(config, rare);
    lemma_k_range(config, common);
    let one = THRESHOLD_ONE as int;
    let (a, b) = (rare.num as int, rare.den as int);
    let (c, d) = (common.num as int, common.den as int);
    let n1 = a * one;
    let n2 = c * one;
    let t = config.ratio_threshold as int;
    let e = config.extreme_threshold as int;
    assert(n1 * d <= n2 * b) by (nonlinear_arith)
        requires
            a * d <= c * b,
            n1 == a * one,
            n2 == c * one,
            one > 0,
    ;
    if n2 < e * d {
        assert(n1 < e * b) by (nonlinear_arith)
            requires
                n1 * d <= n2 * b,
                n2 < e * d,
                b > 0,
                d > 0,
        ;
    }
    if n1 >= b * t {
        assert(n2 >= d * t) by (nonlinear_arith)
            requires
                n1 * d <= n2 * b,
                n1 >= b * t,
                b > 0,
                d > 0,
        ;
    }
    if n1 < b * t && n2 < d * t {
        let range = config.k_max - config.k_min;
        let x = config.k_max * (b * t) - range * n1;
        let y = config.k_max * (d * t) - range * n2;
        assert(x * (d * t) >= y * (b * t)) by (nonlinear_arith)
            requires
                x == config.k_max * (b * t) - range * n1,
                y == config.k_max * (d * t) - range * n2,
                n1 * d <= n2 * b,
                range >= 0,
                t >= 0,
        {
            assert((range * n1) * (d * t) <= (range * n2) * (b * t)) by (nonlinear_arith)
                requires
                    n1 * d <= n2 * b,
                    range >= 0,
                    t >= 0,
            {
                assert((range * t) * (n1 * d) <= (range * t) * (n2 * b)) by (nonlinear_arith)
                    requires
                        n1 * d <= n2 * b,
                        range >= 0,
                        t >= 0,
                ;
                assert((range * n1) * (d * t) == (range * t) * (n1 * d)) by (nonlinear_arith);
                assert((range * n2) * (b * t) == (range * t) * (n2 * b)) by (nonlinear_arith);
            }
            assert((config.k_max * (b * t)) * (d * t) == (config.k_max * (d * t)) * (b * t))
                by (nonlinear_arith);
            assert(x * (d * t) == (config.k_max * (b * t)) * (d * t) - (range * n1) * (d * t))
                by (nonlinear_arith)
                requires
                    x == config.k_max * (b * t) - range * n1,
            ;
            assert(y * (b * t) == (config.k_max * (d * t)) * (b * t) - (range * n2) * (b * t))
                by (nonlinear_arith)
                requires
                    y == config.k_max * (d * t) - range * n2,
            ;
        }
        lemma_rounded_order(x, b * t, y, d * t);
    }
}

/// How many trees the samples of each class are put into, and the counts that this is
/// decided by.
#[derive(Clone, Copy, Debug)]
pub struct Tuning {
    /// How the numbers follow from the shares of the classes, if they do.
    pub adaptive: Option<AdaptiveKConfig>,
    /// The number of trees for a positive sample.
    pub positive_k: Option<usize>,
    /// The number of trees for a negative sample.
    pub negative_k: Option<usize>,
    /// The negative samples that have come and not gone.
    pub negatives: u64,
    /// The positive samples that have come and not gone.
    pub positives: u64,
    /// After how many samples the numbers are adapted.
    pub interval: u64,
    /// How many samples have come since the numbers were adapted.
    pub since: u64,
}

/// A count after one more, up to what a count can hold.
pub open spec fn one_more(n: u64) -> u64 {
    if n < u64::MAX {
        (n + 1) as u64
    } else {
        n
    }
}

/// A count after one less, down to zero.
pub open spec fn one_less(n: u64) -> u64 {
    if n > 0 {
        (n - 1) as u64
    } else {
        0
    }
}

impl Tuning {
    /// Whether the rule that the numbers follow from is in order.
    pub open spec fn wf(&self) -> bool {
        self.adaptive matches Some(config) ==> config.wf()
    }

    /// Nothing has been set or counted.
    pub open spec fn untouched() -> Tuning {
        Tuning {
            adaptive: None,
            positive_k: None,
            negative_k: None,
            negatives: 0,
            positives: 0,
            interval: 100,
            since: 0,
        }
    }

    /// The number of trees for a sample of a class, if it has been set.
    pub open spec fn class_k(&self, label: bool) -> Option<usize> {
        if label {
            self.positive_k
        } else {
            self.negative_k
        }
    }

    /// The numbers after they have been adapted to the share of the positive class.
    pub open spec fn adapted(&self, share: Fraction) -> Tuning {
        match self.adaptive {
            Some(config) => Tuning {
                positive_k: Some(config.k_at(share) as usize),
                negative_k: Some(config.k_at(rest_of(share)) as usize),
                ..*self
            },
            None => *self,
        }
    }

    /// The numbers after they have been adapted to what was counted.
    pub open spec fn adapted_to_counts(&self) -> Tuning {
        if self.negatives + self.positives == 0 {
            *self
        } else {
            self.adapted(
                Fraction {
                    num: self.positives as i128,
                    den: (self.negatives + self.positives) as u128,
                },
            )
        }
    }

    /// What a sample that comes does: it is counted, and after every so many samples the
    /// numbers are adapted.
    pub open spec fn counted(&self, label: bool) -> Tuning {
        let one = Tuning {
            positives: if label {
                one_more(self.positives)
            } else {
                self.positives
            },
            negatives: if label {
                self.negatives
            } else {
                one_more(self.negatives)
            },
            since: one_more(self.since),
            ..*self
        };
        if one.since >= one.interval {
            Tuning { since: 0, ..one.adapted_to_counts() }
        } else {
            one
        }
    }

    /// What a sample that goes does.
    pub open spec fn uncounted(&self, label: bool) -> Tuning {
        if label {
            Tuning { positives: one_less(self.positives), ..*self }
        } else {
            Tuning { negatives: one_less(self.negatives), ..*self }
        }
    }

    /// The numbers after the counts of the samples that a forest starts with have been
    /// taken over, of which a share is positive.
    pub open spec fn started(&self, share: Fraction, total: int) -> Tuning {
        let positives = rounded(total * share.num, share.den as int);
        (Tuning { positives: positives as u64, negatives: (total - positives) as u64, ..*self })
            .adapted(share)
    }

    /// Nothing has been set or counted.
    pub(super) fn new() -> (r: Self)
        ensures
            r == Self::untouched(),
            r.wf(),
    {
        Tuning {
            adaptive: None,
            positive_k: None,
            negative_k: None,
            negatives: 0,
            positives: 0,
            interval: 100,
            since: 0,
        }
    }

    /// The number of trees for a sample of a class, if it has been set.
    pub(super) fn k_of_class(&self, label: bool) -> (r: Option<usize>)
        ensures
            r == self.class_k(label),
    {
        if label {
            self.positive_k
        } else {
            self.negative_k
        }
    }

    /// Adapts the numbers to the share of the positive class.
    fn adapt(&self, share: Fraction) -> (r: Self)
        requires
            self.wf(),
            is_class_share(share),
        ensures
            r == self.adapted(share),
            r.wf(),
    {
        match self.adaptive {
            Some(config) => {
                let positive: usize = config.compute_k(share);
                let negative: usize = config.compute_k(
                    Fraction { num: share.den as i128 - share.num, den: share.den },
                );
                Tuning { positive_k: Some(positive), negative_k: Some(negative), ..*self }
            },
            None => *self,
        }
    }

    /// Adapts the numbers to what was counted.
    fn adapt_to_counts(&self) -> (r: Self)
        requires
            self.wf(),
        ensures
            r == self.adapted_to_counts(),
            r.wf(),
    {
        let total: u128 = self.negatives as u128 + self.positives as u128;
        if total == 0 {
            return *self;
        }
        self.adapt(Fraction { num: self.positives as i128, den: total })
    }

    /// Counts a sample that comes.
    pub(super) fn count_in(&self, label: bool) -> (r: Self)
        requires
            self.wf(),
        ensures
            r == self.counted(label),
            r.wf(),
    {
        let mut r = *self;
        if label {
            r.positives = r.positives.saturating_add(1);
        } else {
            r.negatives = r.negatives.saturating_add(1);
        }
        r.since = r.since.saturating_add(1);
        if r.since >= r.interval {
            r = r.adapt_to_counts();
            r.since = 0;
        }
        r
    }

    /// Counts a sample that goes.
    pub(super) fn count_out(&self, label: bool) -> (r: Self)
        ensures
            r == self.uncounted(label),
            self.wf() ==> r.wf(),
    {
        let mut r = *self;
        if label {
            r.positives = r.positives.saturating_sub(1);
        } else {
            r.negatives = r.negatives.saturating_sub(1);
        }
        r
    }
}

/// What a share leaves over.
pub open spec fn rest_of(share: Fraction) -> Fraction {
    Fraction { num: (share.den - share.num) as i128, den: share.den }
}

/// Nothing but the tuning of a forest has changed.
pub open spec fn retuned(before: DynFrsForest, after: DynFrsForest, tuning: Tuning) -> bool {
    &&& after.same_setting(&before)
    &&& after.forest() == before.forest()
    &&& after.members() == before.members()
    &&& after.classes() == before.classes()
    &&& after.marks() == before.marks()
    &&& after.source() == before.source()
    &&& after.asked() == before.asked()
    &&& after.tuning() == tuning
}

/// Whether the numbers of trees have been adapted to the share of the positive class, and
/// a forest has then been grown anew from samples.
pub open spec fn weighted_fitted(
    before: DynFrsForest,
    after: DynFrsForest,
    samples: Seq<VecSample>,
    share: Fraction,
) -> bool {
    exists|tuned: DynFrsForest| #[trigger]
        retuned(before, tuned, before.tuning().adapted(share)) && forest_fitted(
            tuned,
            after,
            samples,
            Seq::new(samples.len(), |i: int| tuned.k_now(samples[i].label)),
        )
}

impl DynFrsForest {
    /// Replaces the tuning.
    fn retune(&mut self, tuning: Tuning)
        requires
            old(self).wf(),
            tuning.wf(),
        ensures
            final(self).wf(),
            retuned(*old(self), *final(self), tuning),
    {
        self.tuning = tuning;
        assert forall|i: int| 0 <= i < self.forest().len() implies self.fits_in(
            #[trigger] self.forest()[i],
            i,
        ) by {
            assert(old(self).fits_in(old(self).forest()[i], i));
        }
    }

    /// Lets the numbers of trees follow from the shares of the classes.
    pub fn set_adaptive_k_config(&mut self, config: AdaptiveKConfig)
        requires
            old(self).wf(),
            config.wf(),
        ensures
            final(self).wf(),
            retuned(
                *old(self),
                *final(self),
                (Tuning { adaptive: Some(config), ..old(self).tuning() }),
            ),
    {
        let tuning = Tuning { adaptive: Some(config), ..self.tuning };
        self.retune(tuning);
    }

    /// Sets the number of trees for the samples of a class.
    pub fn set_class_k(&mut self, label: bool, k: usize)
        requires
            old(self).wf(),
        ensures
            final(self).wf(),
            retuned(
                *old(self),
                *final(self),
                if label {
                    (Tuning { positive_k: Some(k), ..old(self).tuning() })
                } else {
                    (Tuning { negative_k: Some(k), ..old(self).tuning() })
                },
            ),
    {
        let tuning = if label {
            Tuning { positive_k: Some(k), ..self.tuning }
        } else {
            Tuning { negative_k: Some(k), ..self.tuning }
        };
        self.retune(tuning);
    }

    /// The number of trees for the samples of a class, if it has been set.
    pub fn get_class_k(&self, label: bool) -> (r: Option<usize>)
        ensures
            r == self.tuning().class_k(label),
    {
        self.tuning.k_of_class(label)
    }

    /// Adapts the numbers of trees to the share of the positive class, if they are to
    /// follow it.
    pub fn update_class_k_from_distribution(&mut self, positive_ratio: Fraction)
        requires
            old(self).wf(),
            is_class_share(positive_ratio),
        ensures
            final(self).wf(),
            retuned(*old(self), *final(self), old(self).tuning().adapted(positive_ratio)),
    {
        let tuning = self.tuning.adapt(positive_ratio);
        self.retune(tuning);
    }

    /// Adapts the numbers of trees to the samples that have been counted.
    pub fn update_streaming_class_k(&mut self)
        requires
            old(self).wf(),
        ensures
            final(self).wf(),
            retuned(*old(self), *final(self), old(self).tuning().adapted_to_counts()),
    {
        let tuning = self.tuning.adapt_to_counts();
        self.retune(tuning);
    }

    /// Sets after how many samples the numbers of trees are adapted.
    pub fn set_streaming_k_update_interval(&mut self, interval: u64)
        requires
            old(self).wf(),
        ensures
            final(self).wf(),
            retuned(*old(self), *final(self), (Tuning { interval, ..old(self).tuning() })),
    {
        let tuning = Tuning { interval, ..self.tuning };
        self.retune(tuning);
    }

    /// Starts counting samples again.
    pub fn reset_streaming_stats(&mut self)
        requires
            old(self).wf(),
        ensures
            final(self).wf(),
            retuned(
                *old(self),
                *final(self),
                (Tuning { negatives: 0, positives: 0, since: 0, ..old(self).tuning() }),
            ),
    {
        let tuning = Tuning { negatives: 0, positives: 0, since: 0, ..self.tuning };
        self.retune(tuning);
    }

    /// Adapts the numbers of trees to the share of the positive class among the samples
    /// that the forest starts with.
    pub fn init_streaming_class_k(&mut self, positive_ratio: Fraction)
        requires
            old(self).wf(),
            is_class_share(positive_ratio),
        ensures
            final(self).wf(),
            retuned(*old(self), *final(self), old(self).tuning().adapted(positive_ratio)),
    {
        self.update_class_k_from_distribution(positive_ratio);
    }

    /// Takes over the counts of the samples that the forest starts with, and adapts the
    /// numbers of trees to the share of the positive class among them.
    pub fn init_streaming_class_k_with_counts(
        &mut self,
        positive_ratio: Fraction,
        total_samples: u64,
    )
        requires
            old(self).wf(),
            is_class_share(positive_ratio),
        ensures
            final(self).wf(),
            retuned(
                *old(self),
                *final(self),
                old(self).tuning().started(positive_ratio, total_samples as int),
            ),
    {
        let num: u128 = positive_ratio.num as u128;
        let den: u128 = positive_ratio.den;
        let (whole, rest) = scaled(total_samples, num, den);
        proof {
            lemma_rounded_up(total_samples * num, den as int, whole as int, rest as int);
            assert(0 * den <= total_samples * num <= total_samples * den) by (nonlinear_arith)
                requires
                    0 <= total_samples,
                    0 <= num <= den,
            ;
            lemma_rounded_between(
                total_samples * num,
                den as int,
                0,
                total_samples as int,
            );
        }
        let positives: u64 = if rest >= den - rest {
            (whole + 1) as u64
        } else {
            whole as u64
        };
        let negatives: u64 = total_samples - positives;
        let counted = Tuning { positives, negatives, ..self.tuning };
        let tuning = counted.adapt(positive_ratio);
        self.retune(tuning);
    }

    /// Grows the forest anew from samples, each in as many trees as has been set for its
    /// class.
    pub fn fit_adaptive(&mut self, samples: &[VecSample])
        requires
            old(self).wf(),
            samples@.len() <= u32::MAX,
            all_full(samples@, old(self).width()),
        ensures
            final(self).wf(),
            forest_fitted(
                *old(self),
                *final(self),
                samples@,
                Seq::new(samples@.len(), |i: int| old(self).k_now(samples@[i].label)),
            ),
    {
        let mut ks: Vec<usize> = Vec::new();
        let mut i: usize = 0;
        while i < samples.len()
            invariant
                i <= samples@.len(),
                ks@ == Seq::new(i as nat, |j: int| self.k_now(samples@[j].label)),
            decreases samples@.len() - i,
        {
            let label: bool = samples[i].label;
            let k: usize = match self.tuning.k_of_class(label) {
                Some(k) => k,
                None => self.k_for_label(label),
            };
            ks.push(k);
            i = i + 1;
            assert(ks@ =~= Seq::new(i as nat, |j: int| self.k_now(samples@[j].label)));
        }
        self.fit_internal(samples, ks.as_slice());
        assert(ks@ =~= Seq::new(samples@.len(), |i: int| old(self).k_now(samples@[i].label)));
    }

    /// Adapts the numbers of trees to the share of the positive class, and grows the
    /// forest anew from samples.
    pub fn fit_weighted(&mut self, samples: &[VecSample], positive_ratio: Fraction)
        requires
            old(self).wf(),
            samples@.len() <= u32::MAX,
            all_full(samples@, old(self).width()),
            is_class_share(positive_ratio),
        ensures
            final(self).wf(),
            weighted_fitted(*old(self), *final(self), samples@, positive_ratio),
    {
        self.update_class_k_from_distribution(positive_ratio);
        let ghost tuned = *self;
        self.fit_adaptive(samples);
        assert(retuned(*old(self), tuned, old(self).tuning().adapted(positive_ratio)));
    }
}

} // verus!
