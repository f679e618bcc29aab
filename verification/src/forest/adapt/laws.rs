//! What holds of the numbers of trees that samples are put into.

use super::{is_class_share, law_rarer_gets_more, lemma_k_range, AdaptiveKConfig, Tuning};
use crate::forest::DynFrsForest;
use crate::fraction::Fraction;
use vstd::prelude::*;

verus! {

/// The number of trees for a class with a share: the largest one for a share below the
/// extreme threshold, the smallest one from the other threshold on, and in between that
/// which is nearest to the straight line from the largest one at no share to the smallest
/// one at the threshold.
pub proof fn law_number_falls_evenly(config: AdaptiveKConfig, share: Fraction)
    requires
        config.wf(),
        is_class_share(share),
    ensures
        ({
            let k = config.k_at(share);
            let part = share.num * 1_000_000_000;
            let whole = share.den * config.ratio_threshold;
            let line = config.k_max * whole - (config.k_max - config.k_min) * part;
            if part < config.extreme_threshold * share.den {
                k == config.k_max
            } else if part >= whole {
                k == config.k_min
            } else {
                2 * (k * whole) - whole <= 2 * line < 2 * (k * whole) + whole
            }
        }),
{
    let k = config.k_at(share);
    let part = share.num * 1_000_000_000;
    let whole = share.den * config.ratio_threshold;
    let line = config.k_max * whole - (config.k_max - config.k_min) * part;
    lemma_k_range(config, share);
    if !(part < config.extreme_threshold * share.den) && part < whole {
        let n = 2 * line + whole;
        let d = 2 * whole;
        assert(k == n / d);
        vstd::arithmetic::div_mod::lemma_fundamental_div_mod(n, d);
        assert(d * k == 2 * (k * whole)) by (nonlinear_arith)
            requires
                d == 2 * whole,
        ;
    }
}

/// A sample that comes is counted in its class alone. Only after every so many samples the
/// numbers of trees are adapted, each to the share that its class then has.
pub proof fn law_numbers_follow_counts(t: Tuning, label: bool)
    requires
        t.positives < u64::MAX,
        t.negatives < u64::MAX,
        t.since < u64::MAX,
    ensures
        ({
            let after = t.counted(label);
            let plus = t.positives + (if label {
                1int
            } else {
                0
            });
            let minus = t.negatives + (if label {
                0int
            } else {
                1
            });
            &&& after.positives == plus
            &&& after.negatives == minus
            &&& after.adaptive == t.adaptive
            &&& after.interval == t.interval
            &&& if t.since + 1 < t.interval {
                &&& after.since == t.since + 1
                &&& after.positive_k == t.positive_k
                &&& after.negative_k == t.negative_k
            } else {
                &&& after.since == 0
                &&& t.adaptive is None ==> after.positive_k == t.positive_k && after.negative_k
                    == t.negative_k
                &&& t.adaptive matches Some(config) ==> after.positive_k == Some(
                    config.k_at(
                        Fraction { num: plus as i128, den: (plus + minus) as u128 },
                    ) as usize,
                ) && after.negative_k == Some(
                    config.k_at(
                        Fraction { num: minus as i128, den: (plus + minus) as u128 },
                    ) as usize,
                )
            }
        }),
{
    let after = t.counted(label);
    let total = after.positives + after.negatives;
    assert(total - after.positives == after.negatives);
}

/// A sample that goes is no longer counted: that undoes what its coming has counted.
pub proof fn law_uncounting_undoes_counting(t: Tuning, label: bool)
    requires
        t.positives < u64::MAX,
        t.negatives < u64::MAX,
    ensures
        t.counted(label).uncounted(label).positives == t.positives,
        t.counted(label).uncounted(label).negatives == t.negatives,
        t.uncounted(label).positive_k == t.positive_k,
        t.uncounted(label).negative_k == t.negative_k,
        t.uncounted(label).since == t.since,
{
}

/// Adapted to the share of the positive class, no class gets more trees than one that is
/// as rare or rarer; and both numbers lie between the smallest and the largest one.
pub proof fn law_rarer_class_gets_more_trees(t: Tuning, config: AdaptiveKConfig, share: Fraction)
    requires
        t.adaptive == Some(config),
        config.wf(),
        is_class_share(share),
    ensures
        ({
            let after = t.adapted(share);
            &&& after.positive_k is Some
            &&& after.negative_k is Some
            &&& config.k_min <= after.positive_k->0 <= config.k_max
            &&& config.k_min <= after.negative_k->0 <= config.k_max
            &&& 2 * share.num <= share.den ==> after.positive_k->0 >= after.negative_k->0
            &&& 2 * share.num >= share.den ==> after.positive_k->0 <= after.negative_k->0
        }),
{
    let rest = Fraction { num: (share.den - share.num) as i128, den: share.den };
    let x = share.num as int;
    let y = rest.num as int;
    let d = share.den as int;
    assert(x <= y ==> x * d <= y * d) by (nonlinear_arith)
        requires
            d > 0,
    ;
    assert(y <= x ==> y * d <= x * d) by (nonlinear_arith)
        requires
            d > 0,
    ;
    if 2 * share.num <= share.den {
        law_rarer_gets_more(config, share, rest);
    }
    if 2 * share.num >= share.den {
        law_rarer_gets_more(config, rest, share);
    }
}

/// A forest that starts with samples takes over counts that make up all of them and come
/// nearest to the share.
pub proof fn law_start_counts_all(t: Tuning, share: Fraction, total: u64)
    requires
        is_class_share(share),
    ensures
        ({
            let after = t.started(share, total as int);
            &&& after.positives + after.negatives == total
            &&& 2 * (after.positives * share.den) - share.den <= 2 * (total * share.num) < 2 * (
            after.positives * share.den) + share.den
        }),
{
    let n = total * share.num;
    let d = share.den as int;
    let k = (2 * n + d) / (2 * d);
    vstd::arithmetic::div_mod::lemma_fundamental_div_mod(2 * n + d, 2 * d);
    assert((2 * d) * k == 2 * (k * d)) by (nonlinear_arith);
    assert(0 <= n <= total * d) by (nonlinear_arith)
        requires
            n == total * share.num,
            0 <= share.num <= d,
            0 <= total,
    ;
    assert(0 <= k <= total) by {
        let w = total as int;
        assert(k <= w) by (nonlinear_arith)
            requires
                2 * (k * d) <= 2 * n + d,
                n <= w * d,
                d > 0,
        ;
        assert(k >= 0) by (nonlinear_arith)
            requires
                2 * n + d < 2 * (k * d) + 2 * d,
                n >= 0,
                d > 0,
        ;
    }
}

/// The number that has been set for a class goes before the configured one; and the
/// configured one is that of the smaller class for positive samples, if there is one.
pub proof fn law_set_number_goes_first(forest: DynFrsForest, label: bool)
    ensures
        label && forest.tuning().positive_k is Some ==> forest.k_now(label)
            == forest.tuning().positive_k->0,
        !label && forest.tuning().negative_k is Some ==> forest.k_now(label)
            == forest.tuning().negative_k->0,
        label && forest.tuning().positive_k is None ==> forest.k_now(label) == (
        if forest.settings().minority_k > 0 {
            forest.settings().minority_k
        } else {
            forest.settings().k
        }),
        !label && forest.tuning().negative_k is None ==> forest.k_now(label) == forest.settings().k,
{
}

} // verus!
