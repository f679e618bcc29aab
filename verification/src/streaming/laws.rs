//! What scores mean, which split is the best one, and when it has moved.

use super::{
    best_candidate, best_upto, counted, kept_with, kept_without, label_count, runner_up, score_of,
    value_at, CandidateView, Column, StateView, ThresholdCandidate,
};
use crate::fixed::{EPSILON, ONE};
use crate::fraction::Fraction;
use vstd::prelude::*;

verus! {

/// Values that differ by more than 2^-23 are different values.
pub proof fn law_rounding_is_fine()
    ensures
        ONE == 0x100_0000,
        EPSILON * 0x80_0000 == ONE,
{
}

/// What is lower than something that is not above a third one is lower than the third one.
pub proof fn lemma_lower_still(a: Fraction, b: Fraction, c: Fraction)
    requires
        a.den > 0,
        b.den > 0,
        c.den > 0,
        a.num * b.den < b.num * a.den,
        b.num * c.den <= c.num * b.den,
    ensures
        a.num * c.den < c.num * a.den,
{
    let (an, ad) = (a.num as int, a.den as int);
    let (bn, bd) = (b.num as int, b.den as int);
    let (cn, cd) = (c.num as int, c.den as int);
    assert((an * bd) * cd < (bn * ad) * cd) by (nonlinear_arith)
        requires
            an * bd < bn * ad,
            cd > 0,
    ;
    assert((bn * cd) * ad <= (cn * bd) * ad) by (nonlinear_arith)
        requires
            bn * cd <= cn * bd,
            ad > 0,
    ;
    assert((an * bd) * cd == (an * cd) * bd) by (nonlinear_arith);
    assert((bn * ad) * cd == (bn * cd) * ad) by (nonlinear_arith);
    assert((cn * bd) * ad == (cn * ad) * bd) by (nonlinear_arith);
    assert(an * cd < cn * ad) by (nonlinear_arith)
        requires
            (an * cd) * bd < (cn * ad) * bd,
            bd > 0,
    ;
}

/// What is not above something that is not above a third one is not above the third one.
pub proof fn lemma_not_above(a: Fraction, b: Fraction, c: Fraction)
    requires
        a.den > 0,
        b.den > 0,
        c.den > 0,
        a.num * b.den <= b.num * a.den,
        b.num * c.den <= c.num * b.den,
    ensures
        a.num * c.den <= c.num * a.den,
{
    let (an, ad) = (a.num as int, a.den as int);
    let (bn, bd) = (b.num as int, b.den as int);
    let (cn, cd) = (c.num as int, c.den as int);
    assert((an * bd) * cd <= (bn * ad) * cd) by (nonlinear_arith)
        requires
            an * bd <= bn * ad,
            cd > 0,
    ;
    assert((bn * cd) * ad <= (cn * bd) * ad) by (nonlinear_arith)
        requires
            bn * cd <= cn * bd,
            ad > 0,
    ;
    assert((an * bd) * cd == (an * cd) * bd) by (nonlinear_arith);
    assert((bn * ad) * cd == (bn * cd) * ad) by (nonlinear_arith);
    assert((cn * bd) * ad == (cn * ad) * bd) by (nonlinear_arith);
    assert(an * cd <= cn * ad) by (nonlinear_arith)
        requires
            (an * cd) * bd <= (cn * ad) * bd,
            bd > 0,
    ;
}

/// Whether every score of some candidates is a fraction.
pub open spec fn scores_are_fractions(c: Seq<CandidateView>) -> bool {
    forall|i: int|
        0 <= i < c.len() && (#[trigger] c[i]).best_score is Some ==> c[i].best_score->0.den > 0
}

/// Whether no candidate has a lower score than this one, and none before it has the same.
pub open spec fn is_lowest(c: Seq<CandidateView>, i: int) -> bool {
    &&& 0 <= i < c.len()
    &&& c[i].best_score is Some
    &&& forall|j: int|
        0 <= j < c.len() && (#[trigger] c[j]).best_score is Some ==> c[i].best_score->0.num
            * c[j].best_score->0.den <= c[j].best_score->0.num * c[i].best_score->0.den
    &&& forall|j: int|
        0 <= j < i && (#[trigger] c[j]).best_score is Some ==> c[i].best_score->0.num
            * c[j].best_score->0.den < c[j].best_score->0.num * c[i].best_score->0.den
}

/// The candidate that is found to be the best.
proof fn lemma_best(c: Seq<CandidateView>) -> (i: int)
    requires
        scores_are_fractions(c),
    ensures
        best_candidate(c) is None ==> forall|j: int|
            0 <= j < c.len() ==> (#[trigger] c[j]).best_score is None,
        best_candidate(c) is Some ==> is_lowest(c, i) && best_candidate(c) == Some(
            (c[i].attr_idx, c[i].best_threshold, c[i].best_score->0),
        ),
    decreases c.len(),
{
    if c.len() == 0 {
        0
    } else {
        let front = c.drop_last();
        let n = c.len() - 1;
        assert forall|j: int| 0 <= j < front.len() implies front[j] == c[j] by {}
        assert(scores_are_fractions(front));
        let k = lemma_best(front);
        let best = best_candidate(front);
        if c[n].best_score is Some && (best is None || c[n].best_score->0.below(&(best->0).2)) {
            if best is Some {
                assert forall|j: int| 0 <= j < n && (#[trigger] c[j]).best_score is Some implies c[n]
                    .best_score->0.num * c[j].best_score->0.den < c[j].best_score->0.num
                    * c[n].best_score->0.den by {
                    assert(front[j] == c[j]);
                    lemma_lower_still(
                        c[n].best_score->0,
                        front[k].best_score->0,
                        c[j].best_score->0,
                    );
                }
            } else {
                assert forall|j: int| 0 <= j < n implies (#[trigger] c[j]).best_score is None by {
                    assert(front[j] == c[j]);
                }
            }
            n
        } else {
            if best is Some {
                assert forall|j: int| 0 <= j < c.len() && (#[trigger] c[j]).best_score is Some implies c[k]
                    .best_score->0.num * c[j].best_score->0.den <= c[j].best_score->0.num
                    * c[k].best_score->0.den by {
                    if j < n {
                        assert(front[j] == c[j]);
                    }
                }
                assert forall|j: int| 0 <= j < k && (#[trigger] c[j]).best_score is Some implies c[k]
                    .best_score->0.num * c[j].best_score->0.den < c[j].best_score->0.num
                    * c[k].best_score->0.den by {
                    assert(front[j] == c[j]);
                }
            } else {
                assert forall|j: int| 0 <= j < c.len() implies (
                #[trigger] c[j]).best_score is None by {
                    if j < n {
                        assert(front[j] == c[j]);
                    }
                }
            }
            k
        }
    }
}

/// There is only one first candidate with the lowest score.
proof fn lemma_one_lowest(c: Seq<CandidateView>, i: int, j: int)
    requires
        is_lowest(c, i),
        is_lowest(c, j),
    ensures
        i == j,
{
    if i < j {
        assert(c[i].best_score is Some);
    } else if j < i {
        assert(c[j].best_score is Some);
    }
}

/// The best split is that of the first candidate with the lowest score; there is none exactly
/// if no candidate has a score.
pub proof fn law_best_split_is_lowest(c: Seq<CandidateView>, i: int)
    requires
        scores_are_fractions(c),
    ensures
        best_candidate(c) is None <==> forall|j: int|
            0 <= j < c.len() ==> (#[trigger] c[j]).best_score is None,
        is_lowest(c, i) ==> best_candidate(c) == Some(
            (c[i].attr_idx, c[i].best_threshold, c[i].best_score->0),
        ),
        best_candidate(c) is Some ==> exists|k: int| is_lowest(c, k),
{
    let k = lemma_best(c);
    if is_lowest(c, i) {
        assert(c[i].best_score is Some);
        lemma_one_lowest(c, i, k);
    }
    if best_candidate(c) is Some {
        assert(c[k].best_score is Some);
        assert(is_lowest(c, k));
    }
}

/// Whether of the candidates without one none has a lower score than this one, which is
/// another one.
pub open spec fn is_next_lowest(c: Seq<CandidateView>, i: int, k: int) -> bool {
    &&& 0 <= k < c.len()
    &&& k != i
    &&& c[k].best_score is Some
    &&& forall|j: int|
        0 <= j < c.len() && j != i && (#[trigger] c[j]).best_score is Some
            ==> c[k].best_score->0.num * c[j].best_score->0.den <= c[j].best_score->0.num
            * c[k].best_score->0.den
}

/// Which candidate the second lowest score is of.
proof fn lemma_second(c: Seq<CandidateView>) -> (r: (int, int))
    requires
        scores_are_fractions(c),
    ensures
        best_candidate(c) is Some ==> is_lowest(c, r.0) && best_candidate(c) == Some(
            (c[r.0].attr_idx, c[r.0].best_threshold, c[r.0].best_score->0),
        ),
        best_candidate(c) is None ==> runner_up(c) is None,
        runner_up(c) is None && best_candidate(c) is Some ==> forall|j: int|
            0 <= j < c.len() && j != r.0 ==> (#[trigger] c[j]).best_score is None,
        runner_up(c) is Some ==> best_candidate(c) is Some && is_next_lowest(c, r.0, r.1)
            && runner_up(c) == c[r.1].best_score,
    decreases c.len(),
{
    let i = lemma_best(c);
    if c.len() == 0 {
        (0, 0)
    } else {
        let front = c.drop_last();
        let n = c.len() - 1;
        assert forall|j: int| 0 <= j < front.len() implies front[j] == c[j] by {}
        assert(scores_are_fractions(front));
        let (a, b) = lemma_second(front);
        let best = best_candidate(front);
        if c[n].best_score is None {
            if best is Some {
                lemma_front_lowest(c, a, i);
                if runner_up(front) is Some {
                    assert forall|j: int|
                        0 <= j < c.len() && j != a && (#[trigger] c[j]).best_score is Some implies c[b]
                        .best_score->0.num * c[j].best_score->0.den <= c[j].best_score->0.num
                        * c[b].best_score->0.den by {
                        assert(front[j] == c[j]);
                    }
                } else {
                    assert forall|j: int| 0 <= j < c.len() && j != a implies (
                    #[trigger] c[j]).best_score is None by {
                        if j < n {
                            assert(front[j] == c[j]);
                        }
                    }
                }
            }
            (i, b)
        } else if best is None {
            let _ = lemma_best(front);
            assert(i == n) by {
                if i < n {
                    assert(front[i] == c[i]);
                }
            }
            assert forall|j: int| 0 <= j < c.len() && j != n implies (
            #[trigger] c[j]).best_score is None by {
                assert(front[j] == c[j]);
            }
            (n, 0)
        } else if c[n].best_score->0.below(&(best->0).2) {
            assert(i == n) by {
                if i < n {
                    assert(front[i] == c[i]);
                    assert(c[n].best_score is Some);
                    lemma_not_above(
                        front[a].best_score->0,
                        c[i].best_score->0,
                        c[n].best_score->0,
                    );
                }
            }
            assert forall|j: int|
                0 <= j < c.len() && j != n && (#[trigger] c[j]).best_score is Some implies c[a]
                .best_score->0.num * c[j].best_score->0.den <= c[j].best_score->0.num
                * c[a].best_score->0.den by {
                assert(front[j] == c[j]);
            }
            (n, a)
        } else {
            assert(i == a) by {
                assert(is_lowest(c, a)) by {
                    assert forall|j: int| 0 <= j < c.len() && (#[trigger] c[j]).best_score is Some implies c[a]
                        .best_score->0.num * c[j].best_score->0.den <= c[j].best_score->0.num
                        * c[a].best_score->0.den by {
                        if j < n {
                            assert(front[j] == c[j]);
                        }
                    }
                    assert forall|j: int| 0 <= j < a && (#[trigger] c[j]).best_score is Some implies c[a]
                        .best_score->0.num * c[j].best_score->0.den < c[j].best_score->0.num
                        * c[a].best_score->0.den by {
                        assert(front[j] == c[j]);
                    }
                }
                assert(best_candidate(c) is Some);
                lemma_one_lowest(c, a, i);
            }
            let second = runner_up(front);
            if second is None || c[n].best_score->0.below(&second->0) {
                assert forall|j: int|
                    0 <= j < c.len() && j != a && (#[trigger] c[j]).best_score is Some implies c[n]
                    .best_score->0.num * c[j].best_score->0.den <= c[j].best_score->0.num
                    * c[n].best_score->0.den by {
                    if j < n {
                        assert(front[j] == c[j]);
                        if second is Some {
                            lemma_lower_still(
                                c[n].best_score->0,
                                front[b].best_score->0,
                                c[j].best_score->0,
                            );
                        }
                    }
                }
                (a, n)
            } else {
                assert forall|j: int|
                    0 <= j < c.len() && j != a && (#[trigger] c[j]).best_score is Some implies c[b]
                    .best_score->0.num * c[j].best_score->0.den <= c[j].best_score->0.num
                    * c[b].best_score->0.den by {
                    if j < n {
                        assert(front[j] == c[j]);
                    }
                }
                (a, b)
            }
        }
    }
}

/// The lowest one stays the lowest when a candidate without a score comes.
proof fn lemma_front_lowest(c: Seq<CandidateView>, a: int, i: int)
    requires
        c.len() > 0,
        c.last().best_score is None,
        is_lowest(c.drop_last(), a),
        is_lowest(c, i),
    ensures
        i == a,
{
    let front = c.drop_last();
    assert(is_lowest(front, i)) by {
        assert(i < front.len());
        assert forall|j: int| 0 <= j < front.len() implies front[j] == c[j] by {}
    }
    lemma_one_lowest(front, a, i);
}

/// The second score is the lowest one of the candidates without the best one: with the best
/// one left out no score is lower, and the best one is not above it. There is none exactly if
/// fewer than two candidates have a score.
pub proof fn law_second_score_is_next(c: Seq<CandidateView>)
    requires
        scores_are_fractions(c),
    ensures
        runner_up(c) is Some ==> exists|i: int, k: int|
            {
                &&& #[trigger] is_next_lowest(c, i, k)
                &&& is_lowest(c, i)
                &&& best_candidate(c) == Some(
                    (c[i].attr_idx, c[i].best_threshold, c[i].best_score->0),
                )
                &&& runner_up(c) == c[k].best_score
            },
        runner_up(c) is Some <==> exists|i: int, k: int|
            #![trigger c[i], c[k]]
            0 <= i < k < c.len() && c[i].best_score is Some && c[k].best_score is Some,
{
    let (i, k) = lemma_second(c);
    let best = lemma_best(c);
    if runner_up(c) is Some {
        assert(is_next_lowest(c, i, k) && is_lowest(c, i));
        if i < k {
            assert(c[i].best_score is Some && c[k].best_score is Some);
        } else {
            assert(c[k].best_score is Some && c[i].best_score is Some);
        }
    } else {
        assert forall|x: int, y: int|
            #![trigger c[x], c[y]]
            0 <= x < y < c.len() implies !(c[x].best_score is Some && c[y].best_score is Some) by {
            if best_candidate(c) is None {
                assert(c[x].best_score is None);
            } else if x == i {
                assert(c[y].best_score is None);
            } else {
                assert(c[x].best_score is None);
            }
        }
    }
}

/// Whether the split of a candidate is another one than the split in use: it is one on
/// another attribute, or its threshold is further off than rounding explains.
pub open spec fn differs(s: StateView, i: int) -> bool {
    let best = s.attr_stats.candidates[i];
    ||| best.attr_idx != s.split_attr->0
    ||| best.best_threshold - s.split_threshold > EPSILON
    ||| s.split_threshold - best.best_threshold > EPSILON
}

/// The split of a node has moved exactly if the first candidate with the lowest score has
/// another attribute than the split in use, or a threshold that is further off than rounding
/// explains. So a node whose split has not moved is split at its best candidate.
pub proof fn law_moved_split(s: StateView, i: int)
    requires
        scores_are_fractions(s.attr_stats.candidates),
    ensures
        s.split_attr is Some && is_lowest(s.attr_stats.candidates, i) ==> s.split_changed()
            == differs(s, i),
        s.split_changed() ==> s.split_attr is Some && exists|k: int| #[trigger]
            is_lowest(s.attr_stats.candidates, k) && differs(s, k),
        s.split_attr is Some && !s.split_changed() && (exists|k: int|
            0 <= k < s.attr_stats.candidates.len() && (
            #[trigger] s.attr_stats.candidates[k]).best_score is Some) ==> exists|k: int| #[trigger]
            is_lowest(s.attr_stats.candidates, k) && s.attr_stats.candidates[k].attr_idx
                == s.split_attr->0 && -EPSILON <= s.attr_stats.candidates[k].best_threshold
                - s.split_threshold <= EPSILON,
{
    let c = s.attr_stats.candidates;
    let k = lemma_best(c);
    law_best_split_is_lowest(c, i);
    if best_candidate(c) is Some {
        assert(is_lowest(c, k));
        if s.split_changed() {
            assert(differs(s, k));
        }
    }
}

/// The score of a threshold, where it has one, is a fraction.
pub proof fn lemma_scored(t: ThresholdCandidate, total_samples: u32, total_positive: u32)
    ensures
        t.scored(total_samples, total_positive) is Some ==> t.scored(
            total_samples,
            total_positive,
        )->0.den > 0,
{
    let a = t.left_count as int;
    let b = if t.left_count <= total_samples {
        total_samples - t.left_count
    } else {
        0
    };
    if a > 0 && b > 0 {
        lemma_score_den(a, b);
    }
}

/// The size of the denominator of a score.
proof fn lemma_score_den(a: int, b: int)
    requires
        0 < a <= 0xffff_ffff,
        0 < b <= 0xffff_ffff,
    ensures
        0 < a * b * (a + b) <= u128::MAX,
{
    assert(0 < a * b <= 0xffff_ffff * 0xffff_ffff) by (nonlinear_arith)
        requires
            0 < a <= 0xffff_ffff,
            0 < b <= 0xffff_ffff,
    ;
    let x = a * b;
    assert(0 < x * (a + b) <= 0xffff_ffff * 0xffff_ffff * 0x1_ffff_fffe) by (nonlinear_arith)
        requires
            0 < x <= 0xffff_ffff * 0xffff_ffff,
            0 < a + b <= 0x1_ffff_fffe,
    ;
}

/// The best threshold has the lowest score of the first thresholds, and is the first one that
/// has it; there is no score exactly if no threshold has one.
pub proof fn law_best_threshold_is_lowest(
    c: Seq<ThresholdCandidate>,
    n: int,
    total_samples: u32,
    total_positive: u32,
    initial: i64,
)
    requires
        0 <= n <= c.len(),
    ensures
        ({
            let best = best_upto(c, n, total_samples, total_positive, initial);
            &&& best.0 is None <==> forall|j: int|
                0 <= j < n ==> (#[trigger] c[j]).scored(total_samples, total_positive) is None
            &&& best.0 is None ==> best.1 == initial
            &&& best.0 is Some ==> best.0->0.den > 0 && exists|i: int|
                {
                    &&& 0 <= i < n
                    &&& (#[trigger] c[i]).threshold == best.1
                    &&& c[i].scored(total_samples, total_positive) == best.0
                }
            &&& best.0 is Some ==> forall|j: int|
                0 <= j < n && (#[trigger] c[j]).scored(total_samples, total_positive) is Some
                    ==> best.0->0.num * c[j].scored(total_samples, total_positive)->0.den
                    <= c[j].scored(total_samples, total_positive)->0.num * best.0->0.den
        }),
    decreases n,
{
    if n > 0 {
        law_best_threshold_is_lowest(c, n - 1, total_samples, total_positive, initial);
        let before = best_upto(c, n - 1, total_samples, total_positive, initial);
        let best = best_upto(c, n, total_samples, total_positive, initial);
        let last = c[n - 1].scored(total_samples, total_positive);
        lemma_scored(c[n - 1], total_samples, total_positive);
        if best.0 is Some {
            if best == before && last is None {
                let i = choose|i: int|
                    0 <= i < n - 1 && (#[trigger] c[i]).threshold == before.1 && c[i].scored(
                        total_samples,
                        total_positive,
                    ) == before.0;
                assert(c[i].threshold == best.1);
            } else if super::better(last, before.0) {
                assert(c[n - 1].threshold == best.1);
            } else {
                let i = choose|i: int|
                    0 <= i < n - 1 && (#[trigger] c[i]).threshold == before.1 && c[i].scored(
                        total_samples,
                        total_positive,
                    ) == before.0;
                assert(c[i].threshold == best.1);
            }
            assert forall|j: int|
                0 <= j < n && (#[trigger] c[j]).scored(total_samples, total_positive) is Some implies best.0->0.num
                * c[j].scored(total_samples, total_positive)->0.den <= c[j].scored(
                total_samples,
                total_positive,
            )->0.num * best.0->0.den by {
                let s = c[j].scored(total_samples, total_positive);
                lemma_scored(c[j], total_samples, total_positive);
                if j < n - 1 && before.0 is Some && super::better(last, before.0) {
                    lemma_lower_still(last->0, before.0->0, s->0);
                }
            }
        } else {
            assert(c[n - 1].scored(total_samples, total_positive) is None);
        }
    }
}

/// The score of a split is the impurity that it leaves: over both sides, the share of the
/// samples that go there times the shares of the two classes among them.
pub proof fn law_score_is_weighted_impurity(l: int, lp: int, r: int, rp: int)
    requires
        0 <= lp <= l <= u32::MAX,
        0 <= rp <= r <= u32::MAX,
    ensures
        score_of(l, lp, r, rp) is Some <==> l > 0 && r > 0,
        l > 0 && r > 0 ==> {
            let s = score_of(l, lp, r, rp)->0;
            &&& s.den > 0
            &&& s.num >= 0
            &&& s.num * ((l + r) * (l * l) * (r * r)) == (l * (lp * (l - lp)) * (r * r) + r * (rp
                * (r - rp)) * (l * l)) * s.den
        },
{
    if l > 0 && r > 0 {
        lemma_score_exact(l, lp, r, rp);
        let num = (l - lp) * lp * r + (r - rp) * rp * l;
        let den = l * r * (l + r);
        let x = lp * (l - lp);
        let y = rp * (r - rp);
        assert((l - lp) * lp == x && (r - rp) * rp == y) by (nonlinear_arith)
            requires
                x == lp * (l - lp),
                y == rp * (r - rp),
        ;
        let q = l * r;
        let t = l + r;
        assert((x * r + y * l) * (t * (l * l) * (r * r)) == (l * x * (r * r) + r * y * (l * l)) * (q
            * t)) by {
            assert((x * r + y * l) * (t * (l * l) * (r * r)) == (x * r + y * l) * (q * q * t))
                by (nonlinear_arith)
                requires
                    q == l * r,
            ;
            assert(l * x * (r * r) + r * y * (l * l) == (x * r + y * l) * q) by (nonlinear_arith)
                requires
                    q == l * r,
            ;
            assert((x * r + y * l) * (q * q * t) == ((x * r + y * l) * q) * (q * t))
                by (nonlinear_arith);
        }
    }
}

/// A score is what its formula says.
proof fn lemma_score_exact(l: int, lp: int, r: int, rp: int)
    requires
        0 <= lp <= l <= u32::MAX,
        0 <= rp <= r <= u32::MAX,
        l > 0,
        r > 0,
    ensures
        score_of(l, lp, r, rp)->0.num == (l - lp) * lp * r + (r - rp) * rp * l,
        score_of(l, lp, r, rp)->0.den == l * r * (l + r),
        score_of(l, lp, r, rp)->0.num >= 0,
        score_of(l, lp, r, rp)->0.den > 0,
{
    lemma_score_den(l, r);
    super::lemma_score_sizes(l, lp, r);
    super::lemma_score_sizes(r, rp, l);
    assert(0 <= (l - lp) * lp) by (nonlinear_arith)
        requires
            0 <= lp <= l,
    ;
    assert(0 <= (r - rp) * rp) by (nonlinear_arith)
        requires
            0 <= rp <= r,
    ;
    let x = (l - lp) * lp;
    let y = (r - rp) * rp;
    assert(0 <= x * r && 0 <= y * l) by (nonlinear_arith)
        requires
            0 <= x,
            0 <= y,
            l > 0,
            r > 0,
    ;
}

/// A split that tells the classes apart has the lowest score there is, and no other split has
/// it: the score is zero exactly if each side holds one class alone.
pub proof fn law_perfect_split_scores_zero(l: int, lp: int, r: int, rp: int)
    requires
        0 <= lp <= l <= u32::MAX,
        0 <= rp <= r <= u32::MAX,
        l > 0,
        r > 0,
    ensures
        score_of(l, lp, r, rp)->0.num == 0 <==> (lp == 0 || lp == l) && (rp == 0 || rp == r),
        score_of(l, lp, r, rp)->0.num >= 0,
{
    lemma_score_exact(l, lp, r, rp);
    let x = (l - lp) * lp;
    let y = (r - rp) * rp;
    assert(x == 0 <==> lp == 0 || lp == l) by (nonlinear_arith)
        requires
            x == (l - lp) * lp,
            0 <= lp <= l,
    ;
    assert(y == 0 <==> rp == 0 || rp == r) by (nonlinear_arith)
        requires
            y == (r - rp) * rp,
            0 <= rp <= r,
    ;
    assert(x >= 0 && y >= 0) by (nonlinear_arith)
        requires
            x == (l - lp) * lp,
            y == (r - rp) * rp,
            0 <= lp <= l,
            0 <= rp <= r,
    ;
    assert(x * r + y * l == 0 <==> x == 0 && y == 0) by (nonlinear_arith)
        requires
            x >= 0,
            y >= 0,
            l > 0,
            r > 0,
    ;
}

/// A score does not rest on which side is called left, nor on which class is called positive.
pub proof fn law_score_is_symmetric(l: int, lp: int, r: int, rp: int)
    requires
        0 <= lp <= l <= u32::MAX,
        0 <= rp <= r <= u32::MAX,
        l > 0,
        r > 0,
    ensures
        score_of(l, lp, r, rp) == score_of(r, rp, l, lp),
        score_of(l, lp, r, rp) == score_of(l, l - lp, r, r - rp),
{
    assert(l * r * (l + r) == r * l * (r + l)) by (nonlinear_arith);
    assert((l - (l - lp)) * (l - lp) * r == (l - lp) * lp * r) by (nonlinear_arith);
    assert((r - (r - rp)) * (r - rp) * l == (r - rp) * rp * l) by (nonlinear_arith);
}

/// A sample that comes leaves exactly those candidates whose smallest and largest value it
/// lies between, in order, each with the sample counted.
#[verifier::spinoff_prover]
pub proof fn law_arrival_keeps_candidates(
    c: Seq<CandidateView>,
    values: Seq<i64>,
    label: bool,
    total_samples: u32,
    total_positive: u32,
    i: int,
)
    requires
        0 <= i < c.len(),
    ensures
        ({
            let after = kept_with(c, values, label, total_samples, total_positive);
            let v = value_at(values, c[i].attr_idx);
            &&& after.len() <= c.len()
            &&& scores_are_fractions(after)
            &&& c[i].min_val <= v <= c[i].max_val ==> after.contains(
                c[i].with_sample(v, label, total_samples, total_positive),
            )
            &&& forall|k: int|
                0 <= k < after.len() ==> exists|j: int|
                    {
                        let w = value_at(values, c[j].attr_idx);
                        &&& 0 <= j < c.len()
                        &&& (#[trigger] c[j]).min_val <= w <= c[j].max_val
                        &&& #[trigger] after[k] == c[j].with_sample(
                            w,
                            label,
                            total_samples,
                            total_positive,
                        )
                    }
        }),
    decreases c.len(),
{
    let front = c.drop_last();
    let n = c.len() - 1;
    let after = kept_with(c, values, label, total_samples, total_positive);
    let rest = kept_with(front, values, label, total_samples, total_positive);
    let last = value_at(values, c[n].attr_idx);
    let v = value_at(values, c[i].attr_idx);
    if front.len() > 0 {
        law_arrival_keeps_candidates(
            front,
            values,
            label,
            total_samples,
            total_positive,
            if i < n {
                i
            } else {
                0
            },
        );
    }
    let here = c[n].with_sample(last, label, total_samples, total_positive);
    if !c[n].broken_by(last) {
        lemma_rated_fraction(c[n], last, label, total_samples, total_positive);
        assert(after == rest.push(here));
    } else {
        assert(after == rest);
    }
    if c[i].min_val <= v <= c[i].max_val {
        if i < n {
            assert(front[i] == c[i]);
            let x = c[i].with_sample(v, label, total_samples, total_positive);
            assert(rest.contains(x));
            let k = rest.index_of(x);
            assert(rest[k] == x && 0 <= k < rest.len());
            assert(after[k] == x);
            assert(after.contains(x));
        } else {
            assert(after[rest.len() as int] == here);
            assert(after.contains(here));
        }
    }
    assert forall|k: int| 0 <= k < after.len() implies exists|j: int|
        {
            let w = value_at(values, c[j].attr_idx);
            &&& 0 <= j < c.len()
            &&& (#[trigger] c[j]).min_val <= w <= c[j].max_val
            &&& #[trigger] after[k] == c[j].with_sample(w, label, total_samples, total_positive)
        } by {
        if k < rest.len() {
            assert(after[k] == rest[k]);
            let j = choose|j: int|
                {
                    let w = value_at(values, front[j].attr_idx);
                    &&& 0 <= j < front.len()
                    &&& (#[trigger] front[j]).min_val <= w <= front[j].max_val
                    &&& rest[k] == front[j].with_sample(w, label, total_samples, total_positive)
                };
            assert(front[j] == c[j]);
        } else {
            assert(c[n].min_val <= last <= c[n].max_val);
        }
    }
    assert(scores_are_fractions(after)) by {
        assert forall|k: int|
            0 <= k < after.len() && (#[trigger] after[k]).best_score is Some implies after[k].best_score->0.den
            > 0 by {
            if k < rest.len() {
                assert(after[k] == rest[k]);
            }
        }
    }
}

/// The score of a candidate that has been rated is a fraction.
proof fn lemma_rated_fraction(
    c: CandidateView,
    v: i64,
    label: bool,
    total_samples: u32,
    total_positive: u32,
)
    ensures
        !c.broken_by(v) && c.with_sample(v, label, total_samples, total_positive).best_score is Some
            ==> c.with_sample(v, label, total_samples, total_positive).best_score->0.den > 0,
        !c.emptied_by(v) && c.without_sample(
            v,
            label,
            total_samples,
            total_positive,
        ).best_score is Some ==> c.without_sample(
            v,
            label,
            total_samples,
            total_positive,
        ).best_score->0.den > 0,
{
    let a = c.thresholds.map_values(|t: ThresholdCandidate| t.with_sample(v, label));
    let b = c.thresholds.map_values(|t: ThresholdCandidate| t.without_sample(v, label));
    law_best_threshold_is_lowest(
        a,
        a.len() as int,
        total_samples,
        total_positive,
        c.best_threshold,
    );
    law_best_threshold_is_lowest(
        b,
        b.len() as int,
        total_samples,
        total_positive,
        c.best_threshold,
    );
}

/// A sample that goes leaves exactly those candidates of which it was not the last smallest or
/// the last largest value, in order, each without the sample.
#[verifier::spinoff_prover]
pub proof fn law_departure_keeps_candidates(
    c: Seq<CandidateView>,
    values: Seq<i64>,
    label: bool,
    total_samples: u32,
    total_positive: u32,
    i: int,
)
    requires
        0 <= i < c.len(),
    ensures
        ({
            let after = kept_without(c, values, label, total_samples, total_positive);
            let v = value_at(values, c[i].attr_idx);
            &&& after.len() <= c.len()
            &&& scores_are_fractions(after)
            &&& stays(c[i], v) ==> after.contains(
                c[i].without_sample(v, label, total_samples, total_positive),
            )
            &&& forall|k: int|
                0 <= k < after.len() ==> exists|j: int|
                    {
                        let w = value_at(values, c[j].attr_idx);
                        &&& 0 <= j < c.len()
                        &&& stays(#[trigger] c[j], w)
                        &&& #[trigger] after[k] == c[j].without_sample(
                            w,
                            label,
                            total_samples,
                            total_positive,
                        )
                    }
        }),
    decreases c.len(),
{
    let front = c.drop_last();
    let n = c.len() - 1;
    let after = kept_without(c, values, label, total_samples, total_positive);
    let rest = kept_without(front, values, label, total_samples, total_positive);
    let last = value_at(values, c[n].attr_idx);
    let v = value_at(values, c[i].attr_idx);
    if front.len() > 0 {
        law_departure_keeps_candidates(
            front,
            values,
            label,
            total_samples,
            total_positive,
            if i < n {
                i
            } else {
                0
            },
        );
    }
    let here = c[n].without_sample(last, label, total_samples, total_positive);
    if !c[n].emptied_by(last) {
        lemma_rated_fraction(c[n], last, label, total_samples, total_positive);
        assert(after == rest.push(here));
    } else {
        assert(after == rest);
    }
    if stays(c[i], v) {
        if i < n {
            assert(front[i] == c[i]);
            let x = c[i].without_sample(v, label, total_samples, total_positive);
            assert(rest.contains(x));
            let k = rest.index_of(x);
            assert(rest[k] == x && 0 <= k < rest.len());
            assert(after[k] == x);
            assert(after.contains(x));
        } else {
            assert(after[rest.len() as int] == here);
            assert(after.contains(here));
        }
    }
    assert forall|k: int| 0 <= k < after.len() implies exists|j: int|
        {
            let w = value_at(values, c[j].attr_idx);
            &&& 0 <= j < c.len()
            &&& stays(#[trigger] c[j], w)
            &&& #[trigger] after[k] == c[j].without_sample(w, label, total_samples, total_positive)
        } by {
        if k < rest.len() {
            assert(after[k] == rest[k]);
            let j = choose|j: int|
                {
                    let w = value_at(values, front[j].attr_idx);
                    &&& 0 <= j < front.len()
                    &&& stays(#[trigger] front[j], w)
                    &&& rest[k] == front[j].without_sample(w, label, total_samples, total_positive)
                };
            assert(front[j] == c[j]);
        } else {
            assert(stays(c[n], last));
        }
    }
    assert(scores_are_fractions(after)) by {
        assert forall|k: int|
            0 <= k < after.len() && (#[trigger] after[k]).best_score is Some implies after[k].best_score->0.den
            > 0 by {
            if k < rest.len() {
                assert(after[k] == rest[k]);
            }
        }
    }
}

/// Whether a value that goes leaves a value at both ends: it is further from each end than
/// rounding explains, or it was not the only one there.
pub open spec fn stays(c: CandidateView, v: i64) -> bool {
    &&& v - c.min_val >= EPSILON || c.min_val - v >= EPSILON || c.min_count > 1
    &&& v - c.max_val >= EPSILON || c.max_val - v >= EPSILON || c.max_count > 1
}

/// Whether a candidate is up to date with a column: each threshold has the counts of the
/// column, and the best one is the one with the lowest score.
pub open spec fn follows(c: CandidateView, column: Column) -> bool {
    let s = super::clamped(column.len());
    let p = super::clamped(label_count(column, column.len() as int));
    &&& forall|i: int|
        0 <= i < c.thresholds.len() ==> #[trigger] c.thresholds[i] == counted(
            column,
            c.thresholds[i].threshold,
        )
    &&& c.best_score is Some ==> exists|i: int|
        0 <= i < c.thresholds.len() && (#[trigger] c.thresholds[i]).threshold == c.best_threshold
            && c.thresholds[i].scored(s, p) == c.best_score
    &&& forall|j: int|
        0 <= j < c.thresholds.len() && (#[trigger] c.thresholds[j]).scored(s, p) is Some
            ==> c.best_score is Some && c.best_score->0.num * c.thresholds[j].scored(s, p)->0.den
            <= c.thresholds[j].scored(s, p)->0.num * c.best_score->0.den
}

/// A candidate that is up to date with a column is up to date with the longer column after a
/// value between its ends has come.
pub proof fn law_candidate_follows_arrival(
    c: CandidateView,
    column: Column,
    value: i64,
    label: bool,
)
    requires
        follows(c, column),
        c.min_val <= value <= c.max_val,
    ensures
        follows(
            c.with_sample(
                value,
                label,
                super::clamped(column.len() + 1),
                super::clamped(label_count(column.push((value, label)), column.len() as int + 1)),
            ),
            column.push((value, label)),
        ),
{
    let longer = column.push((value, label));
    let s = super::clamped(column.len() + 1);
    let p = super::clamped(label_count(longer, column.len() as int + 1));
    let after = c.with_sample(value, label, s, p);
    let t = c.thresholds.map_values(|t: ThresholdCandidate| t.with_sample(value, label));
    assert(after.thresholds == t);
    law_best_threshold_is_lowest(t, t.len() as int, s, p, c.best_threshold);
    assert forall|i: int| 0 <= i < t.len() implies #[trigger] after.thresholds[i] == counted(
        longer,
        after.thresholds[i].threshold,
    ) by {
        assert(c.thresholds[i] == counted(column, c.thresholds[i].threshold));
        super::law_counts_follow_arrival(column, value, label, c.thresholds[i].threshold);
    }
}

/// A candidate that is up to date with a column is up to date with the shorter column after a
/// value has gone that was not the last one at an end.
pub proof fn law_candidate_follows_departure(c: CandidateView, column: Column, k: int)
    requires
        follows(c, column),
        0 <= k < column.len() <= u32::MAX,
        stays(c, column[k].0),
    ensures
        follows(
            c.without_sample(
                column[k].0,
                column[k].1,
                super::clamped((column.len() - 1) as nat),
                super::clamped(label_count(column.remove(k), column.len() - 1)),
            ),
            column.remove(k),
        ),
{
    let shorter = column.remove(k);
    let (value, label) = column[k];
    let s = super::clamped((column.len() - 1) as nat);
    let p = super::clamped(label_count(shorter, column.len() - 1));
    let after = c.without_sample(value, label, s, p);
    let t = c.thresholds.map_values(|t: ThresholdCandidate| t.without_sample(value, label));
    assert(after.thresholds == t);
    law_best_threshold_is_lowest(t, t.len() as int, s, p, c.best_threshold);
    assert forall|i: int| 0 <= i < t.len() implies #[trigger] after.thresholds[i] == counted(
        shorter,
        after.thresholds[i].threshold,
    ) by {
        assert(c.thresholds[i] == counted(column, c.thresholds[i].threshold));
        super::law_counts_follow_departure(column, k, c.thresholds[i].threshold);
    }
}

} // verus!
