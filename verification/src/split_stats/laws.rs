//! What holds of impurities and of the scores of splits.

use super::{
    gain_score, gini, lemma_between, lemma_weights, risen, weighted_den, weighted_num, SplitStats,
};
use crate::fraction::Fraction;
use std::cmp::Ordering;
use vstd::prelude::*;

verus! {

/// The impurity of a node is one less the squares of the shares of both classes. It is the
/// same for either class, zero if there is only one class, and never above one half.
pub proof fn law_impurity_is_one_less_squares(plus: int, minus: int)
    requires
        0 <= plus,
        0 <= minus,
        0 < plus + minus <= u32::MAX,
    ensures
        ({
            let n = plus + minus;
            let f = gini(plus, n);
            &&& f.den > 0
            &&& f.num * (n * n) == f.den * (n * n - plus * plus - minus * minus)
            &&& gini(minus, n) == f
            &&& (plus == 0 || minus == 0) <==> f.num == 0
            &&& 0 <= 2 * f.num <= f.den
            &&& 2 * f.num == f.den <==> plus == minus
        }),
{
    let n = plus + minus;
    assert(0 <= 2 * plus * minus <= 0x2_0000_0000_0000_0000 && 0 < n * n <= 0x1_0000_0000_0000_0000)
        by (nonlinear_arith)
        requires
            0 <= plus <= 0xffff_ffff,
            0 <= minus <= 0xffff_ffff,
            0 < n <= 0xffff_ffff,
    ;
    assert(n - plus == minus);
    assert(n - minus == plus);
    let f = gini(plus, n);
    assert(f.num == 2 * plus * minus && f.den == n * n);
    assert(n * n - plus * plus - minus * minus == 2 * plus * minus) by (nonlinear_arith)
        requires
            n == plus + minus,
    ;
    let x = f.num as int;
    let y = f.den as int;
    assert(x * y == y * x) by (nonlinear_arith);
    assert(2 * minus * plus == 2 * plus * minus) by (nonlinear_arith);
    assert((plus == 0 || minus == 0) <==> 2 * plus * minus == 0) by (nonlinear_arith)
        requires
            0 <= plus,
            0 <= minus,
    ;
    let d = plus - minus;
    assert(n * n - 2 * (2 * plus * minus) == d * d) by (nonlinear_arith)
        requires
            n == plus + minus,
            d == plus - minus,
    ;
    assert(d * d >= 0 && (d * d == 0 <==> d == 0)) by (nonlinear_arith);
}

/// The impurity of a node that the split parts gives the score its sign and its size: it is
/// the impurity before less the impurities of both sides, each weighed by its share of the
/// samples, in parts of a million millions, cut off toward zero.
pub proof fn law_score_is_lost_impurity(before: Fraction, pl: int, ml: int, pr: int, mr: int)
    requires
        before.den > 0,
        0 <= pl,
        0 <= ml,
        0 <= pr,
        0 <= mr,
        pl + ml > 0,
        pr + mr > 0,
        pl + ml + pr + mr <= u32::MAX,
    ensures
        ({
            let nl = pl + ml;
            let nr = pr + mr;
            let after = (nl * nl - pl * pl - ml * ml) * nr + (nr * nr - pr * pr - mr * mr) * nl;
            let whole = (nl + nr) * (nl * nr);
            let lost = 1000000000000 * (before.num * whole - after * before.den);
            let parts = before.den * whole;
            let score = gain_score(before, pl, ml, pr, mr);
            &&& parts > 0
            &&& lost >= 0 ==> score >= 0 && score * parts <= lost < (score + 1) * parts
            &&& lost < 0 ==> score <= 0 && (score - 1) * parts < lost <= score * parts
        }),
{
    let nl = pl + ml;
    let nr = pr + mr;
    lemma_weights(pl, ml, pr, mr);
    let after = (nl * nl - pl * pl - ml * ml) * nr + (nr * nr - pr * pr - mr * mr) * nl;
    let whole = (nl + nr) * (nl * nr);
    assert(nl * nl - pl * pl - ml * ml == 2 * (pl * ml)) by (nonlinear_arith)
        requires
            nl == pl + ml,
    ;
    assert(nr * nr - pr * pr - mr * mr == 2 * (pr * mr)) by (nonlinear_arith)
        requires
            nr == pr + mr,
    ;
    assert(after == weighted_num(pl, ml, pr, mr)) by {
        let a = pl * ml;
        let b = pr * mr;
        assert((2 * a) * nr + (2 * b) * nl == 2 * (a * nr + b * nl)) by (nonlinear_arith);
    }
    assert(pl + ml + pr + mr == nl + nr);
    assert(whole == weighted_den(pl, ml, pr, mr));
    let lost = 1000000000000 * (before.num * whole - after * before.den);
    let parts = before.den * whole;
    assert(parts > 0) by (nonlinear_arith)
        requires
            parts == before.den * whole,
            before.den > 0,
            whole > 0,
    ;
    let score = gain_score(before, pl, ml, pr, mr);
    if lost >= 0 {
        assert(score == lost / parts);
        vstd::arithmetic::div_mod::lemma_fundamental_div_mod(lost, parts);
        assert(parts * score == score * parts && (score + 1) * parts == score * parts + parts)
            by (nonlinear_arith);
        assert(score >= 0) by (nonlinear_arith)
            requires
                score == lost / parts,
                lost >= 0,
                parts > 0,
        ;
    } else {
        let q = (-lost) / parts;
        assert(score == -q);
        vstd::arithmetic::div_mod::lemma_fundamental_div_mod(-lost, parts);
        assert(parts * q == q * parts && (-q) * parts == -(q * parts) && (-q - 1) * parts == -(q
            * parts) - parts) by (nonlinear_arith);
        assert(q >= 0) by (nonlinear_arith)
            requires
                q == (-lost) / parts,
                -lost >= 0,
                parts > 0,
        ;
    }
}

/// What a split of a node scores depends on how far both sides differ: on the square of the
/// difference between the products of opposite counts. So it is the same for either order
/// of the sides and of the classes.
pub proof fn law_score_is_difference_of_sides(pl: int, ml: int, pr: int, mr: int)
    requires
        0 <= pl,
        0 <= ml,
        0 <= pr,
        0 <= mr,
        pl + ml > 0,
        pr + mr > 0,
        pl + ml + pr + mr <= u32::MAX,
    ensures
        ({
            let n = pl + ml + pr + mr;
            let gap = pl * mr - pr * ml;
            let parts = n * n * ((pl + ml) * (pr + mr));
            let score = gain_score(gini(pl + pr, n), pl, ml, pr, mr);
            &&& parts > 0
            &&& score * parts <= 2000000000000 * (gap * gap) < (score + 1) * parts
        }),
{
    let n = pl + ml + pr + mr;
    let (p, m, nl, nr) = (pl + pr, ml + mr, pl + ml, pr + mr);
    let before = gini(p, n);
    law_impurity_is_one_less_squares(p, m);
    law_score_is_lost_impurity(before, pl, ml, pr, mr);
    lemma_weights(pl, ml, pr, mr);
    assert(0 <= 2 * p * m <= n * n * 2 && 0 < n * n <= 0xffff_ffff * 0xffff_ffff)
        by (nonlinear_arith)
        requires
            0 <= p <= n,
            0 <= m <= n,
            0 < n <= 0xffff_ffff,
    ;
    assert(n - p == m);
    assert(before.num == 2 * p * m && before.den == n * n);
    let gap = pl * mr - pr * ml;
    lemma_between(pl, ml, pr, mr);
    let k = pl * ml * nr + pr * mr * nl;
    let t = p * m * (nl * nr);
    assert(t - n * k == gap * gap);
    let whole = (nl + nr) * (nl * nr);
    let after = (nl * nl - pl * pl - ml * ml) * nr + (nr * nr - pr * pr - mr * mr) * nl;
    assert(after == 2 * k) by {
        assert(nl * nl - pl * pl - ml * ml == 2 * (pl * ml)) by (nonlinear_arith)
            requires
                nl == pl + ml,
        ;
        assert(nr * nr - pr * pr - mr * mr == 2 * (pr * mr)) by (nonlinear_arith)
            requires
                nr == pr + mr,
        ;
        let a = pl * ml;
        let b = pr * mr;
        assert((2 * a) * nr + (2 * b) * nl == 2 * (a * nr + b * nl)) by (nonlinear_arith);
    }
    assert(2 * p * m * whole == 2 * n * t) by (nonlinear_arith)
        requires
            t == p * m * (nl * nr),
            whole == n * (nl * nr),
    ;
    assert((2 * k) * (n * n) == 2 * n * (n * k)) by (nonlinear_arith);
    let g = gap * gap;
    assert(2 * n * t - 2 * n * (n * k) == 2 * (n * g)) by (nonlinear_arith)
        requires
            t - n * k == g,
    ;
    assert(g >= 0) by (nonlinear_arith)
        requires
            g == gap * gap,
    ;
    assert(n * g >= 0) by (nonlinear_arith)
        requires
            n > 0,
            g >= 0,
    ;
    let lost = 1000000000000 * (before.num * whole - after * before.den);
    assert(lost == n * (2000000000000 * g)) by (nonlinear_arith)
        requires
            lost == 1000000000000 * (2 * (n * g)),
    ;
    let sides = nl * nr;
    let parts = n * n * sides;
    let score = gain_score(before, pl, ml, pr, mr);
    assert(before.den * whole == n * parts) by (nonlinear_arith)
        requires
            before.den == n * n,
            whole == n * sides,
            parts == n * n * sides,
    ;
    assert(parts > 0) by (nonlinear_arith)
        requires
            parts == n * n * sides,
            n > 0,
            sides > 0,
    ;
    let y = 2000000000000 * g;
    assert(score * parts <= y && y < (score + 1) * parts) by (nonlinear_arith)
        requires
            score * (n * parts) <= n * y,
            n * y < (score + 1) * (n * parts),
            n > 0,
    ;
}

/// A split with a higher score comes after one with a lower score, and one without a score
/// comes before all that have one.
pub proof fn law_scores_are_in_order(a: SplitStats, b: SplitStats)
    ensures
        a.compared(&b) == Ordering::Less <==> b.score is Some && (a.score is None || a.score->0
            < b.score->0),
        a.compared(&b) == Ordering::Equal <==> a.score == b.score,
        a.compared(&b) == Ordering::Less <==> b.compared(&a) == Ordering::Greater,
{
}

/// Of shares with the same denominator one has risen above the other if it is higher by more
/// than the limit, in parts of a thousand millions; so at no limit below zero nothing rises
/// above itself, and of two not both rise above each other.
pub proof fn law_risen_is_higher(after: Fraction, before: Fraction, limit: i64)
    requires
        after.den > 0,
        before.den > 0,
    ensures
        after.den == before.den ==> (risen(after, before, limit) <==> (after.num - before.num)
            * 1_000_000_000 > limit * after.den),
        limit >= 0 ==> !risen(after, after, limit),
        limit >= 0 && risen(after, before, limit) ==> before.below(&after) && !risen(
            before,
            after,
            limit,
        ),
{
    let (a, d) = (after.num as int, after.den as int);
    let (b, e) = (before.num as int, before.den as int);
    let l = limit as int;
    if d == e {
        assert((a * d - b * d) * 1_000_000_000 > l * (d * d) <==> (a - b) * 1_000_000_000 > l * d)
            by {
            let x = (a - b) * 1_000_000_000;
            let y = l * d;
            assert((a * d - b * d) * 1_000_000_000 == d * x) by (nonlinear_arith)
                requires
                    x == (a - b) * 1_000_000_000,
            ;
            assert(l * (d * d) == d * y) by (nonlinear_arith)
                requires
                    y == l * d,
            ;
            assert(d * x > d * y <==> x > y) by (nonlinear_arith)
                requires
                    d > 0,
            ;
        }
    }
    assert(l >= 0 ==> l * (d * d) >= 0 && l * (d * e) >= 0 && l * (e * d) >= 0) by {
        assert(d * d > 0 && d * e > 0 && e * d > 0) by (nonlinear_arith)
            requires
                d > 0,
                e > 0,
        ;
        let (x, y, z) = (d * d, d * e, e * d);
        assert(l >= 0 ==> l * x >= 0 && l * y >= 0 && l * z >= 0) by (nonlinear_arith)
            requires
                x > 0,
                y > 0,
                z > 0,
        ;
    }
    assert(a * d - a * d == 0);
}

} // verus!
