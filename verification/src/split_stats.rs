//! How good a split is: class counts on both sides, and the gain in purity.

use crate::fraction::{quotient_below, Fraction};
use core::cmp::Ordering;
use vstd::arithmetic::div_mod::{lemma_fundamental_div_mod, lemma_fundamental_div_mod_converse};
use vstd::prelude::*;

pub mod laws;
pub mod text;
use vstd::std_specs::cmp::{PartialEqSpecImpl, PartialOrdSpecImpl};

verus! {

/// The gain is kept as a whole number of parts in this many.
pub const SCORE_SCALE: u128 = 1000000000000;

/// Class counts on both sides of a split, and what they are worth.
#[derive(Clone, Copy, Debug)]
pub struct SplitStats {
    /// Positive samples that go left.
    pub num_plus_left: u32,
    /// Negative samples that go left.
    pub num_minus_left: u32,
    /// Positive samples that go right.
    pub num_plus_right: u32,
    /// Negative samples that go right.
    pub num_minus_right: u32,
    /// Gini impurity of the left side.
    pub impurity_left: Fraction,
    /// Gini impurity of the right side.
    pub impurity_right: Fraction,
    /// The gain in purity, in parts of [`SCORE_SCALE`], cut off toward zero.
    pub score: Option<i64>,
}

/// A quotient cut off toward zero.
pub open spec fn truncated(num: int, den: int) -> int {
    if num >= 0 {
        num / den
    } else {
        -((-num) / den)
    }
}

/// Twice the product of the two class shares.
pub open spec fn gini(num_plus: int, num_total: int) -> Fraction {
    if num_total == 0 {
        Fraction { num: 0, den: 1 }
    } else {
        Fraction {
            num: (2 * num_plus * (num_total - num_plus)) as i128,
            den: (num_total * num_total) as u128,
        }
    }
}

/// The numerator of the impurity that is left after a split: the impurities of both
/// sides, each weighted by its share of the samples.
pub open spec fn weighted_num(pl: int, ml: int, pr: int, mr: int) -> int {
    2 * (pl * ml * (pr + mr) + pr * mr * (pl + ml))
}

/// The denominator of the impurity that is left after a split.
pub open spec fn weighted_den(pl: int, ml: int, pr: int, mr: int) -> int {
    (pl + ml + pr + mr) * ((pl + ml) * (pr + mr))
}

/// The score of a split: the impurity before it minus the impurity left after it, in
/// parts of [`SCORE_SCALE`].
pub open spec fn gain_score(before: Fraction, pl: int, ml: int, pr: int, mr: int) -> int {
    truncated(
        SCORE_SCALE * (before.num * weighted_den(pl, ml, pr, mr) - weighted_num(pl, ml, pr, mr)
            * before.den),
        before.den * weighted_den(pl, ml, pr, mr),
    )
}

/// Whether a fraction lies between zero and one and is a ratio of 64-bit numbers.
pub open spec fn is_share(f: Fraction) -> bool {
    0 <= f.num <= f.den && 0 < f.den <= 0x1_0000_0000_0000_0000
}

impl SplitStats {
    /// All samples that were counted.
    pub open spec fn total(&self) -> int {
        self.num_plus_left + self.num_minus_left + self.num_plus_right + self.num_minus_right
    }

    /// The four counts are the same.
    pub open spec fn same_counts(&self, other: &SplitStats) -> bool {
        &&& self.num_plus_left == other.num_plus_left
        &&& self.num_minus_left == other.num_minus_left
        &&& self.num_plus_right == other.num_plus_right
        &&& self.num_minus_right == other.num_minus_right
    }

    /// The score and the impurities are those of the four counts.
    pub open spec fn scored(&self, before: Fraction) -> bool {
        let nl = self.num_plus_left + self.num_minus_left;
        let nr = self.num_plus_right + self.num_minus_right;
        if nl == 0 || nr == 0 {
            &&& self.score is None
            &&& self.impurity_left == gini(0, 0)
            &&& self.impurity_right == gini(0, 0)
        } else {
            &&& self.score is Some
            &&& self.score->0 == gain_score(
                before,
                self.num_plus_left as int,
                self.num_minus_left as int,
                self.num_plus_right as int,
                self.num_minus_right as int,
            )
            &&& self.impurity_left == gini(self.num_plus_left as int, nl)
            &&& self.impurity_right == gini(self.num_plus_right as int, nr)
        }
    }

    /// The order of two scores: a missing score is below every other.
    pub open spec fn compared(&self, other: &SplitStats) -> Ordering {
        match (self.score, other.score) {
            (Some(a), Some(b)) => if a < b {
                Ordering::Less
            } else if a == b {
                Ordering::Equal
            } else {
                Ordering::Greater
            },
            (Some(_), None) => Ordering::Greater,
            (None, Some(_)) => Ordering::Less,
            (None, None) => Ordering::Equal,
        }
    }

    /// Counts that have not been scored yet.
    pub fn new(
        num_plus_left: u32,
        num_minus_left: u32,
        num_plus_right: u32,
        num_minus_right: u32,
    ) -> (r: Self)
        ensures
            r.num_plus_left == num_plus_left,
            r.num_minus_left == num_minus_left,
            r.num_plus_right == num_plus_right,
            r.num_minus_right == num_minus_right,
            r.impurity_left == gini(0, 0),
            r.impurity_right == gini(0, 0),
            r.score is None,
    {
        SplitStats {
            num_plus_left,
            num_minus_left,
            num_plus_right,
            num_minus_right,
            impurity_left: Fraction { num: 0, den: 1 },
            impurity_right: Fraction { num: 0, den: 1 },
            score: None,
        }
    }

    /// No samples on either side.
    pub fn empty() -> (r: Self)
        ensures
            r.total() == 0,
            r.impurity_left == gini(0, 0),
            r.impurity_right == gini(0, 0),
            r.score is None,
    {
        Self::new(0, 0, 0, 0)
    }

    /// Samples on the left.
    pub fn num_left(&self) -> (r: u32)
        requires
            self.total() <= u32::MAX,
        ensures
            r == self.num_plus_left + self.num_minus_left,
    {
        self.num_plus_left + self.num_minus_left
    }

    /// Samples on the right.
    pub fn num_right(&self) -> (r: u32)
        requires
            self.total() <= u32::MAX,
        ensures
            r == self.num_plus_right + self.num_minus_right,
    {
        self.num_plus_right + self.num_minus_right
    }

    /// Samples on both sides.
    pub fn num_total(&self) -> (r: u32)
        requires
            self.total() <= u32::MAX,
        ensures
            r == self.total(),
    {
        self.num_left() + self.num_right()
    }

    /// Positive samples on both sides.
    pub fn num_plus(&self) -> (r: u32)
        requires
            self.total() <= u32::MAX,
        ensures
            r == self.num_plus_left + self.num_plus_right,
    {
        self.num_plus_left + self.num_plus_right
    }

    /// Whether the split gains anything.
    pub fn has_positive_score(&self) -> (r: bool)
        ensures
            r == (self.score is Some && self.score->0 > 0),
    {
        match self.score {
            Some(s) => s > 0,
            None => false,
        }
    }

    /// Whether both sides have samples.
    pub fn is_valid(&self) -> (r: bool)
        requires
            self.total() <= u32::MAX,
        ensures
            r == (self.num_plus_left + self.num_minus_left > 0 && self.num_plus_right
                + self.num_minus_right > 0),
    {
        self.num_left() > 0 && self.num_right() > 0
    }

    /// Scores the split of a node whose impurity is known.
    pub fn update_score(&mut self, impurity_before: Fraction)
        requires
            old(self).total() <= u32::MAX,
            is_share(impurity_before),
        ensures
            final(self).same_counts(old(self)),
            final(self).scored(impurity_before),
    {
        let (score, impurity_left, impurity_right) = compute_gini_gain(
            impurity_before,
            self.num_plus_left,
            self.num_minus_left,
            self.num_plus_right,
            self.num_minus_right,
        );
        self.score = score;
        self.impurity_left = impurity_left;
        self.impurity_right = impurity_right;
    }

    /// Scores the split of the node that holds the counted samples.
    pub fn update_score_with_impurity(&mut self)
        requires
            old(self).total() <= u32::MAX,
        ensures
            final(self).same_counts(old(self)),
            old(self).total() == 0 ==> *final(self) == (SplitStats { score: None, ..*old(self) }),
            old(self).total() > 0 ==> final(self).scored(
                gini(old(self).num_plus_left + old(self).num_plus_right, old(self).total()),
            ),
    {
        let num_plus: u32 = self.num_plus();
        let num_total: u32 = self.num_total();
        if num_total == 0 {
            self.score = None;
            return;
        }
        let impurity_before = gini_impurity(num_plus, num_total);
        self.update_score(impurity_before);
    }

}

impl PartialEq for SplitStats {
    fn eq(&self, other: &Self) -> (r: bool) {
        match (self.score, other.score) {
            (Some(a), Some(b)) => a == b,
            (None, None) => true,
            _ => false,
        }
    }
}

impl PartialEqSpecImpl for SplitStats {
    open spec fn obeys_eq_spec() -> bool {
        true
    }

    open spec fn eq_spec(&self, other: &Self) -> bool {
        self.score == other.score
    }
}

impl PartialOrd for SplitStats {
    fn partial_cmp(&self, other: &Self) -> (r: Option<Ordering>) {
        match (self.score, other.score) {
            (Some(a), Some(b)) => if a < b {
                Some(Ordering::Less)
            } else if a == b {
                Some(Ordering::Equal)
            } else {
                Some(Ordering::Greater)
            },
            (Some(_), None) => Some(Ordering::Greater),
            (None, Some(_)) => Some(Ordering::Less),
            (None, None) => Some(Ordering::Equal),
        }
    }
}

impl PartialOrdSpecImpl for SplitStats {
    open spec fn obeys_partial_cmp_spec() -> bool {
        true
    }

    open spec fn partial_cmp_spec(&self, other: &Self) -> Option<Ordering> {
        Some(self.compared(other))
    }
}

/// The Gini impurity of a node.
pub fn gini_impurity(num_plus: u32, num_total: u32) -> (r: Fraction)
    ensures
        r == gini(num_plus as int, num_total as int),
        r.wf(),
        num_plus <= num_total ==> is_share(r),
{
    if num_total == 0 {
        return Fraction { num: 0, den: 1 };
    }
    let p: i128 = num_plus as i128;
    let n: i128 = num_total as i128;
    assert(-0x2_0000_0000_0000_0000 <= 2 * p * (n - p) <= 0x2_0000_0000_0000_0000) by (nonlinear_arith)
        requires
            0 <= p <= 0xffff_ffff,
            0 < n <= 0xffff_ffff,
    ;
    assert(-0x2_0000_0000_0000_0000 <= 2 * p <= 0x2_0000_0000_0000_0000);
    assert(0 < n * n <= 0x1_0000_0000_0000_0000) by (nonlinear_arith)
        requires
            0 < n <= 0xffff_ffff,
    ;
    assert(p <= n ==> 0 <= 2 * p * (n - p) <= n * n) by (nonlinear_arith)
        requires
            0 <= p,
            0 < n,
    ;
    Fraction { num: 2 * p * (n - p), den: (n * n) as u128 }
}

/// Whether a fraction lies between zero and one, and is not too fine to be scaled.
pub open spec fn is_fine_share(f: Fraction) -> bool {
    0 <= f.num <= f.den && 0 < f.den < 0x1000_0000_0000_0000_0000_0000_0000
}

/// Tells whether a fraction lies between zero and one, and is not too fine to be scaled.
pub fn is_fine(f: Fraction) -> (r: bool)
    ensures
        r == is_fine_share(f),
{
    0 <= f.num && f.den > 0 && f.den < 0x1000_0000_0000_0000_0000_0000_0000 && f.num as u128
        <= f.den
}

/// Whether a fraction exceeds another by more than a limit, in parts of 10^9.
pub open spec fn risen(after: Fraction, before: Fraction, limit: i64) -> bool {
    (after.num * before.den - before.num * after.den) * 1_000_000_000 > limit * (after.den
        * before.den)
}

/// Tells whether a share exceeds another by more than a limit, exactly.
pub fn has_risen(after: Fraction, before: Fraction, limit: i64) -> (r: bool)
    requires
        is_fine_share(after),
        is_fine_share(before),
    ensures
        r == risen(after, before, limit),
{
    let (q1, r1) = scaled(after.num as u128, after.den);
    let (q2, r2) = scaled(before.num as u128, before.den);
    let whole: i128 = q1 as i128 - q2 as i128;
    let bound: i128 = limit as i128 * 1000;
    let more: bool = quotient_below(r2, before.den, r1, after.den);
    proof {
        let (x1, y1, x2, y2) = (
            after.num as int,
            after.den as int,
            before.num as int,
            before.den as int,
        );
        let rest = r1 * y2 - r2 * y1;
        let all = y1 * y2;
        assert(SCORE_SCALE * (x1 * y2 - x2 * y1) == whole * all + rest) by (nonlinear_arith)
            requires
                q1 * y1 + r1 == SCORE_SCALE * x1,
                q2 * y2 + r2 == SCORE_SCALE * x2,
                whole == q1 - q2,
                rest == r1 * y2 - r2 * y1,
                all == y1 * y2,
        ;
        assert(all > 0 && 0 <= r1 * y2 < all && 0 <= r2 * y1 < all) by (nonlinear_arith)
            requires
                y1 > 0,
                y2 > 0,
                0 <= r1 < y1,
                0 <= r2 < y2,
                all == y1 * y2,
        ;
        assert(more == (rest > 0));
        assert(whole > bound ==> whole * all + rest > bound * all) by (nonlinear_arith)
            requires
                all > 0,
                -all < rest,
        ;
        assert(whole < bound ==> whole * all + rest < bound * all) by (nonlinear_arith)
            requires
                all > 0,
                rest < all,
        ;
        assert(bound * all == 1000 * (limit * all)) by (nonlinear_arith)
            requires
                bound == limit * 1000,
        ;
    }
    whole > bound || (whole == bound && more)
}

/// A split never makes things worse: its score is not negative, and it is zero if both
/// sides hold the classes in the same proportion.
pub proof fn law_split_never_worsens(pl: int, ml: int, pr: int, mr: int)
    requires
        0 <= pl,
        0 <= ml,
        0 <= pr,
        0 <= mr,
        pl + ml > 0,
        pr + mr > 0,
        pl + ml + pr + mr <= u32::MAX,
    ensures
        gain_score(gini(pl + pr, pl + ml + pr + mr), pl, ml, pr, mr) >= 0,
        pl * mr == pr * ml ==> gain_score(gini(pl + pr, pl + ml + pr + mr), pl, ml, pr, mr) == 0,
{
    let n = pl + ml + pr + mr;
    let (p, m, nl, nr) = (pl + pr, ml + mr, pl + ml, pr + mr);
    let before = gini(p, n);
    lemma_weights(pl, ml, pr, mr);
    assert(0 <= 2 * p * m <= n * n * 2 && 0 < n * n <= 0xffff_ffff * 0xffff_ffff)
        by (nonlinear_arith)
        requires
            0 <= p <= n,
            0 <= m <= n,
            0 < n <= 0xffff_ffff,
    ;
    assert(n - p == m);
    assert(before.num == 2 * p * m && before.den == n * n);
    let wn = weighted_num(pl, ml, pr, mr);
    let wd = weighted_den(pl, ml, pr, mr);
    let gap = pl * mr - pr * ml;
    lemma_between(pl, ml, pr, mr);
    let k = pl * ml * nr + pr * mr * nl;
    let t = p * m * (nl * nr);
    assert(t - n * k == gap * gap);
    assert(2 * p * m * wd == 2 * n * t) by (nonlinear_arith)
        requires
            t == p * m * (nl * nr),
            wd == n * (nl * nr),
    ;
    assert(wn * (n * n) == 2 * n * (n * k)) by (nonlinear_arith)
        requires
            wn == 2 * k,
    ;
    assert(2 * n * t - 2 * n * (n * k) == 2 * (n * (t - n * k))) by (nonlinear_arith);
    assert(2 * p * m * wd - wn * (n * n) == 2 * (n * (gap * gap)));
    assert(n * (gap * gap) >= 0 && (gap == 0 ==> n * (gap * gap) == 0)) by (nonlinear_arith)
        requires
            n > 0,
    ;
    let x = SCORE_SCALE * (before.num * wd - wn * before.den);
    let y = before.den * wd;
    assert(x == SCORE_SCALE * (2 * (n * (gap * gap))));
    assert(x >= 0 && (gap == 0 ==> x == 0)) by (nonlinear_arith)
        requires
            x == SCORE_SCALE * (2 * (n * (gap * gap))),
            n * (gap * gap) >= 0,
            gap == 0 ==> n * (gap * gap) == 0,
    ;
    assert(y > 0) by (nonlinear_arith)
        requires
            y == before.den * wd,
            before.den > 0,
            wd > 0,
    ;
    assert(x / y >= 0 && (x == 0 ==> x / y == 0)) by (nonlinear_arith)
        requires
            x >= 0,
            y > 0,
    ;
}

/// How much two sides differ makes up what the impurity loses.
proof fn lemma_between(pl: int, ml: int, pr: int, mr: int)
    ensures
        (pl + pr) * (ml + mr) * ((pl + ml) * (pr + mr)) - (pl + ml + pr + mr) * (pl * ml * (pr + mr)
            + pr * mr * (pl + ml)) == (pl * mr - pr * ml) * (pl * mr - pr * ml),
{
    let (a, b, c, d) = (pl, ml, pr, mr);
    let (e, f) = (a + b, c + d);
    let (ab, cd, ad, bc, ac, bd) = (a * b, c * d, a * d, b * c, a * c, b * d);
    let s = e * f;
    let t = (a + c) * (b + d);
    assert(s == ac + ad + bc + bd) by (nonlinear_arith)
        requires
            s == (a + b) * (c + d),
            ac == a * c,
            ad == a * d,
            bc == b * c,
            bd == b * d,
    ;
    assert(t == ab + ad + bc + cd) by (nonlinear_arith)
        requires
            t == (a + c) * (b + d),
            ab == a * b,
            ad == a * d,
            bc == b * c,
            cd == c * d,
    ;
    let (x, y) = (ab * f, cd * e);
    assert((e + f) * (x + y) == e * x + e * y + f * x + f * y) by (nonlinear_arith);
    assert(e * x == ab * s && f * y == cd * s) by (nonlinear_arith)
        requires
            x == ab * f,
            y == cd * e,
            s == e * f,
    ;
    assert(f * x == ab * (f * f) && e * y == cd * (e * e)) by (nonlinear_arith)
        requires
            x == ab * f,
            y == cd * e,
    ;
    assert(ab * s + cd * s == (ab + cd) * s) by (nonlinear_arith);
    assert(t * s == (ab + cd) * s + (ad + bc) * s) by (nonlinear_arith)
        requires
            t == ab + ad + bc + cd,
    ;
    assert((ad + bc) * s == (ad + bc) * (ad + bc) + (ad + bc) * (ac + bd)) by (nonlinear_arith)
        requires
            s == ac + ad + bc + bd,
    ;
    assert((ad + bc) * (ac + bd) == ad * ac + ad * bd + bc * ac + bc * bd) by (nonlinear_arith);
    assert(ad * ac == cd * (a * a)) by (nonlinear_arith)
        requires
            ad == a * d,
            ac == a * c,
            cd == c * d,
    ;
    assert(ad * bd == ab * (d * d)) by (nonlinear_arith)
        requires
            ad == a * d,
            bd == b * d,
            ab == a * b,
    ;
    assert(bc * ac == ab * (c * c)) by (nonlinear_arith)
        requires
            bc == b * c,
            ac == a * c,
            ab == a * b,
    ;
    assert(bc * bd == cd * (b * b)) by (nonlinear_arith)
        requires
            bc == b * c,
            bd == b * d,
            cd == c * d,
    ;
    assert(f * f == c * c + 2 * cd + d * d) by (nonlinear_arith)
        requires
            f == c + d,
            cd == c * d,
    ;
    assert(e * e == a * a + 2 * ab + b * b) by (nonlinear_arith)
        requires
            e == a + b,
            ab == a * b,
    ;
    assert(ab * (f * f) == ab * (c * c) + 2 * (ab * cd) + ab * (d * d)) by (nonlinear_arith)
        requires
            f * f == c * c + 2 * cd + d * d,
    ;
    assert(cd * (e * e) == cd * (a * a) + 2 * (ab * cd) + cd * (b * b)) by (nonlinear_arith)
        requires
            e * e == a * a + 2 * ab + b * b,
    ;
    assert(ad * bc == ab * cd) by (nonlinear_arith)
        requires
            ad == a * d,
            bc == b * c,
            ab == a * b,
            cd == c * d,
    ;
    assert((ad - bc) * (ad - bc) == (ad + bc) * (ad + bc) - 4 * (ad * bc)) by (nonlinear_arith);
    assert(c * b == bc) by (nonlinear_arith)
        requires
            bc == b * c,
    ;
}

/// Scales a share up to parts of [`SCORE_SCALE`], digit by digit.
fn scaled(num: u128, den: u128) -> (r: (u128, u128))
    requires
        num <= den,
        0 < den < 0x1000_0000_0000_0000_0000_0000_0000,
    ensures
        r.0 * den + r.1 == SCORE_SCALE * num,
        r.1 < den,
        r.0 <= SCORE_SCALE,
{
    let mut quotient: u128 = 0;
    let mut rest: u128 = num;
    let mut scale: u128 = 1;
    let mut i: u32 = 0;
    while i < 12
        invariant
            0 <= i <= 12,
            num <= den,
            0 < den < 0x1000_0000_0000_0000_0000_0000_0000,
            quotient * den + rest == scale * num,
            i == 0 ==> rest <= den,
            i > 0 ==> rest < den,
            scale == pow10(i as nat),
            quotient <= scale,
            scale <= SCORE_SCALE,
        decreases 12 - i,
    {
        proof {
            reveal_with_fuel(pow10, 14);
        }
        let grown: u128 = rest * 10;
        let digit: u128 = grown / den;
        let left: u128 = grown % den;
        proof {
            lemma_fundamental_div_mod(grown as int, den as int);
            assert((quotient * 10 + digit) * den + left == (scale * 10) * num) by (nonlinear_arith)
                requires
                    quotient * den + rest == scale * num,
                    grown == rest * 10,
                    grown == den * digit + left,
            ;
            assert(quotient * 10 + digit <= scale * 10) by (nonlinear_arith)
                requires
                    (quotient * 10 + digit) * den + left == (scale * 10) * num,
                    num <= den,
                    den > 0,
                    left >= 0,
            ;
        }
        quotient = quotient * 10 + digit;
        rest = left;
        scale = scale * 10;
        i = i + 1;
    }
    proof {
        reveal_with_fuel(pow10, 14);
    }
    (quotient, rest)
}

/// Powers of ten.
spec fn pow10(n: nat) -> nat
    decreases n,
{
    if n == 0 {
        1
    } else {
        10 * pow10((n - 1) as nat)
    }
}

/// A whole part and a rest decide where a quotient is cut off.
proof fn lemma_truncated(num: int, den: int, whole: int, rest: int)
    requires
        den > 0,
        num == whole * den + rest,
        -den < rest < den,
    ensures
        truncated(num, den) == (if whole > 0 && rest < 0 {
            whole - 1
        } else if whole < 0 && rest > 0 {
            whole + 1
        } else {
            whole
        }),
{
    let cut = if whole > 0 && rest < 0 {
        whole - 1
    } else if whole < 0 && rest > 0 {
        whole + 1
    } else {
        whole
    };
    if whole > 0 {
        assert(whole * den >= den) by (nonlinear_arith)
            requires
                whole >= 1,
                den > 0,
        ;
    } else if whole < 0 {
        assert(whole * den <= -den) by (nonlinear_arith)
            requires
                whole <= -1,
                den > 0,
        ;
    } else {
        assert(whole * den == 0) by (nonlinear_arith)
            requires
                whole == 0,
        ;
    }
    if num >= 0 {
        let left = num - cut * den;
        assert(left == num - cut * den && (whole - 1) * den == whole * den - den && 0 * den == 0)
            by (nonlinear_arith)
            requires
                left == num - cut * den,
        ;
        assert(num == cut * den + left);
        lemma_fundamental_div_mod_converse(num, den, cut, left);
    } else {
        let left = -num - (-cut) * den;
        assert((-cut) * den == -(cut * den) && (whole + 1) * den == whole * den + den && 0 * den
            == 0) by (nonlinear_arith);
        assert(-num == (-cut) * den + left);
        lemma_fundamental_div_mod_converse(-num, den, -cut, left);
    }
}

/// Scores a split, and finds the impurities of its sides.
fn compute_gini_gain(
    impurity_before: Fraction,
    num_plus_left: u32,
    num_minus_left: u32,
    num_plus_right: u32,
    num_minus_right: u32,
) -> (r: (Option<i64>, Fraction, Fraction))
    requires
        num_plus_left + num_minus_left + num_plus_right + num_minus_right <= u32::MAX,
        is_share(impurity_before),
    ensures
        (SplitStats {
            num_plus_left,
            num_minus_left,
            num_plus_right,
            num_minus_right,
            impurity_left: r.1,
            impurity_right: r.2,
            score: r.0,
        }).scored(impurity_before),
{
    let num_left: u32 = num_plus_left + num_minus_left;
    let num_right: u32 = num_plus_right + num_minus_right;
    if num_left == 0 || num_right == 0 {
        return (None, Fraction { num: 0, den: 1 }, Fraction { num: 0, den: 1 });
    }
    let num_total: u32 = num_left + num_right;
    let gini_left = gini_impurity(num_plus_left, num_left);
    let gini_right = gini_impurity(num_plus_right, num_right);

    let pl: u128 = num_plus_left as u128;
    let ml: u128 = num_minus_left as u128;
    let pr: u128 = num_plus_right as u128;
    let mr: u128 = num_minus_right as u128;
    let nl: u128 = num_left as u128;
    let nr: u128 = num_right as u128;
    let n: u128 = num_total as u128;
    proof {
        lemma_weights(pl as int, ml as int, pr as int, mr as int);
    }
    let y2: u128 = n * (nl * nr);
    let x2: u128 = 2 * (pl * ml * nr + pr * mr * nl);
    let x1: u128 = impurity_before.num as u128;
    let y1: u128 = impurity_before.den;
    let (q1, r1) = scaled(x1, y1);
    let (q2, r2) = scaled(x2, y2);
    let whole: i64 = q1 as i64 - q2 as i64;
    let low: bool = quotient_below(r1, y1, r2, y2);
    let high: bool = quotient_below(r2, y2, r1, y1);
    let score: i64 = if whole > 0 && low {
        whole - 1
    } else if whole < 0 && high {
        whole + 1
    } else {
        whole
    };
    proof {
        let rest = r1 * y2 - r2 * y1;
        let num = SCORE_SCALE * (x1 * y2 - x2 * y1);
        assert(num == whole * (y1 * y2) + rest) by (nonlinear_arith)
            requires
                q1 * y1 + r1 == SCORE_SCALE * x1,
                q2 * y2 + r2 == SCORE_SCALE * x2,
                whole == q1 - q2,
                rest == r1 * y2 - r2 * y1,
                num == SCORE_SCALE * (x1 * y2 - x2 * y1),
        ;
        assert(y1 * y2 > 0 && 0 <= r1 * y2 < y1 * y2 && 0 <= r2 * y1 < y1 * y2) by (nonlinear_arith)
            requires
                0 <= r1 < y1,
                0 <= r2 < y2,
        ;
        lemma_truncated(num, y1 * y2, whole as int, rest);
    }
    (Some(score), gini_left, gini_right)
}

/// The sizes of the numbers that a score is made of.
pub proof fn lemma_weights(pl: int, ml: int, pr: int, mr: int)
    requires
        0 <= pl,
        0 <= ml,
        0 <= pr,
        0 <= mr,
        pl + ml > 0,
        pr + mr > 0,
        pl + ml + pr + mr <= 0xffff_ffff,
    ensures
        0 < (pl + ml) * (pr + mr) <= 0xffff_ffff * 0xffff_ffff,
        0 < weighted_den(pl, ml, pr, mr) < 0x1000_0000_0000_0000_0000_0000_0000,
        0 <= pl * ml,
        0 <= pr * mr,
        0 <= pl * ml * (pr + mr),
        0 <= pr * mr * (pl + ml),
        0 <= weighted_num(pl, ml, pr, mr) <= weighted_den(pl, ml, pr, mr),
        pl * ml <= weighted_num(pl, ml, pr, mr),
        pr * mr <= weighted_num(pl, ml, pr, mr),
{
    let nl = pl + ml;
    let nr = pr + mr;
    assert(0 < nl * nr <= 0xffff_ffff * 0xffff_ffff) by (nonlinear_arith)
        requires
            0 < nl <= 0xffff_ffff,
            0 < nr <= 0xffff_ffff,
    ;
    assert(0 < (nl + nr) * (nl * nr) <= 0xffff_ffff * (0xffff_ffff * 0xffff_ffff))
        by (nonlinear_arith)
        requires
            0 < nl + nr <= 0xffff_ffff,
            0 < nl * nr <= 0xffff_ffff * 0xffff_ffff,
    ;
    assert(weighted_den(pl, ml, pr, mr) == (nl + nr) * (nl * nr)) by {
        assert(pl + ml + pr + mr == nl + nr);
    }
    assert(0 <= pl * ml && 4 * (pl * ml) <= nl * nl) by (nonlinear_arith)
        requires
            0 <= pl,
            0 <= ml,
            nl == pl + ml,
    ;
    assert(0 <= pr * mr && 4 * (pr * mr) <= nr * nr) by (nonlinear_arith)
        requires
            0 <= pr,
            0 <= mr,
            nr == pr + mr,
    ;
    assert(pl * ml <= pl * ml * nr && 4 * (pl * ml * nr) <= nl * nl * nr) by (nonlinear_arith)
        requires
            0 <= pl * ml,
            4 * (pl * ml) <= nl * nl,
            nr >= 1,
    ;
    assert(pr * mr <= pr * mr * nl && 4 * (pr * mr * nl) <= nr * nr * nl) by (nonlinear_arith)
        requires
            0 <= pr * mr,
            4 * (pr * mr) <= nr * nr,
            nl >= 1,
    ;
    assert(nl * nl * nr + nr * nr * nl == (nl + nr) * (nl * nr)) by (nonlinear_arith);
}

} // verus!
