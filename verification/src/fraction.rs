//! Exact fractions.

use vstd::prelude::*;

verus! {

/// A fraction with a positive denominator.
#[derive(Clone, Copy, Debug, PartialEq, Eq, Structural)]
pub struct Fraction {
    pub num: i128,
    pub den: u128,
}

impl Fraction {
    /// Whether the denominator is positive.
    pub open spec fn wf(&self) -> bool {
        self.den > 0
    }

    /// Whether one fraction is smaller than another.
    pub open spec fn below(&self, other: &Fraction) -> bool {
        self.num * other.den < other.num * self.den
    }

    /// Makes a fraction.
    pub fn new(num: i128, den: u128) -> (r: Self)
        requires
            den > 0,
        ensures
            r == (Fraction { num, den }),
            r.wf(),
    {
        Fraction { num, den }
    }

    /// Tells whether a fraction is smaller than another, exactly.
    pub fn is_below(&self, other: &Fraction) -> (r: bool)
        requires
            self.wf(),
            other.wf(),
        ensures
            r == self.below(other),
    {
        if self.num < 0 {
            if other.num >= 0 {
                assert(self.num * other.den < 0 <= other.num * self.den) by (nonlinear_arith)
                    requires
                        self.num < 0,
                        other.num >= 0,
                        self.den > 0,
                        other.den > 0,
                ;
                true
            } else {
                let a: u128 = (-(self.num + 1)) as u128 + 1;
                let b: u128 = (-(other.num + 1)) as u128 + 1;
                assert(a == -self.num && b == -other.num);
                assert((b * self.den < a * other.den) == (self.num * other.den < other.num
                    * self.den)) by (nonlinear_arith)
                    requires
                        a == -self.num,
                        b == -other.num,
                ;
                quotient_below(b, other.den, a, self.den)
            }
        } else if other.num < 0 {
            assert(self.num * other.den >= 0 > other.num * self.den) by (nonlinear_arith)
                requires
                    self.num >= 0,
                    other.num < 0,
                    self.den > 0,
                    other.den > 0,
            ;
            false
        } else {
            quotient_below(self.num as u128, self.den, other.num as u128, other.den)
        }
    }
}

/// Tells whether `a / b` is smaller than `c / d`, by comparing whole parts and going
/// on with the reciprocals of what is left over.
pub fn quotient_below(a: u128, b: u128, c: u128, d: u128) -> (r: bool)
    requires
        b > 0,
        d > 0,
    ensures
        r == (a * d < c * b),
    decreases b + d,
{
    let p: u128 = a / b;
    let q: u128 = c / d;
    let s: u128 = a % b;
    let t: u128 = c % d;
    proof {
        vstd::arithmetic::div_mod::lemma_fundamental_div_mod(a as int, b as int);
        vstd::arithmetic::div_mod::lemma_fundamental_div_mod(c as int, d as int);
        lemma_quotients(a as int, b as int, c as int, d as int, p as int, s as int, q as int, t as int);
    }
    if p < q {
        true
    } else if p > q {
        false
    } else if t == 0 {
        assert(s * d >= 0 && t * b == 0) by (nonlinear_arith)
            requires
                t == 0,
                s >= 0,
                d > 0,
        ;
        false
    } else if s == 0 {
        assert(s * d == 0 && t * b > 0) by (nonlinear_arith)
            requires
                t > 0,
                s == 0,
                b > 0,
        ;
        true
    } else {
        assert((d * s < b * t) == (s * d < t * b)) by (nonlinear_arith);
        quotient_below(d, t, b, s)
    }
}

/// How whole parts and remainders decide the order of two quotients.
proof fn lemma_quotients(a: int, b: int, c: int, d: int, p: int, s: int, q: int, t: int)
    requires
        b > 0,
        d > 0,
        a == b * p + s,
        c == d * q + t,
        0 <= s < b,
        0 <= t < d,
    ensures
        p < q ==> a * d < c * b,
        p > q ==> a * d >= c * b,
        p == q ==> (a * d < c * b) == (s * d < t * b),
{
    assert(a * d == (p * (b * d)) + s * d) by (nonlinear_arith)
        requires
            a == b * p + s,
    ;
    assert(c * b == (q * (b * d)) + t * b) by (nonlinear_arith)
        requires
            c == d * q + t,
    ;
    assert(0 <= s * d < b * d) by (nonlinear_arith)
        requires
            0 <= s < b,
            d > 0,
    ;
    assert(0 <= t * b < b * d) by (nonlinear_arith)
        requires
            0 <= t < d,
            b > 0,
    ;
    if p < q {
        assert((p + 1) * (b * d) <= q * (b * d)) by (nonlinear_arith)
            requires
                p + 1 <= q,
                b > 0,
                d > 0,
        ;
        assert((p + 1) * (b * d) == p * (b * d) + b * d) by (nonlinear_arith);
    }
    if p > q {
        assert((q + 1) * (b * d) <= p * (b * d)) by (nonlinear_arith)
            requires
                q + 1 <= p,
                b > 0,
                d > 0,
        ;
        assert((q + 1) * (b * d) == q * (b * d) + b * d) by (nonlinear_arith);
    }
}

} // verus!
