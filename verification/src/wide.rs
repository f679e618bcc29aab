//! Numbers that are too large for 128 bits, and fractions of them.

use crate::fraction::Fraction;
use crate::order::Key;
use vstd::prelude::*;

verus! {

/// A natural number of 256 bits.
#[derive(Clone, Copy, Debug, PartialEq, Eq, Structural)]
pub struct Wide {
    /// How often 2^128 is in it.
    pub high: u128,
    /// What is left.
    pub low: u128,
}

impl Wide {
    /// The number.
    pub open spec fn value(&self) -> int {
        self.high * 0x1_0000_0000_0000_0000_0000_0000_0000_0000 + self.low
    }

    /// Zero.
    pub fn zero() -> (r: Self)
        ensures
            r.value() == 0,
            r.high == 0,
    {
        Wide { high: 0, low: 0 }
    }

    /// The number and another one.
    pub fn plus(&self, more: u128) -> (r: Self)
        requires
            self.high < u128::MAX,
        ensures
            r.value() == self.value() + more,
            r.high <= self.high + 1,
    {
        let room: u128 = u128::MAX - self.low;
        if more <= room {
            Wide { high: self.high, low: self.low + more }
        } else {
            Wide { high: self.high + 1, low: more - room - 1 }
        }
    }

    /// Tells whether the number is smaller than another one.
    pub fn is_below(&self, other: &Wide) -> (r: bool)
        ensures
            r == (self.value() < other.value()),
    {
        self.high < other.high || (self.high == other.high && self.low < other.low)
    }

    /// The number without another one that is not larger.
    pub fn minus(&self, less: &Wide) -> (r: Self)
        requires
            less.value() <= self.value(),
        ensures
            r.value() == self.value() - less.value(),
    {
        if less.low <= self.low {
            Wide { high: self.high - less.high, low: self.low - less.low }
        } else {
            Wide { high: self.high - less.high - 1, low: u128::MAX - (less.low - self.low) + 1 }
        }
    }
}

/// A whole number of 256 bits.
#[derive(Clone, Copy, Debug, PartialEq, Eq, Structural)]
pub struct Long {
    /// How often 2^128 is in it, rounded down.
    pub high: i128,
    /// What is left.
    pub low: u128,
}

/// The whole number of 256 bits that has a value.
pub open spec fn long(x: int) -> Long {
    Long {
        high: (x / 0x1_0000_0000_0000_0000_0000_0000_0000_0000int) as i128,
        low: (x % 0x1_0000_0000_0000_0000_0000_0000_0000_0000int) as u128,
    }
}

/// Whether a value has room in 256 bits.
pub open spec fn has_room(x: int) -> bool {
    -0x8000_0000_0000_0000_0000_0000_0000_0000 * 0x1_0000_0000_0000_0000_0000_0000_0000_0000int <= x
        < 0x8000_0000_0000_0000_0000_0000_0000_0000 * 0x1_0000_0000_0000_0000_0000_0000_0000_0000int
}

/// A value that has room is that of its number.
pub proof fn lemma_long(x: int)
    requires
        has_room(x),
    ensures
        long(x).value() == x,
{
}

impl Key for Long {
    open spec fn value(&self) -> int {
        self.high * 0x1_0000_0000_0000_0000_0000_0000_0000_0000int + self.low
    }

    fn is_below(&self, other: &Self) -> (r: bool) {
        self.high < other.high || (self.high == other.high && self.low < other.low)
    }

    proof fn lemma_unique(a: Self, b: Self) {
    }
}

impl Long {
    /// Makes a number of 256 bits from one of 128 bits.
    pub fn of(x: i128) -> (r: Self)
        ensures
            r.value() == x,
    {
        if x >= 0 {
            Long { high: 0, low: x as u128 }
        } else {
            Long { high: -1, low: u128::MAX - (-(x + 1)) as u128 }
        }
    }

    /// The number in 128 bits.
    pub fn narrowed(&self) -> (r: i128)
        requires
            i128::MIN <= self.value() <= i128::MAX,
        ensures
            r == self.value(),
    {
        if self.high >= 0 {
            self.low as i128
        } else {
            -((u128::MAX - self.low) as i128) - 1
        }
    }

    /// The number with the other sign.
    pub fn negated(&self) -> (r: Self)
        requires
            self.high > i128::MIN,
        ensures
            r.value() == -self.value(),
    {
        if self.low == 0 {
            Long { high: -self.high, low: 0 }
        } else {
            Long { high: -self.high - 1, low: u128::MAX - self.low + 1 }
        }
    }

    /// The number and another one.
    pub fn plus(&self, other: &Self) -> (r: Self)
        requires
            -0x1000_0000_0000_0000_0000_0000_0000_0000 <= self.high
                <= 0x1000_0000_0000_0000_0000_0000_0000_0000,
            -0x1000_0000_0000_0000_0000_0000_0000_0000 <= other.high
                <= 0x1000_0000_0000_0000_0000_0000_0000_0000,
        ensures
            r.value() == self.value() + other.value(),
    {
        let room: u128 = u128::MAX - self.low;
        if other.low <= room {
            Long { high: self.high + other.high, low: self.low + other.low }
        } else {
            Long { high: self.high + other.high + 1, low: other.low - room - 1 }
        }
    }

    /// The number times another one.
    pub fn times(&self, factor: u64) -> (r: Self)
        requires
            -0x1000_0000_0000_0000 <= self.high <= 0x1000_0000_0000_0000,
        ensures
            r.value() == self.value() * factor,
    {
        let unit: u128 = 0x1_0000_0000_0000_0000;
        let near: u128 = self.low % unit;
        let far: u128 = self.low / unit;
        let f: u128 = factor as u128;
        let ghost b: int = 0x1_0000_0000_0000_0000_0000_0000_0000_0000int;
        assert(0 <= near * f <= 0xffff_ffff_ffff_ffff * 0xffff_ffff_ffff_ffff && 0 <= far * f
            <= 0xffff_ffff_ffff_ffff * 0xffff_ffff_ffff_ffff) by (nonlinear_arith)
            requires
                0 <= near <= 0xffff_ffff_ffff_ffff,
                0 <= far <= 0xffff_ffff_ffff_ffff,
                0 <= f <= 0xffff_ffff_ffff_ffff,
        ;
        let small: u128 = near * f;
        let large: u128 = far * f;
        let over: u128 = large / unit;
        let shifted: u128 = (large % unit) * unit;
        let room: u128 = u128::MAX - shifted;
        let fits: bool = small <= room;
        let low: u128 = if fits {
            shifted + small
        } else {
            small - room - 1
        };
        let carry: i128 = if fits {
            0
        } else {
            1
        };
        assert(-0x1000_0000_0000_0000 * 0xffff_ffff_ffff_ffff <= self.high * factor
            <= 0x1000_0000_0000_0000 * 0xffff_ffff_ffff_ffff) by (nonlinear_arith)
            requires
                -0x1000_0000_0000_0000 <= self.high <= 0x1000_0000_0000_0000,
                0 <= factor <= 0xffff_ffff_ffff_ffff,
        ;
        let high: i128 = self.high * factor as i128 + over as i128 + carry;
        proof {
            let h = self.high as int;
            let l = self.low as int;
            assert(l * f == far * f * unit + near * f) by (nonlinear_arith)
                requires
                    l == far * unit + near,
            ;
            assert((h * b + l) * f == h * f * b + l * f) by (nonlinear_arith);
            assert(large == over * unit + large % unit);
            assert(large * unit == over * b + shifted);
            assert((h * f + over + carry) * b == h * f * b + over * b + carry * b)
                by (nonlinear_arith);
        }
        Long { high, low }
    }

    /// The square of a number.
    pub fn square(x: u128) -> (r: Self)
        requires
            x <= 0x400_0000_0000_0000_0000,
        ensures
            r.value() == x * x,
    {
        let unit: u128 = 0x1_0000_0000_0000_0000;
        let near: u64 = (x % unit) as u64;
        let far: u64 = (x / unit) as u64;
        let small: Long = Long::product(x as i128, near, 1);
        let half: Long = Long::product(x as i128, far, 0x1_0000_0000);
        assert(0 <= x * far * 0x1_0000_0000 <= 0x400_0000_0000_0000_0000 * 0x400 * 0x1_0000_0000)
            by (nonlinear_arith)
            requires
                0 <= x <= 0x400_0000_0000_0000_0000,
                0 <= far <= 0x400,
        ;
        let large: Long = half.times(0x1_0000_0000);
        assert(0 <= x * near <= 0x400_0000_0000_0000_0000 * 0x1_0000_0000_0000_0000)
            by (nonlinear_arith)
            requires
                0 <= x <= 0x400_0000_0000_0000_0000,
                0 <= near <= 0x1_0000_0000_0000_0000,
        ;
        assert(x * x == x * near * 1 + x * far * 0x1_0000_0000 * 0x1_0000_0000) by (nonlinear_arith)
            requires
                x == far * 0x1_0000_0000_0000_0000 + near,
        ;
        small.plus(&large)
    }

    /// The product of three numbers.
    pub fn product(c: i128, x: u64, y: u64) -> (r: Self)
        requires
            -0x1000_0000_0000_0000_0000 <= c <= 0x1000_0000_0000_0000_0000,
        ensures
            r.value() == c * x * y,
            -0x1000_0000_0000_0000_0000_0000 <= r.high <= 0x1000_0000_0000_0000_0000_0000,
    {
        assert(-0x1000_0000_0000_0000_0000 * 0xffff_ffff_ffff_ffff <= c * x
            <= 0x1000_0000_0000_0000_0000 * 0xffff_ffff_ffff_ffff) by (nonlinear_arith)
            requires
                -0x1000_0000_0000_0000_0000 <= c <= 0x1000_0000_0000_0000_0000,
                0 <= x <= 0xffff_ffff_ffff_ffff,
        ;
        let once: Long = Long::of(c).times(x);
        let twice: Long = once.times(y);
        assert(-0x1000_0000_0000_0000_0000 * 0xffff_ffff_ffff_ffff * 0xffff_ffff_ffff_ffff <= c * x
            * y <= 0x1000_0000_0000_0000_0000 * 0xffff_ffff_ffff_ffff * 0xffff_ffff_ffff_ffff)
            by (nonlinear_arith)
            requires
                -0x1000_0000_0000_0000_0000 * 0xffff_ffff_ffff_ffff <= c * x
                    <= 0x1000_0000_0000_0000_0000 * 0xffff_ffff_ffff_ffff,
                0 <= y <= 0xffff_ffff_ffff_ffff,
        ;
        twice
    }
}

/// A fraction of large numbers with a positive denominator.
#[derive(Clone, Copy, Debug, PartialEq, Eq, Structural)]
pub struct WideFraction {
    /// Whether it is below zero.
    pub negative: bool,
    pub num: Wide,
    pub den: Wide,
}

impl WideFraction {
    /// Whether the denominator is positive and zero has no sign.
    pub open spec fn wf(&self) -> bool {
        &&& self.den.value() > 0
        &&& self.negative ==> self.num.value() > 0
    }

    /// The numerator.
    pub open spec fn over(&self) -> int {
        if self.negative {
            -self.num.value()
        } else {
            self.num.value()
        }
    }

    /// The difference of two numbers, divided by a third.
    pub fn of_difference(a: &Wide, b: &Wide, den: Wide) -> (r: Self)
        requires
            den.value() > 0,
        ensures
            r.wf(),
            r.over() == a.value() - b.value(),
            r.den == den,
    {
        if a.is_below(b) {
            WideFraction { negative: true, num: b.minus(a), den }
        } else {
            WideFraction { negative: false, num: a.minus(b), den }
        }
    }

    /// The fraction in 128 bits, if it fits.
    pub fn narrow(&self) -> (r: Option<Fraction>)
        requires
            self.wf(),
        ensures
            match r {
                Some(f) => f.wf() && f.num == self.over() && f.den == self.den.value(),
                None => self.num.value() > i128::MAX || self.den.value() > u128::MAX,
            },
    {
        if self.num.high > 0 || self.num.low > i128::MAX as u128 || self.den.high > 0 {
            return None;
        }
        let num: i128 = self.num.low as i128;
        Some(
            Fraction {
                num: if self.negative {
                    -num
                } else {
                    num
                },
                den: self.den.low,
            },
        )
    }
}

} // verus!
