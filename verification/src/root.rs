//! Square roots.

use crate::order::Key;
use crate::wide::Long;
use vstd::prelude::*;

verus! {

/// The square root of a number, without its fraction.
pub open spec fn root_of(n: int) -> int
    decreases n,
{
    if n <= 0 {
        0
    } else {
        let r = root_of(n - 1);
        if (r + 1) * (r + 1) <= n {
            r + 1
        } else {
            r
        }
    }
}

/// What a square root is.
pub proof fn lemma_root(n: int)
    requires
        n >= 0,
    ensures
        root_of(n) >= 0,
        root_of(n) * root_of(n) <= n < (root_of(n) + 1) * (root_of(n) + 1),
    decreases n,
{
    if n > 0 {
        lemma_root(n - 1);
        let r = root_of(n - 1);
        assert((r + 2) * (r + 2) == (r + 1) * (r + 1) + 2 * r + 3) by (nonlinear_arith);
        assert(r + 1 >= 0);
    }
}

/// There is only one square root.
pub proof fn lemma_root_unique(n: int, r: int)
    requires
        n >= 0,
        r >= 0,
        r * r <= n < (r + 1) * (r + 1),
    ensures
        r == root_of(n),
{
    lemma_root(n);
    let s = root_of(n);
    if r < s {
        assert((r + 1) * (r + 1) <= s * s) by (nonlinear_arith)
            requires
                0 <= r,
                r + 1 <= s,
        ;
    }
    if s < r {
        assert((s + 1) * (s + 1) <= r * r) by (nonlinear_arith)
            requires
                0 <= s,
                s + 1 <= r,
        ;
    }
}

/// Finds the square root of a number, without its fraction.
pub fn square_root(n: u128) -> (r: u64)
    ensures
        r == root_of(n as int),
{
    let mut low: u128 = 0;
    let mut high: u128 = 0x1_0000_0000_0000_0000;
    while high - low > 1
        invariant
            low < high <= 0x1_0000_0000_0000_0000,
            low * low <= n < high * high,
        decreases high - low,
    {
        let mid: u128 = low + (high - low) / 2;
        proof {
            assert(0 <= mid * mid < 0x1_0000_0000_0000_0000 * 0x1_0000_0000_0000_0000)
                by (nonlinear_arith)
                requires
                    0 <= mid < 0x1_0000_0000_0000_0000,
            ;
        }
        if mid * mid <= n {
            low = mid;
        } else {
            high = mid;
        }
    }
    proof {
        lemma_root_unique(n as int, low as int);
    }
    low as u64
}

/// What is below a quotient, and what is above it.
proof fn lemma_quotient(a: int, k: int, x: int)
    requires
        k > 0,
        a >= 0,
    ensures
        x * k <= a <==> x <= a / k,
{
    vstd::arithmetic::div_mod::lemma_fundamental_div_mod(a, k);
    let q = a / k;
    let r = a % k;
    if x <= q {
        assert(x * k <= q * k) by (nonlinear_arith)
            requires
                x <= q,
                k > 0,
        ;
        assert(k * q == q * k) by (nonlinear_arith);
    } else {
        assert(x * k >= q * k + k) by (nonlinear_arith)
            requires
                x >= q + 1,
                k > 0,
        ;
        assert(k * q == q * k) by (nonlinear_arith);
    }
}

/// Finds the square root of a quotient, without its fraction, as far as a number of 64 bits
/// can hold it.
pub fn root_of_quotient(a: &Long, k: i128) -> (r: i64)
    requires
        a.value() >= 0,
        0 < k <= 0x1000_0000_0000_0000_0000,
    ensures
        r == (if root_of(a.value() / k as int) <= i64::MAX {
            root_of(a.value() / k as int)
        } else {
            i64::MAX as int
        }),
        r >= 0,
{
    let mut low: u64 = 0;
    let mut high: u64 = 0x8000_0000_0000_0000;
    let ghost q = a.value() / k as int;
    proof {
        lemma_quotient(a.value(), k as int, 0);
    }
    while high - low > 1
        invariant
            low < high <= 0x8000_0000_0000_0000,
            a.value() >= 0,
            0 < k <= 0x1000_0000_0000_0000_0000,
            q == a.value() / k as int,
            low * low <= q,
            high < 0x8000_0000_0000_0000 ==> q < high * high,
        decreases high - low,
    {
        let mid: u64 = low + (high - low) / 2;
        let square: Long = Long::product(k, mid, mid);
        proof {
            assert(k * mid * mid == (mid * mid) * k) by (nonlinear_arith);
            lemma_quotient(a.value(), k as int, mid * mid);
        }
        if a.is_below(&square) {
            high = mid;
        } else {
            low = mid;
        }
    }
    proof {
        lemma_root(q);
        let s = root_of(q);
        if high < 0x8000_0000_0000_0000 {
            lemma_root_unique(q, low as int);
        } else {
            assert(s >= low) by (nonlinear_arith)
                requires
                    low * low <= q,
                    q < (s + 1) * (s + 1),
                    s >= 0,
                    low >= 0,
            ;
        }
    }
    low as i64
}

} // verus!
