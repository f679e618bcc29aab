//! Numbers as text.

use crate::fixed::ONE;
use vstd::prelude::*;

verus! {

/// A digit as a character.
pub open spec fn digit(n: int) -> char {
    "0123456789"@[n]
}

/// A number in some base, without leading zeros.
pub open spec fn digits(n: int, base: int) -> Seq<char>
    decreases n,
    via digits_shrink
{
    if n < base || base < 2 {
        seq![digit(n)]
    } else {
        digits(n / base, base).push(digit(n % base))
    }
}

/// A number has fewer digits without its last one.
#[via_fn]
proof fn digits_shrink(n: int, base: int) {
    if n >= base && base >= 2 {
        assert(0 <= n / base < n) by (nonlinear_arith)
            requires
                n >= base,
                base >= 2,
        ;
    }
}

/// The size of a fixed-point number in parts of 10^4, rounded to the nearest; halves go to
/// the even neighbour.
pub open spec fn ten_thousandths(size: int) -> int {
    let q = size * 10000 / (ONE as int);
    let rest = size * 10000 % (ONE as int);
    if 2 * rest > ONE || (2 * rest == ONE && q % 2 == 1) {
        q + 1
    } else {
        q
    }
}

/// A fixed-point number with four decimals.
pub open spec fn decimal(x: i64) -> Seq<char> {
    let q = ten_thousandths(
        if x < 0 {
            -x
        } else {
            x as int
        },
    );
    let sign = if x < 0 {
        seq!['-']
    } else {
        Seq::empty()
    };
    sign + digits(q / 10000, 10) + seq![
        '.',
        digit(q / 1000 % 10),
        digit(q / 100 % 10),
        digit(q / 10 % 10),
        digit(q % 10),
    ]
}

/// Writes a digit.
fn push_digit(out: &mut String, n: u64)
    requires
        n < 10,
    ensures
        final(out)@ == old(out)@.push(digit(n as int)),
{
    proof {
        reveal_strlit("0123456789");
        reveal_strlit("0");
        reveal_strlit("1");
        reveal_strlit("2");
        reveal_strlit("3");
        reveal_strlit("4");
        reveal_strlit("5");
        reveal_strlit("6");
        reveal_strlit("7");
        reveal_strlit("8");
        reveal_strlit("9");
    }
    match n {
        0 => out.append("0"),
        1 => out.append("1"),
        2 => out.append("2"),
        3 => out.append("3"),
        4 => out.append("4"),
        5 => out.append("5"),
        6 => out.append("6"),
        7 => out.append("7"),
        8 => out.append("8"),
        _ => out.append("9"),
    }
    assert(out@ =~= old(out)@.push(digit(n as int)));
}

/// Writes a number in some base.
pub(crate) fn push_digits(out: &mut String, n: u64, base: u64)
    requires
        2 <= base <= 10,
    ensures
        final(out)@ == old(out)@ + digits(n as int, base as int),
    decreases n,
{
    if n >= base {
        proof {
            assert(n / base < n) by (nonlinear_arith)
                requires
                    n >= base,
                    base >= 2,
            ;
        }
        push_digits(out, n / base, base);
    } else {
        proof {
            vstd::arithmetic::div_mod::lemma_small_mod(n as nat, base as nat);
        }
    }
    push_digit(out, n % base);
    assert(out@ =~= old(out)@ + digits(n as int, base as int));
}

/// Writes a fixed-point number with four decimals.
pub(crate) fn push_decimal(out: &mut String, x: i64)
    ensures
        final(out)@ == old(out)@ + decimal(x),
{
    proof {
        reveal_strlit("-");
        reveal_strlit(".");
    }
    let size: u128 = if x < 0 {
        (-(x as i128)) as u128
    } else {
        x as u128
    };
    if x < 0 {
        out.append("-");
    }
    let one: u128 = ONE as u128;
    let cut: u128 = size * 10000 / one;
    let rest: u128 = size * 10000 % one;
    let q: u64 = if 2 * rest > one || (2 * rest == one && cut % 2 == 1) {
        (cut + 1) as u64
    } else {
        cut as u64
    };
    push_digits(out, q / 10000, 10);
    out.append(".");
    push_digit(out, q / 1000 % 10);
    push_digit(out, q / 100 % 10);
    push_digit(out, q / 10 % 10);
    push_digit(out, q % 10);
    assert(out@ =~= old(out)@ + decimal(x));
}

/// The number that digits stand for in some base.
pub open spec fn number_of(s: Seq<char>, base: int) -> int
    decreases s.len(),
{
    if s.len() == 0 {
        0
    } else {
        number_of(s.drop_last(), base) * base + (s.last() as int - '0' as int)
    }
}

/// Digits read back give the number that they were written for, and start with a zero only
/// if they are no more than that.
pub proof fn law_digits_read_back(n: int, base: int)
    requires
        n >= 0,
        2 <= base <= 10,
    ensures
        number_of(digits(n, base), base) == n,
        digits(n, base).len() >= 1,
        n > 0 ==> digits(n, base)[0] != '0',
    decreases n,
{
    let s = digits(n, base);
    reveal_strlit("0123456789");
    if n < base {
        assert(s.len() == 1);
        assert(s.drop_last() =~= Seq::<char>::empty());
        assert(number_of(s.drop_last(), base) == 0);
        assert(s.last() == digit(n));
    } else {
        let q = n / base;
        let r = n % base;
        vstd::arithmetic::div_mod::lemma_fundamental_div_mod(n, base);
        assert(0 <= r < base);
        assert(0 < q < n) by (nonlinear_arith)
            requires
                n == base * q + r,
                0 <= r < base,
                n >= base,
                base >= 2,
        ;
        law_digits_read_back(q, base);
        assert(s.drop_last() =~= digits(q, base));
        assert(s.last() == digit(r));
        assert(q * base == base * q) by (nonlinear_arith);
        assert(s[0] == digits(q, base)[0]);
    }
}

/// A number is rounded to four decimals: it is off by no more than half of the last one.
pub proof fn law_rounding_is_to_nearest(size: int)
    requires
        size >= 0,
    ensures
        2 * (ten_thousandths(size) * 16777216) - 16777216 <= 2 * (size * 10000) <= 2 * (
        ten_thousandths(size) * 16777216) + 16777216,
        2 * (size * 10000) == 2 * (ten_thousandths(size) * 16777216) + 16777216 || 2 * (size * 10000)
            == 2 * (ten_thousandths(size) * 16777216) - 16777216 ==> ten_thousandths(size) % 2 == 0,
{
}

/// A number with four decimals reads back as what it was rounded to: its sign is written only
/// if it is below zero, what stands before the point are the whole ones, and what stands
/// behind it are four digits.
pub proof fn law_decimal_reads_back(x: i64)
    ensures
        ({
            let size = if x < 0 {
                -x
            } else {
                x as int
            };
            let q = ten_thousandths(size);
            let s = decimal(x);
            let n = s.len() as int;
            let start = if x < 0 {
                1int
            } else {
                0
            };
            &&& n >= 6 + start
            &&& x < 0 <==> s[0] == '-'
            &&& s[n - 5] == '.'
            &&& number_of(s.subrange(start, n - 5), 10) * 10000 + number_of(
                s.subrange(n - 4, n),
                10,
            ) == q
        }),
{
    let size = if x < 0 {
        -x
    } else {
        x as int
    };
    let q = ten_thousandths(size);
    assert(q >= 0);
    let whole = digits(q / 10000, 10);
    law_digits_read_back(q / 10000, 10);
    lemma_digits_are_digits(q / 10000);
    let s = decimal(x);
    let n = s.len() as int;
    let start = if x < 0 {
        1int
    } else {
        0
    };
    assert(s.subrange(start, n - 5) =~= whole);
    let a = q / 1000 % 10;
    let b = q / 100 % 10;
    let c = q / 10 % 10;
    let d = q % 10;
    let four = s.subrange(n - 4, n);
    assert(four =~= seq![digit(a), digit(b), digit(c), digit(d)]);
    lemma_four_digits(a, b, c, d);
    lemma_decimal_places(q);
    reveal_strlit("0123456789");
}

/// What four digits stand for.
proof fn lemma_four_digits(a: int, b: int, c: int, d: int)
    requires
        0 <= a < 10,
        0 <= b < 10,
        0 <= c < 10,
        0 <= d < 10,
    ensures
        number_of(seq![digit(a), digit(b), digit(c), digit(d)], 10) == a * 1000 + b * 100 + c * 10
            + d,
{
    reveal_strlit("0123456789");
    let four = seq![digit(a), digit(b), digit(c), digit(d)];
    let three = four.drop_last();
    let two = three.drop_last();
    let one = two.drop_last();
    assert(one.drop_last() =~= Seq::<char>::empty());
    assert(number_of(one.drop_last(), 10) == 0);
    assert(one.last() == digit(a) && two.last() == digit(b) && three.last() == digit(c)
        && four.last() == digit(d));
    assert(number_of(one, 10) == a);
    assert(number_of(two, 10) == a * 10 + b);
    assert(number_of(three, 10) == (a * 10 + b) * 10 + c);
}

/// A number by its last four places.
proof fn lemma_decimal_places(q: int)
    requires
        q >= 0,
    ensures
        q == q / 10000 * 10000 + (q / 1000 % 10) * 1000 + (q / 100 % 10) * 100 + (q / 10 % 10) * 10
            + q % 10,
{
    let a = q / 10;
    let b = a / 10;
    let c = b / 10;
    assert(q / 100 == b);
    assert(q / 1000 == c);
    assert(q / 10000 == c / 10);
}

/// The first digit of a number is no sign.
proof fn lemma_digits_are_digits(n: int)
    requires
        n >= 0,
    ensures
        digits(n, 10).len() >= 1,
        digits(n, 10)[0] != '-',
    decreases n,
{
    reveal_strlit("0123456789");
    if n >= 10 {
        lemma_digits_are_digits(n / 10);
    }
}

} // verus!
