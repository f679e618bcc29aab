use suda_core::order::Key;
use suda_core::wide::{Long, Wide, WideFraction};

#[test]
fn sums_carry_and_differences_borrow() {
    let big = Wide::zero().plus(u128::MAX);
    assert_eq!(big, Wide { high: 0, low: u128::MAX });
    let sum = big.plus(5);
    assert_eq!(sum, Wide { high: 1, low: 4 });
    assert_eq!(sum.minus(&Wide { high: 0, low: 5 }), big);
    assert!(big.is_below(&sum));
    assert!(!sum.is_below(&sum));
}

#[test]
fn fractions_become_narrow_if_they_fit() {
    let two = Wide { high: 0, low: 2 };
    let six = Wide { high: 0, low: 6 };
    let f = WideFraction::of_difference(&two, &six, Wide { high: 0, low: 8 });
    let g = f.narrow().unwrap();
    assert_eq!((g.num, g.den), (-4, 8));
    let g = WideFraction::of_difference(&six, &six, two).narrow().unwrap();
    assert_eq!((g.num, g.den), (0, 2));
    assert!(WideFraction::of_difference(&six, &two, Wide { high: 1, low: 0 }).narrow().is_none());
    let large = Wide { high: 0, low: i128::MAX as u128 + 1 };
    assert!(WideFraction::of_difference(&large, &Wide::zero(), two).narrow().is_none());
}

#[test]
fn long_numbers_have_signs() {
    let minus = Long::of(-3);
    assert_eq!(minus, Long { high: -1, low: u128::MAX - 2 });
    assert_eq!(minus.negated(), Long::of(3));
    assert_eq!(minus.narrowed(), -3);
    assert_eq!(Long::of(i128::MIN).narrowed(), i128::MIN);
    assert_eq!(minus.plus(&Long::of(5)), Long::of(2));
    assert_eq!(Long { high: -7, low: 0 }.negated(), Long { high: 7, low: 0 });
    assert!(minus.is_below(&Long::of(0)));
    assert!(Long { high: -2, low: u128::MAX }.is_below(&minus));
}

#[test]
fn long_products_carry() {
    let top = u64::MAX;
    assert_eq!(Long::of(6).times(7), Long::of(42));
    // (2^64 - 1)^2 * 2^64 = 2^192 - 2^129 + 2^64
    let r = Long::product(1 << 64, top, top);
    assert_eq!(r, Long { high: (1 << 64) - 2, low: 1 << 64 });
    assert_eq!(Long::product(-(1 << 64), top, top), r.negated());
    assert_eq!(Long { high: 0, low: u128::MAX }.times(top), Long { high: (1 << 64) - 2, low: u128::MAX - top as u128 + 1 });
    assert_eq!(Long::product(0, top, top), Long::of(0));
}
