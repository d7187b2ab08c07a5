use clob::decimal::{Decimal, MAX_MANTISSA};

fn parts(d: Decimal) -> (i128, u32) {
    (d.mantissa(), d.scale())
}

#[test]
fn sums_and_differences_have_the_larger_scale() {
    let a = Decimal::new(1000, 1);
    let b = Decimal::new(25, 3);
    assert_eq!(parts(a.checked_add(b).unwrap()), (100025, 3));
    assert_eq!(parts(a.checked_sub(b).unwrap()), (99975, 3));
    assert_eq!(parts(b.checked_sub(a).unwrap()), (-99975, 3));
}

#[test]
fn a_zero_operand_gives_back_the_other_one() {
    let zero = Decimal::new(0, 5);
    let a = Decimal::new(-250, 2);
    assert_eq!(parts(zero.checked_add(a).unwrap()), (-250, 2));
    assert_eq!(parts(a.checked_add(zero).unwrap()), (-250, 2));
    assert_eq!(parts(zero.checked_sub(a).unwrap()), (250, 2));
    assert_eq!(parts(a.checked_sub(zero).unwrap()), (-250, 2));
    assert_eq!(parts(a.checked_mul(zero).unwrap()), (0, 0));
}

#[test]
fn products_add_up_the_scales() {
    let product = Decimal::new(1002, 1).checked_mul(Decimal::new(15, 1)).unwrap();
    assert_eq!(parts(product), (15030, 2));
}

#[test]
fn too_large_results_overflow() {
    let most = Decimal::from_parts(MAX_MANTISSA, 0).unwrap();
    let one = Decimal::new(1, 0);
    assert!(most.checked_add(one).is_none());
    assert!(most.checked_mul(Decimal::new(2, 0)).is_none());
    assert!(Decimal::new(-1, 0).checked_sub(most).is_none());
    assert_eq!(most.checked_sub(most).unwrap(), Decimal::zero());
}

#[test]
fn a_result_with_too_many_digits_is_rounded() {
    let a = Decimal::from_parts(MAX_MANTISSA, 0).unwrap();
    let b = Decimal::from_parts(1, 28).unwrap();
    let left = a.checked_sub(b).unwrap();
    assert!(left.is_positive());
    assert!(!a.less_than(&left));
    let tiny = b.checked_mul(b).unwrap();
    assert!(tiny.is_zero());
}

#[test]
fn parts_beyond_the_limits_are_turned_down() {
    assert!(Decimal::from_parts(MAX_MANTISSA + 1, 0).is_none());
    assert!(Decimal::from_parts(-MAX_MANTISSA - 1, 0).is_none());
    assert!(Decimal::from_parts(1, 29).is_none());
    assert_eq!(parts(Decimal::from_parts(-MAX_MANTISSA, 28).unwrap()), (-MAX_MANTISSA, 28));
}

#[test]
fn amounts_are_compared_by_value() {
    assert_eq!(Decimal::new(10, 1), Decimal::new(100, 2));
    assert_ne!(Decimal::new(10, 1), Decimal::new(101, 2));
    assert!(Decimal::new(-1, 0).less_than(&Decimal::zero()));
    assert!(Decimal::new(99, 2).less_than(&Decimal::new(1, 0)));
    assert!(!Decimal::new(100, 2).less_than(&Decimal::new(1, 0)));
    assert!(Decimal::new(0, 7).is_zero());
    assert!(Decimal::new(1, 28).is_positive());
}

#[test]
fn quotients_come_from_long_division() {
    let quotient = Decimal::new(7, 0).checked_div(Decimal::new(100, 0)).unwrap();
    assert_eq!(quotient, Decimal::new(7, 2));
    assert!(Decimal::new(7, 0).checked_div(Decimal::new(0, 3)).is_none());
}

#[test]
fn a_product_rounded_to_zero_keeps_its_sign() {
    let a = Decimal::from_parts(-5_000_000_000, 28).unwrap();
    let b = Decimal::new(1, 28);
    let product = a.checked_mul(b).unwrap();
    let outside = rust_decimal::Decimal::from_i128_with_scale(-5_000_000_000, 28)
        .checked_mul(rust_decimal::Decimal::new(1, 28))
        .unwrap();
    assert_eq!(parts(product), (outside.mantissa(), outside.scale()));
    assert_eq!(product.is_sign_negative(), outside.is_sign_negative());
    assert!(product.is_sign_negative());
    assert!(product.is_zero());
    assert_eq!(product, Decimal::zero());
    assert!(!product.less_than(&Decimal::zero()));

    let zero = Decimal::zero();
    assert!(zero.checked_sub(product).unwrap().is_sign_negative());
    assert!(zero.checked_add(product).unwrap().is_sign_negative());
    assert!(!product.checked_add(zero).unwrap().is_sign_negative());
    assert!(!product.checked_sub(zero).unwrap().is_sign_negative());
    assert_eq!(parts(product.checked_sub(Decimal::new(3, 1)).unwrap()), (-3, 1));
    assert_eq!(parts(Decimal::new(3, 1).checked_add(product).unwrap()), (3, 1));
    assert!(!product.checked_mul(b).unwrap().is_sign_negative());
    assert!(!product.checked_div(b).unwrap().is_sign_negative());
    assert!(!Decimal::from_parts(0, 28).unwrap().is_sign_negative());
    assert!(Decimal::new(-3, 1).is_sign_negative());
    assert!(!b.checked_mul(b).unwrap().is_sign_negative());
}

#[test]
fn a_sign_has_to_go_with_the_mantissa() {
    let signed = Decimal::from_signed_parts(0, 3, true).unwrap();
    assert!(signed.is_sign_negative());
    assert!(signed.is_zero());
    assert_eq!(parts(Decimal::from_signed_parts(-7, 1, true).unwrap()), (-7, 1));
    assert!(!Decimal::from_signed_parts(0, 3, false).unwrap().is_sign_negative());
    assert!(Decimal::from_signed_parts(7, 0, true).is_none());
    assert!(Decimal::from_signed_parts(-7, 0, false).is_none());
    assert!(Decimal::from_signed_parts(7, 29, false).is_none());
    assert!(Decimal::from_signed_parts(MAX_MANTISSA + 1, 0, false).is_none());
}
