use boolean_inference::semiring::{BigCount, CheckedU128, RationalWeight, Weight, WeightError};
use num_bigint::BigUint;

#[test]
fn rational_weight_is_a_sum_product_semiring() {
    // (2/3) + (2/3) = 4/3; (4/3) * (3/2) = 2.
    let mut a = RationalWeight::ratio(2, 3);
    a.add(&RationalWeight::ratio(2, 3));
    assert_eq!(a, RationalWeight::ratio(4, 3));
    let b = a.mul(&RationalWeight::ratio(3, 2));
    assert_eq!(b, RationalWeight::integer(2));
    assert!(RationalWeight::zero().is_zero());
    // free_factor is the tensorless unit-weight value count = 2, NOT a literal
    // weight sum (those ride on 1-ary tensors, not free_factor).
    assert_eq!(RationalWeight::free_factor(3), RationalWeight::integer(2));
}

#[test]
fn bigcount_is_a_sum_product_semiring() {
    let mut a = BigCount::one();
    a.add(&BigCount::one()); // 1 + 1 = 2
    assert_eq!(a.to_decimal(), "2");
    let b = a.mul(&BigCount::from_u64(3)); // 2 * 3 = 6
    assert_eq!(b.to_decimal(), "6");
    assert!(BigCount::zero().is_zero());
    assert!(!BigCount::one().is_zero());
    // free_factor is 2 for plain counting, regardless of var id.
    assert_eq!(BigCount::free_factor(7).to_decimal(), "2");
}

#[test]
fn bigcount_exceeds_u128_without_wrapping() {
    // 2^200 has no u128 representation; BigUint holds it exactly.
    let mut w = BigCount::one();
    for _ in 0..200 {
        w = w.mul(&BigCount::from_u64(2));
    }
    assert_eq!(w.to_decimal(), BigUint::from(2u32).pow(200).to_string());
}

#[test]
fn checked_u128_matches_bigcount_within_range() {
    let mut a = CheckedU128::one();
    a.add(&CheckedU128::one());
    let b = a.mul(&CheckedU128::new(3));
    assert_eq!(b.value(), 6);
    assert!(CheckedU128::zero().is_zero());
}

#[test]
fn checked_u128_reports_overflow() {
    let mut sum = CheckedU128::new(u128::MAX);
    sum.add(&CheckedU128::one());
    assert!(sum.checked_value().is_none());
    assert!(CheckedU128::new(1u128 << 127).mul(&CheckedU128::new(4)).checked_value().is_none());
    assert_eq!(CheckedU128::new(7).mul(&CheckedU128::new(6)).checked_value(), Some(42));
}

#[test]
fn rational_weights_parse_exactly() {
    let text = |s: &str| RationalWeight::parse(s).expect("weight").to_ratio_string();
    assert_eq!(text("3"), "3/1");
    assert_eq!(text("0.75"), "3/4");
    assert_eq!(text("-0.5"), "-1/2");
    assert_eq!(text(" 6/4 "), "3/2");
    assert_eq!(text("7/-14"), "-1/2");
}

#[test]
fn rational_weights_reject_what_is_no_number() {
    assert_eq!(RationalWeight::parse("1/0").unwrap_err(), WeightError::ZeroDenominator);
    assert_eq!(RationalWeight::parse("x").unwrap_err(), WeightError::BadInteger);
    assert_eq!(RationalWeight::parse("1/x").unwrap_err(), WeightError::BadDenominator);
    assert_eq!(RationalWeight::parse("x/1").unwrap_err(), WeightError::BadNumerator);
    assert_eq!(RationalWeight::parse("1.x").unwrap_err(), WeightError::BadFractionalPart);
    assert_eq!(RationalWeight::parse("x.5").unwrap_err(), WeightError::BadIntegerPart);
    assert_eq!(WeightError::BadInteger.message(), "bad integer");
    assert_eq!(WeightError::BadInteger.quoted(" x "), "x");
    assert_eq!(WeightError::ZeroDenominator.quoted("1/0 "), "1/0");
    assert_eq!(WeightError::BadDenominator.quoted("1/ x"), " x");
    assert_eq!(WeightError::BadNumerator.quoted("x /1"), "x ");
    assert_eq!(WeightError::BadFractionalPart.quoted("1.x"), "x");
    assert_eq!(WeightError::BadIntegerPart.quoted("-x.5"), "-x");
    assert!(RationalWeight::parse("").is_err());
}
