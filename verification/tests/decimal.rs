//! Exact decimals: the conformance vectors, plus the laws the library states.

use core::cmp::Ordering;
use ehkatra::decimal::{parse_decimal, Decimal};

fn dec(s: &str) -> Decimal {
    match parse_decimal(s) {
        Some(d) => d,
        None => panic!("test vector {s:?} is not a valid decimal literal"),
    }
}

#[test]
fn decimal_addition_is_exact_where_f64_is_not() {
    let sum = dec("0.1").add(&dec("0.2"));
    assert_eq!(sum, Some(dec("0.3")));
    assert_ne!(0.1_f64 + 0.2_f64, 0.3_f64);
}

#[test]
fn cent_reconciliation_has_no_phantom_pennies() {
    let mut exact = Decimal::zero();
    let mut float = 0.0_f64;
    for _ in 0..100 {
        exact = exact.add(&dec("0.01")).expect("no overflow at this scale");
        float += 0.01;
    }
    assert_eq!(exact, Decimal::one());
    assert_eq!(exact.to_string(), "1");
    assert_ne!(float, 1.0, "f64 accumulation drifts");
}

#[test]
fn trailing_zeros_do_not_create_a_second_representation() {
    let a = dec("1.50");
    let b = dec("1.5");
    assert_eq!(a, b);
    assert_eq!(a.coefficient(), b.coefficient());
    assert_eq!(a.exponent(), b.exponent());
    assert_eq!(dec("0.000"), Decimal::zero());
    assert_eq!(dec("-0.0"), Decimal::zero());
}

#[test]
fn decimal_comparison_is_exact() {
    assert!(dec("0.1") < dec("0.2"));
    assert!(dec("-5") < dec("0.0001"));
    assert_eq!(dec("1.50"), dec("1.5"));
    assert!(dec("10").compare(&dec("9.999999")).is_gt());

    let huge = Decimal::new(i128::MAX / 2, 30);
    let tiny = Decimal::new(1, -30);
    assert!(huge > tiny);
    assert!(tiny.compare(&huge).is_lt());

    let huge_neg = huge.neg().expect("negatable");
    assert!(huge_neg < tiny);
    assert!(huge_neg < dec("-1"));
}

#[test]
fn division_rounds_half_even() {
    assert_eq!(dec("1").div(&dec("4")), Some(dec("0.25")));
    assert_eq!(dec("10").div(&dec("2")), Some(dec("5")));

    let third = dec("1").div(&dec("3")).expect("defined");
    assert!(third < dec("0.34") && third > dec("0.33"));

    let half_up_case = dec("0.5").div(&dec("1")).expect("defined");
    assert_eq!(half_up_case, dec("0.5"));
}

#[test]
fn undefined_decimal_operations_return_none_rather_than_panicking() {
    assert_eq!(dec("1").div(&Decimal::zero()), None);
    assert_eq!(Decimal::zero().div(&Decimal::zero()), None);

    let near_max = Decimal::new(i128::MAX, 0);
    assert_eq!(near_max.mul(&Decimal::new(3, 0)), None);
    assert_eq!(near_max.add(&near_max), None);
    assert_eq!(near_max.sub(&Decimal::new(-1, -20)), None);
}

#[test]
fn powers_of_ten_are_absorbed_by_the_exponent() {
    let near_max = Decimal::new(i128::MAX, 0);
    let scaled = near_max.mul(&Decimal::new(10, 0)).expect("exponent absorbs it");
    assert_eq!(scaled.coefficient(), i128::MAX);
    assert_eq!(scaled.exponent(), 1);
    assert!(scaled > near_max);
}

#[test]
fn decimal_parser_rejects_scientific_notation_and_junk() {
    assert_eq!(dec("-12.75").to_string(), "-12.75");
    assert_eq!(dec("+7").to_string(), "7");
    assert_eq!(dec("0.0001").to_string(), "0.0001");

    assert_eq!(parse_decimal("1E2"), None);
    assert_eq!(parse_decimal("1.2.3"), None);
    assert_eq!(parse_decimal(""), None);
    assert_eq!(parse_decimal("abc"), None);
    assert_eq!(parse_decimal("-"), None);
}

#[test]
fn decimal_display_is_plain_and_padded() {
    assert_eq!(dec("1.05").to_string(), "1.05");
    assert_eq!(dec("0.001").to_string(), "0.001");
    assert_eq!(dec("-0.25").to_string(), "-0.25");
    assert_eq!(Decimal::zero().to_string(), "0");
    assert_eq!(Decimal::new(15, 1).to_string(), "150");
}

#[test]
fn addition_and_multiplication_commute_on_examples() {
    let a = dec("12.345");
    let b = dec("-0.07");
    assert_eq!(a.add(&b), b.add(&a));
    assert_eq!(a.mul(&b), b.mul(&a));
    assert_eq!(a.mul(&b), Some(dec("-0.86415")));
}

#[test]
fn construction_strips_trailing_zeros() {
    let d = Decimal::new(1500, -2);
    assert_eq!(d.coefficient(), 15);
    assert_eq!(d.exponent(), 0);
    assert_eq!(Decimal::new(1510, -2).exponent(), -1);
    assert_eq!(Decimal::new(0, 7), Decimal::zero());
    assert_eq!(Decimal::zero().exponent(), 0);
    assert_eq!(Decimal::from_i64(-42).to_string(), "-42");
    assert!(Decimal::from_i64(-42).is_negative());
    assert!(Decimal::new(0, 3).is_zero());
}

#[test]
fn subtraction_is_addition_of_the_negation() {
    let a = dec("3.1");
    let b = dec("1.25");
    assert_eq!(a.sub(&b), Some(dec("1.85")));
    assert_eq!(a.sub(&b), a.add(&b.neg().expect("negatable")));
    assert_eq!(Decimal::new(i128::MIN, 0).neg(), None);
}

#[test]
fn half_even_rounding_at_the_last_kept_digit() {
    // 2/3 = 0.666...6667 at 28 digits: the dropped digits round up.
    let two_thirds = dec("2").div(&dec("3")).expect("defined");
    assert_eq!(two_thirds.to_string(), "0.6666666666666666666666666667");
    assert_eq!(dec("-1").div(&dec("8")), Some(dec("-0.125")));
}

#[test]
fn comparison_orders_like_the_numbers() {
    assert_eq!(dec("2.50").compare(&dec("2.5")), Ordering::Equal);
    assert_eq!(dec("-0.1").compare(&dec("-0.2")), Ordering::Greater);
    assert_eq!(dec("100").compare(&dec("101")), Ordering::Less);
}

#[test]
fn a_sum_that_fits_is_exact_even_when_alignment_would_overflow() {
    let big = Decimal::new(2, 38);
    let other = Decimal::new(1 - 100_000_000_000_000_000_000_000_000_000_000_000_000i128, 0);
    let sum = big.add(&other).unwrap();
    assert_eq!(sum.coefficient(), 100_000_000_000_000_000_000_000_000_000_000_000_001i128);
    assert_eq!(sum.exponent(), 0);
    let back = sum.sub(&other).unwrap();
    assert_eq!(back, big);
}

#[test]
fn a_sum_past_i128_keeps_its_value_through_trailing_zeros() {
    let a = Decimal::new(85_070_591_730_234_615_865_843_651_857_942_052_865i128, 0);
    let s = a.add(&a).unwrap();
    assert_eq!(s.coefficient(), 17_014_118_346_046_923_173_168_730_371_588_410_573i128);
    assert_eq!(s.exponent(), 1);
}

#[test]
fn division_by_one_is_exact_for_large_integers() {
    let a = Decimal::from_i64(2_000_000_001);
    assert_eq!(a.div(&Decimal::one()), Some(a));
    let b = Decimal::from_i64(i64::MAX);
    assert_eq!(b.div(&Decimal::one()), Some(b));
}

#[test]
fn comparison_is_exact_where_alignment_fails() {
    let a = Decimal::new(100_000_000_000_000_000_000_000_000_000_000_000_001i128, 0);
    let b = Decimal::new(2, 38);
    assert_eq!(a.compare(&b), Ordering::Less);
    assert_eq!(b.compare(&a), Ordering::Greater);
    assert_eq!(a.compare(&a), Ordering::Equal);
}

#[test]
fn trailing_fraction_zeros_do_not_overflow_the_parser() {
    let text = format!("1.{}", "0".repeat(40));
    assert_eq!(parse_decimal(&text), Some(Decimal::one()));
    let neg = format!("-25.{}", "0".repeat(60));
    assert_eq!(parse_decimal(&neg), Some(Decimal::from_i64(-25)));
    let long = format!("{}", "9".repeat(40));
    assert_eq!(parse_decimal(&long), None);
}
