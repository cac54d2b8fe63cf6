//! Exact values.

use std::cmp::Ordering;

use ahpcl::ast::{Constant, Sign};
use ahpcl::eval::decimal::Decimal;
use ahpcl::eval::numeric::{constant_value, int_width_range, integer_sqrt};
use ahpcl::eval::parse::unicode_digit_to_ascii;
use ahpcl::eval::rational::Rational;
use ahpcl::eval::value::{Array, Value};

#[test]
fn decimals_are_exact_where_binary_floats_are_not() {
    let a = Decimal::parse("0.1").unwrap();
    let b = Decimal::parse("0.2").unwrap();
    let sum = a.add(b).unwrap();
    assert_eq!(sum.normalised(), Decimal::parse("0.3").unwrap());
    assert_eq!(sum.text(), "0.3");
}

#[test]
fn a_third_is_exact_as_a_rational() {
    let third = Rational::new(1, 3).unwrap();
    let sum = third.add(third).unwrap().add(third).unwrap();
    assert_eq!(sum, Rational::from_int(1), "three thirds are exactly one");
}

#[test]
fn rationals_reduce_to_lowest_terms() {
    assert_eq!(Rational::new(2, 4).unwrap(), Rational::new(1, 2).unwrap());
    assert_eq!(Rational::new(-6, -8).unwrap().text(), "3/4");
    assert_eq!(Rational::new(6, -8).unwrap().text(), "-3/4");
}

#[test]
fn division_by_zero_is_refused_rather_than_producing_infinity() {
    assert!(Rational::new(1, 0).is_none());
    assert!(Rational::from_int(1).div(Rational::from_int(0)).is_none());
}

#[test]
fn decimals_parse_and_print_round_trip() {
    for text in ["0.1", "-42", "3.14159", "0.5", "1000"] {
        let d = Decimal::parse(text).unwrap();
        assert_eq!(d.text(), text, "round trip of {text}");
    }
    assert_eq!(Decimal::parse(".5").unwrap().text(), "0.5");
}

#[test]
fn decimal_multiplication_keeps_every_digit() {
    let a = Decimal::parse("0.1").unwrap();
    let b = Decimal::parse("0.02").unwrap();
    assert_eq!(a.mul(b).unwrap().text(), "0.002");
}

#[test]
fn comparison_works_across_scales() {
    let a = Decimal::parse("0.10").unwrap();
    let b = Decimal::parse("0.1").unwrap();
    assert_eq!(a.compare(b), Some(Ordering::Equal));
    assert_eq!(
        Decimal::parse("0.9").unwrap().compare(Decimal::parse("0.10").unwrap()),
        Some(Ordering::Greater)
    );
}

#[test]
fn integer_powers_are_exact_for_rationals() {
    let third = Rational::new(1, 3).unwrap();
    assert_eq!(third.pow_int(2).unwrap(), Rational::new(1, 9).unwrap());
    assert_eq!(third.pow_int(3).unwrap(), Rational::new(1, 27).unwrap());
}

#[test]
fn integer_powers_are_exact_for_decimals() {
    let a = Decimal::parse("1.1").unwrap();
    let p = a.pow_int(20).unwrap();
    assert!(
        p.text().starts_with("6.7274999493256"),
        "got {}", p.text()
    );
}

#[test]
fn division_that_terminates_is_exact() {
    let a = Decimal::parse("1").unwrap();
    let b = Decimal::parse("8").unwrap();
    assert_eq!(a.div_exact(b, 30).unwrap().text(), "0.125");
}

#[test]
fn division_that_repeats_is_correctly_rounded() {
    let a = Decimal::parse("58").unwrap();
    let b = Decimal::parse("3").unwrap();
    assert_eq!(a.div_exact(b, 15).unwrap().text(), "19.333333333333333");
}

#[test]
fn truncating_division_and_remainder_are_separate_operations() {
    let a = Decimal::parse("7.5").unwrap();
    let b = Decimal::from_int(2);
    assert_eq!(a.int_div(b), Some(3), "// truncates");
    assert_eq!(a.rem(b).unwrap().text(), "1.5", "mod is the remainder");
}

#[test]
fn dividing_by_zero_is_refused_in_every_form() {
    let a = Decimal::parse("7.5").unwrap();
    let zero = Decimal::from_int(0);
    assert!(a.div_exact(zero, 15).is_none());
    assert!(a.int_div(zero).is_none());
    assert!(a.rem(zero).is_none());
}

#[test]
fn value_overflow_is_reported_rather_than_wrapping() {
    let big = Decimal::new(i128::MAX, 0);
    assert!(big.add(Decimal::from_int(1)).is_none(), "overflow must not wrap");
}

#[test]
fn numbers_spell_their_digits_out() {
    assert_eq!(Decimal::new(i128::MIN, 0).text(), "-170141183460469231731687303715884105728");
    assert_eq!(Decimal::new(5, 3).text(), "0.005");
    assert_eq!(Decimal::new(-1500, 3).text(), "-1.5");
    assert_eq!(Rational::new(4, 2).unwrap().text(), "2");
    assert_eq!(Rational::new(i128::MIN, i128::MIN), Some(Rational::from_int(1)));
}

#[test]
fn only_numbers_parse() {
    for text in ["", "-", ".", "1.2.3", "1e5", "0x10", "one", "170141183460469231731687303715884105728"] {
        assert_eq!(Decimal::parse(text), None, "{text:?}");
    }
    assert_eq!(Decimal::parse("\u{3000} +7 \u{a0}"), Some(Decimal::from_int(7)));
}

#[test]
fn roots_keep_the_digits_asked_for() {
    assert_eq!(Decimal::from_int(2).sqrt_to(18).unwrap().text(), "1.414213562373095048");
    assert_eq!(Decimal::from_int(9).sqrt_to(15).unwrap().text(), "3");
    assert_eq!(integer_sqrt(99), 9);
    assert_eq!(integer_sqrt(u128::MAX - 1), 18446744073709551615);
}

#[test]
fn constants_are_rounded_to_their_place() {
    assert_eq!(constant_value(Constant::Pi, 10).text(), "3.1415926536");
    assert_eq!(constant_value(Constant::E, 5).text(), "2.71828");
    assert_eq!(constant_value(Constant::Tau, 3).text(), "6.283");
}

#[test]
fn division_rounds_to_the_nearest_last_place() {
    let two = Decimal::from_int(2);
    let three = Decimal::from_int(3);
    assert_eq!(two.div_exact(three, 4).unwrap().text(), "0.6667");
    assert_eq!(Decimal::from_int(-2).div_exact(three, 4).unwrap().text(), "-0.6667");
    assert_eq!(Decimal::parse("-7.5").unwrap().int_div(two), Some(-4));
    assert_eq!(Decimal::parse("-7.5").unwrap().rem(two).unwrap().text(), "0.5");
}

#[test]
fn powers_invert_and_overflow() {
    let r = Rational::new(2, 3).unwrap();
    assert_eq!(r.pow_int(-2), Rational::new(9, 4));
    assert_eq!(Rational::from_int(0).pow_int(-1), None);
    assert_eq!(Decimal::from_int(10).pow_int(39), None);
    assert_eq!(Rational::from_int(1).compare(r), Some(Ordering::Greater));
}

#[test]
fn widths_hold_what_they_say() {
    assert_eq!(int_width_range(8, None), (-128, 127));
    assert_eq!(int_width_range(8, Some(Sign::Positive)), (1, 255));
    assert_eq!(int_width_range(8, Some(Sign::Negative)), (-255, -1));
    assert_eq!(int_width_range(128, None), (i128::MIN, i128::MAX));
}

#[test]
fn values_say_what_they_are() {
    assert_eq!(Value::Int(3).kind_name(), "int");
    assert!(Value::Deci(Decimal::from_int(1)).is_numeric());
    assert!(!Value::Str("a".to_string()).is_numeric());
    let a = Value::Array(Array { items: vec![Value::Int(1), Value::Bool(true)], shape: vec![2] });
    assert_eq!(a.text(), "{1, true}");
    assert_eq!(unicode_digit_to_ascii('٣'), '3');
    assert_eq!(unicode_digit_to_ascii('x'), 'x');
}
