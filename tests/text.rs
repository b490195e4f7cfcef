use cep_rank::text::{contains_text, parse_i32_decimal, parse_int_or_zero, same_text, starts_with};

#[test]
fn parses_plain_and_signed_decimals() {
    assert_eq!(parse_i32_decimal("71000123"), Some(71000123));
    assert_eq!(parse_i32_decimal("-45"), Some(-45));
    assert_eq!(parse_i32_decimal("+7"), Some(7));
    assert_eq!(parse_i32_decimal("007"), Some(7));
    assert_eq!(parse_i32_decimal("-0"), Some(0));
}

#[test]
fn parses_the_i32_limits() {
    assert_eq!(parse_i32_decimal("2147483647"), Some(i32::MAX));
    assert_eq!(parse_i32_decimal("-2147483648"), Some(i32::MIN));
    assert_eq!(parse_i32_decimal("2147483648"), None);
    assert_eq!(parse_i32_decimal("-2147483649"), None);
    assert_eq!(parse_i32_decimal("99999999999999999999"), None);
}

#[test]
fn rejects_what_is_not_a_decimal() {
    assert_eq!(parse_i32_decimal(""), None);
    assert_eq!(parse_i32_decimal("-"), None);
    assert_eq!(parse_i32_decimal("+"), None);
    assert_eq!(parse_i32_decimal("abc"), None);
    assert_eq!(parse_i32_decimal("71-000"), None);
    assert_eq!(parse_i32_decimal(" 71"), None);
    assert_eq!(parse_i32_decimal("--1"), None);
}

#[test]
fn unparsable_text_counts_as_zero() {
    assert_eq!(parse_int_or_zero("abc"), 0);
    assert_eq!(parse_int_or_zero(""), 0);
    assert_eq!(parse_int_or_zero("71000100"), 71000100);
    assert_eq!(parse_int_or_zero("-12"), -12);
}

#[test]
fn prefix_equality_and_substring_tests() {
    assert!(starts_with("71000100", "71"));
    assert!(!starts_with("70000100", "71"));
    assert!(!starts_with("7", "71"));
    assert!(starts_with("", ""));
    assert!(same_text("2", "2"));
    assert!(!same_text("2", "22"));
    assert!(!same_text("1", "2"));
    assert!(contains_text("620199", "6201"));
    assert!(contains_text("xx6201", "6201"));
    assert!(!contains_text("620", "6201"));
    assert!(!contains_text("6210", "6201"));
    assert!(contains_text("anything", ""));
    assert!(contains_text("", ""));
}
