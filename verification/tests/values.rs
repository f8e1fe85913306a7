use csv_parser::decimal::{decimal_lt, parse_decimal, Decimal};
use csv_parser::number::{parse_bool, parse_i32, parse_i64};
use csv_parser::table::{datum_fits, datum_lt, Datum};
use csv_parser::schema::ColumnType;

fn dec(negative: bool, mantissa: u64, exponent: i32) -> Decimal {
    Decimal { negative, mantissa, exponent }
}

#[test]
fn parse_i64_reads_exact_base_ten() {
    assert_eq!(parse_i64(b"0"), Some(0));
    assert_eq!(parse_i64(b"123"), Some(123));
    assert_eq!(parse_i64(b"-45"), Some(-45));
    assert_eq!(parse_i64(b"+7"), Some(7));
    assert_eq!(parse_i64(b"007"), Some(7));
    assert_eq!(parse_i64(b"9223372036854775807"), Some(i64::MAX));
    assert_eq!(parse_i64(b"-9223372036854775808"), Some(i64::MIN));
}

#[test]
fn parse_i64_rejects_overflow() {
    assert_eq!(parse_i64(b"9223372036854775808"), None);
    assert_eq!(parse_i64(b"-9223372036854775809"), None);
    assert_eq!(parse_i64(b"99999999999999999999999999"), None);
}

#[test]
fn parse_i64_rejects_what_is_no_integer() {
    assert_eq!(parse_i64(b""), None);
    assert_eq!(parse_i64(b"-"), None);
    assert_eq!(parse_i64(b"+"), None);
    assert_eq!(parse_i64(b"12a"), None);
    assert_eq!(parse_i64(b"1.0"), None);
    assert_eq!(parse_i64(b" 1"), None);
    assert_eq!(parse_i64(b"--1"), None);
    assert_eq!(parse_i64(b"abc"), None);
}

#[test]
fn parse_i32_reads_and_checks_the_range() {
    assert_eq!(parse_i32(b"2147483647"), Some(i32::MAX));
    assert_eq!(parse_i32(b"-2147483648"), Some(i32::MIN));
    assert_eq!(parse_i32(b"2147483648"), None);
    assert_eq!(parse_i32(b"-2147483649"), None);
    assert_eq!(parse_i32(b"42"), Some(42));
    assert_eq!(parse_i32(b"x"), None);
}

#[test]
fn parse_bool_ignores_case() {
    assert_eq!(parse_bool(b"true"), Some(true));
    assert_eq!(parse_bool(b"false"), Some(false));
    assert_eq!(parse_bool(b"TRUE"), Some(true));
    assert_eq!(parse_bool(b"False"), Some(false));
    assert_eq!(parse_bool(b"tRuE"), Some(true));
}

#[test]
fn parse_bool_rejects_other_tokens() {
    assert_eq!(parse_bool(b""), None);
    assert_eq!(parse_bool(b"1"), None);
    assert_eq!(parse_bool(b"yes"), None);
    assert_eq!(parse_bool(b"truee"), None);
    assert_eq!(parse_bool(b"fals"), None);
    assert_eq!(parse_bool(b"t"), None);
}

#[test]
fn parse_decimal_reads_plain_writing() {
    assert_eq!(parse_decimal(b"10.5"), Some(dec(false, 105, -1)));
    assert_eq!(parse_decimal(b"9.0"), Some(dec(false, 9, 0)));
    assert_eq!(parse_decimal(b"-0.25"), Some(dec(true, 25, -2)));
    assert_eq!(parse_decimal(b"42"), Some(dec(false, 42, 0)));
    assert_eq!(parse_decimal(b"+3.14"), Some(dec(false, 314, -2)));
    assert_eq!(parse_decimal(b".5"), Some(dec(false, 5, -1)));
    assert_eq!(parse_decimal(b"5."), Some(dec(false, 5, 0)));
    assert_eq!(parse_decimal(b"1200"), Some(dec(false, 12, 2)));
}

#[test]
fn parse_decimal_reads_exponent_writing() {
    assert_eq!(parse_decimal(b"1e3"), Some(dec(false, 1, 3)));
    assert_eq!(parse_decimal(b"-12.50e3"), Some(dec(true, 125, 2)));
    assert_eq!(parse_decimal(b"2.5E-4"), Some(dec(false, 25, -5)));
    assert_eq!(parse_decimal(b"7e+2"), Some(dec(false, 7, 2)));
    assert_eq!(parse_decimal(b"1e309"), Some(dec(false, 1, 309)));
}

#[test]
fn parse_decimal_writes_zero_in_one_way() {
    assert_eq!(parse_decimal(b"0"), Some(dec(false, 0, 0)));
    assert_eq!(parse_decimal(b"-0.000"), Some(dec(false, 0, 0)));
    assert_eq!(parse_decimal(b"0e17"), Some(dec(false, 0, 0)));
}

#[test]
fn parse_decimal_drops_zeros_that_carry_nothing() {
    assert_eq!(parse_decimal(b"100000000000000000000000"), Some(dec(false, 1, 23)));
    assert_eq!(parse_decimal(b"0000000000000000000000012"), Some(dec(false, 12, 0)));
    assert_eq!(parse_decimal(b"1.50000000000000000000000"), Some(dec(false, 15, -1)));
    assert_eq!(parse_decimal(b"18446744073709551615"), Some(dec(false, u64::MAX, 0)));
}

#[test]
fn parse_decimal_rejects_what_does_not_fit() {
    assert_eq!(parse_decimal(b"18446744073709551616"), None);
    assert_eq!(parse_decimal(b"0.123456789012345678901"), None);
    assert_eq!(parse_decimal(b"1e2147483648"), None);
    assert_eq!(parse_decimal(b"10e2147483647"), None);
    assert_eq!(parse_decimal(b"1e-2147483649"), None);
}

#[test]
fn parse_decimal_rejects_what_is_no_number() {
    assert_eq!(parse_decimal(b""), None);
    assert_eq!(parse_decimal(b"abc"), None);
    assert_eq!(parse_decimal(b"."), None);
    assert_eq!(parse_decimal(b"-"), None);
    assert_eq!(parse_decimal(b"1e"), None);
    assert_eq!(parse_decimal(b"e5"), None);
    assert_eq!(parse_decimal(b"1.2.3"), None);
    assert_eq!(parse_decimal(b"1 "), None);
    assert_eq!(parse_decimal(b"1e5x"), None);
    assert_eq!(parse_decimal(b"inf"), None);
    assert_eq!(parse_decimal(b"NaN"), None);
}

#[test]
fn decimal_lt_orders_by_value() {
    let a = parse_decimal(b"9.0").unwrap();
    let b = parse_decimal(b"10.5").unwrap();
    assert!(decimal_lt(a, b));
    assert!(!decimal_lt(b, a));
    assert!(!decimal_lt(a, a));
    let neg = parse_decimal(b"-3").unwrap();
    let zero = parse_decimal(b"0").unwrap();
    assert!(decimal_lt(neg, zero));
    assert!(decimal_lt(neg, a));
    assert!(!decimal_lt(zero, neg));
    let more_neg = parse_decimal(b"-3.5").unwrap();
    assert!(decimal_lt(more_neg, neg));
    assert!(!decimal_lt(neg, more_neg));
}

#[test]
fn decimal_lt_compares_across_exponents() {
    assert!(decimal_lt(dec(false, 5, 2), dec(false, 501, 0)));
    assert!(!decimal_lt(dec(false, 501, 0), dec(false, 5, 2)));
    assert!(decimal_lt(dec(false, 1, -30), dec(false, 1, 30)));
    assert!(!decimal_lt(dec(false, 1, 30), dec(false, 1, -30)));
    assert!(decimal_lt(dec(false, u64::MAX, 0), dec(false, 1, 25)));
    assert!(decimal_lt(dec(false, u64::MAX, -2147483648), dec(false, 1, 2147483647)));
    assert!(!decimal_lt(dec(false, 1, 2), dec(false, 100, 0)));
    assert!(!decimal_lt(dec(false, 100, 0), dec(false, 1, 2)));
}

#[test]
fn datum_lt_puts_the_empty_cell_first() {
    assert!(datum_lt(Datum::Null, Datum::Int(i64::MIN)));
    assert!(!datum_lt(Datum::Int(i64::MIN), Datum::Null));
    assert!(!datum_lt(Datum::Null, Datum::Null));
    assert!(datum_lt(Datum::Null, Datum::Bool(false)));
    assert!(datum_lt(Datum::Null, Datum::Float(dec(true, 1, 100))));
}

#[test]
fn datum_lt_orders_values() {
    assert!(datum_lt(Datum::Int(-2), Datum::Int(1)));
    assert!(!datum_lt(Datum::Int(1), Datum::Int(1)));
    assert!(datum_lt(Datum::Bool(false), Datum::Bool(true)));
    assert!(!datum_lt(Datum::Bool(true), Datum::Bool(false)));
    assert!(datum_lt(Datum::Float(dec(false, 9, 0)), Datum::Float(dec(false, 105, -1))));
}

#[test]
fn datum_fits_checks_kind_and_range() {
    assert!(datum_fits(Datum::Null, ColumnType::Boolean));
    assert!(datum_fits(Datum::Int(5), ColumnType::Int32));
    assert!(!datum_fits(Datum::Int(2147483648), ColumnType::Int32));
    assert!(datum_fits(Datum::Int(2147483648), ColumnType::Int64));
    assert!(!datum_fits(Datum::Int(5), ColumnType::Float64));
    assert!(datum_fits(Datum::Float(dec(false, 1, 0)), ColumnType::Float32));
    assert!(!datum_fits(Datum::Bool(true), ColumnType::Int64));
}
