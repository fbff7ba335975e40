use dns_storage::decimal::{parse_decimal, push_decimal};

fn parse_all(s: &str) -> Option<u64> {
    parse_decimal(s)
}

fn written(n: u64) -> String {
    let mut out = String::new();
    push_decimal(&mut out, n);
    out
}

#[test]
fn push_decimal_writes_zero() {
    assert_eq!(written(0), "0");
}

#[test]
fn push_decimal_writes_without_leading_zeros() {
    assert_eq!(written(7), "7");
    assert_eq!(written(10), "10");
    assert_eq!(written(150), "150");
    assert_eq!(written(65536), "65536");
}

#[test]
fn push_decimal_writes_largest_number() {
    assert_eq!(written(u64::MAX), "18446744073709551615");
}

#[test]
fn push_decimal_appends_to_what_is_there() {
    let mut out = String::from("ttl=");
    push_decimal(&mut out, 3600);
    assert_eq!(out, "ttl=3600");
}

#[test]
fn parse_decimal_reads_digits() {
    assert_eq!(parse_all("0"), Some(0));
    assert_eq!(parse_all("7"), Some(7));
    assert_eq!(parse_all("42"), Some(42));
}

#[test]
fn parse_decimal_passes_over_leading_zeros() {
    assert_eq!(parse_all("007"), Some(7));
    assert_eq!(parse_all("0000000000000000000000000001"), Some(1));
}

#[test]
fn parse_decimal_refuses_empty_run() {
    assert_eq!(parse_all(""), None);
}

#[test]
fn parse_decimal_refuses_other_characters() {
    assert_eq!(parse_all("1a"), None);
    assert_eq!(parse_all("a"), None);
    assert_eq!(parse_all("+1"), None);
    assert_eq!(parse_all("-1"), None);
    assert_eq!(parse_all(" 1"), None);
    assert_eq!(parse_all("１"), None);
}

#[test]
fn parse_decimal_reads_largest_number() {
    assert_eq!(parse_all("18446744073709551615"), Some(u64::MAX));
}

#[test]
fn parse_decimal_refuses_numbers_too_large() {
    assert_eq!(parse_all("18446744073709551616"), None);
    assert_eq!(parse_all("99999999999999999999"), None);
    assert_eq!(parse_all("184467440737095516150"), None);
}

#[test]
fn parse_decimal_reads_back_what_was_written() {
    for n in [0u64, 1, 9, 10, 11, 99, 100, 65535, 65536, 4294967296, u64::MAX] {
        assert_eq!(parse_all(&written(n)), Some(n));
    }
}
