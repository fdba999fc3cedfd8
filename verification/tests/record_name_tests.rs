use bedrock_backup::record_name::{format_name, key_exec, parse_name_exec, Timestamp};
use chrono::{Datelike, Timelike};

fn chars(s: &str) -> Vec<char> {
    s.chars().collect()
}

fn string(v: &[char]) -> String {
    v.iter().collect()
}

fn ts(
    year: i32,
    month: u32,
    day: u32,
    hour: u32,
    minute: u32,
    second: u32,
    nanos: u32,
    offset_seconds: i32,
) -> Timestamp {
    Timestamp {
        year,
        month,
        day,
        hour,
        minute,
        second,
        nanos,
        offset_seconds,
    }
}

#[test]
fn formats_whole_seconds() {
    let name = format_name(&ts(2021, 8, 1, 12, 34, 56, 0, 0));
    assert_eq!(string(&name), "2021-08-01 12_34_56 +0000");
}

#[test]
fn formats_minimal_fraction_digits() {
    // Millisecond precision gives three digits, microsecond six.
    let a = format_name(&ts(2021, 8, 1, 12, 34, 56, 26_000_000, 0));
    assert_eq!(string(&a), "2021-08-01 12_34_56.026 +0000");
    let b = format_name(&ts(2021, 8, 1, 12, 34, 56, 26_490_000, 0));
    assert_eq!(string(&b), "2021-08-01 12_34_56.026490 +0000");
    let c = format_name(&ts(2021, 8, 1, 12, 34, 56, 26_490_001, 0));
    assert_eq!(string(&c), "2021-08-01 12_34_56.026490001 +0000");
}

#[test]
fn formats_negative_offset() {
    let name = format_name(&ts(1999, 12, 31, 23, 59, 59, 0, -3600));
    assert_eq!(string(&name), "1999-12-31 23_59_59 -0100");
}

#[test]
fn parse_inverts_format() {
    let cases = vec![
        ts(2021, 8, 1, 12, 34, 56, 0, 0),
        ts(2021, 8, 1, 12, 34, 56, 26_490_000, 32400),
        ts(2024, 2, 29, 0, 0, 0, 1, -28800),
        ts(1, 1, 1, 0, 0, 0, 999_000_000, 0),
    ];
    for t in cases {
        let name = format_name(&t);
        let back = parse_name_exec(&name).expect("must parse");
        assert_eq!(back, t);
    }
}

#[test]
fn library_names_parse_with_chrono() {
    let name = string(&format_name(&ts(2021, 8, 1, 12, 34, 56, 123_456_789, 32400)));
    let parsed = chrono::DateTime::parse_from_str(&name, "%F %H_%M_%S%.f %z").unwrap();
    assert_eq!(parsed.year(), 2021);
    assert_eq!(parsed.month(), 8);
    assert_eq!(parsed.nanosecond(), 123_456_789);
    assert_eq!(parsed.offset().local_minus_utc(), 32400);
}

#[test]
fn rejects_names_that_are_not_records() {
    assert!(parse_name_exec(&chars("")).is_none());
    assert!(parse_name_exec(&chars("not a backup")).is_none());
    assert!(parse_name_exec(&chars("2021-13-01 12_00_00 +0000")).is_none());
    assert!(parse_name_exec(&chars("2021-02-30 12_00_00 +0000")).is_none());
    assert!(parse_name_exec(&chars("2021-08-01 24_00_00 +0000")).is_none());
    assert!(parse_name_exec(&chars("2021-08-01 12_00_00 0000")).is_none());
    assert!(parse_name_exec(&chars("2021-08-01 12_00_00. +0000")).is_none());
    assert!(parse_name_exec(&chars("2021-08-01 12_00_00 +0000x")).is_none());
}

#[test]
fn keys_order_chronologically() {
    let earlier = key_exec(&ts(2021, 8, 1, 12, 0, 0, 0, 0));
    let later = key_exec(&ts(2021, 8, 1, 12, 0, 1, 0, 0));
    assert!(earlier < later);
    // Same wall-clock instant expressed in two offsets compares equal.
    let utc = key_exec(&ts(2021, 8, 1, 12, 0, 0, 0, 0));
    let tokyo = key_exec(&ts(2021, 8, 1, 21, 0, 0, 0, 32400));
    assert_eq!(utc, tokyo);
    // Leap-day arithmetic: the day after 2024-02-28 is the 29th.
    let feb28 = key_exec(&ts(2024, 2, 28, 0, 0, 0, 0, 0));
    let feb29 = key_exec(&ts(2024, 2, 29, 0, 0, 0, 0, 0));
    assert_eq!(feb29 - feb28, 86_400_000_000_000);
}
