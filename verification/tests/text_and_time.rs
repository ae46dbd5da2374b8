//! Text helpers, timestamps and rendering.

use sentinel_core::rendering::append_one_decimal;
use sentinel_core::text::{
    append_decimal, append_wide_decimal, contains_char, precedes, same_text, starts_with,
    truncate_to_utf8_boundary,
};
use sentinel_core::time::{civil_time, millis_to_iso8601, parse_iso8601_utc_to_ms};
use sentinel_core::wide::Wide;

fn one_decimal(us: u64) -> String {
    let mut out = String::new();
    append_one_decimal(&mut out, us);
    out
}

#[test]
fn milliseconds_with_one_decimal_match_float_formatting() {
    let mut state: u64 = 7;
    let mut samples: Vec<u64> = vec![0, 1, 49, 50, 51, 149, 150, 250, 350, 450, 999, 1_000];
    samples.extend([600_000, 999_949, 999_950, 999_951, 1_000_050, 12_345_650]);
    samples.extend([u64::MAX, u64::MAX - 1, 1 << 53, (1 << 53) + 1, (1 << 60) + 12_345]);
    for _ in 0..2_000 {
        state = state.wrapping_mul(6_364_136_223_846_793_005).wrapping_add(1);
        samples.push(state >> (state % 60));
    }
    for us in samples {
        assert_eq!(one_decimal(us), format!("{:.1}", us as f64 / 1000.0), "{us} us");
    }
}

#[test]
fn milliseconds_with_one_decimal_exact_values() {
    assert_eq!(one_decimal(0), "0.0");
    assert_eq!(one_decimal(1_000_000), "1000.0");
    assert_eq!(one_decimal(1_250), "1.2");
    assert_eq!(one_decimal(1_350), "1.4");
    assert_eq!(one_decimal(999_960), "1000.0");
}

#[test]
fn decimals_are_written_out() {
    let mut out = String::from("n=");
    append_decimal(&mut out, 0);
    out.push(' ');
    append_decimal(&mut out, u64::MAX);
    out.push(' ');
    append_wide_decimal(&mut out, u128::MAX);
    assert_eq!(out, format!("n=0 {} {}", u64::MAX, u128::MAX));
}

#[test]
fn text_order_is_that_of_strings() {
    let words = ["", "a", "ab", "b", "B", "é", "z", "ab ", "aé", "\u{10FFFF}", "\u{FFFF}"];
    for a in words {
        for b in words {
            assert_eq!(precedes(a, b), a < b, "{a:?} {b:?}");
            assert_eq!(same_text(a, b), a == b);
            assert_eq!(starts_with(a, b), a.starts_with(b));
        }
    }
    assert!(contains_char("SELECT ?", '?'));
    assert!(!contains_char("SELECT 1", '?'));
}

#[test]
fn truncation_keeps_whole_characters() {
    assert_eq!(truncate_to_utf8_boundary("abc", 8), "abc");
    assert_eq!(truncate_to_utf8_boundary("abc", 2), "ab");
    assert_eq!(truncate_to_utf8_boundary("aé", 2), "a");
    assert_eq!(truncate_to_utf8_boundary("aé", 3), "aé");
    assert_eq!(truncate_to_utf8_boundary("€uro", 2), "");
    assert_eq!(truncate_to_utf8_boundary("😀x", 4), "😀");
    assert_eq!(truncate_to_utf8_boundary("", 0), "");
}

#[test]
fn timestamps_are_read() {
    assert_eq!(parse_iso8601_utc_to_ms("1970-01-01T00:00:00Z"), Some(0));
    assert_eq!(parse_iso8601_utc_to_ms("1970-01-01T00:00:00.001Z"), Some(1));
    assert_eq!(parse_iso8601_utc_to_ms("2000-02-29T12:00:00.500Z"), Some(951_825_600_500));
    assert_eq!(parse_iso8601_utc_to_ms("2025-07-10T14:32:01.123456789Z"), Some(1_752_157_921_123));
}

#[test]
fn what_is_no_timestamp_is_refused() {
    for text in [
        "",
        "not a timestamp",
        "1969-12-31T23:59:59Z",
        "2025-13-01T00:00:00Z",
        "2025-00-01T00:00:00Z",
        "2025-02-29T00:00:00Z",
        "2100-02-29T00:00:00Z",
        "2025-04-31T00:00:00Z",
        "2025-07-10T24:00:00Z",
        "2025-07-10T14:60:00Z",
        "2025-07-10T14:32:60Z",
        "2025-07-10T14:32:01.Z",
        "2025-07-10T14:32:01.1a2Z",
        "2025-07-10T14:32:01",
        "2025-07-10 14:32:01Z",
    ] {
        assert_eq!(parse_iso8601_utc_to_ms(text), None, "{text:?}");
    }
}

#[test]
fn instants_are_rendered_and_read_back() {
    assert_eq!(millis_to_iso8601(0), "1970-01-01T00:00:00.000Z");
    assert_eq!(millis_to_iso8601(951_825_600_500), "2000-02-29T12:00:00.500Z");
    assert_eq!(millis_to_iso8601(1_752_157_921_123), "2025-07-10T14:32:01.123Z");
    let mut ms: u64 = 0;
    while ms < 253_402_300_800_000 {
        assert_eq!(parse_iso8601_utc_to_ms(&millis_to_iso8601(ms)), Some(ms));
        ms += 86_400_000 * 97 + 12_345_678;
    }
    assert_eq!(millis_to_iso8601(253_402_300_799_999), "9999-12-31T23:59:59.999Z");
}

#[test]
fn the_farthest_instant_has_a_date() {
    let at = civil_time(u64::MAX);
    assert_eq!((at.year, at.month, at.day), (584_556_019, 4, 3));
    assert_eq!((at.hour, at.minute, at.second, at.millisecond), (14, 25, 51, 615));
}

#[test]
fn wide_numbers_do_not_overflow() {
    let big = Wide::of(u64::MAX).times(u64::MAX).times(u64::MAX);
    let bigger = big.plus(&Wide::of(1));
    assert!(bigger.exceeds(&big));
    assert!(!big.exceeds(&bigger));
    assert!(!big.exceeds(&big));
    assert!(Wide::of(6).exceeds(&Wide::of(2).times(2).plus(&Wide::of(1))));
}
