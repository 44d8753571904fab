use brc::bytes::{find_byte, push_bytes};
use brc::decimal::{format_tenths, parse_tenths};

#[test]
fn parses_one_fraction_digit() {
    assert_eq!(parse_tenths(b"12.3"), Some(123));
    assert_eq!(parse_tenths(b"0.0"), Some(0));
    assert_eq!(parse_tenths(b"-5.0"), Some(-50));
    assert_eq!(parse_tenths(b"99.9"), Some(999));
    assert_eq!(parse_tenths(b"-99.9"), Some(-999));
}

#[test]
fn parses_without_fraction_or_whole_part() {
    assert_eq!(parse_tenths(b"7"), Some(70));
    assert_eq!(parse_tenths(b"5."), Some(50));
    assert_eq!(parse_tenths(b".5"), Some(5));
    assert_eq!(parse_tenths(b"-.5"), Some(-5));
    assert_eq!(parse_tenths(b"+1.5"), Some(15));
    assert_eq!(parse_tenths(b"007.2"), Some(72));
}

#[test]
fn rounds_halves_away_from_zero() {
    assert_eq!(parse_tenths(b"1.04"), Some(10));
    assert_eq!(parse_tenths(b"1.05"), Some(11));
    assert_eq!(parse_tenths(b"1.0499"), Some(10));
    assert_eq!(parse_tenths(b"-1.05"), Some(-11));
    assert_eq!(parse_tenths(b"-1.04"), Some(-10));
    assert_eq!(parse_tenths(b"35.6897"), Some(357));
    assert_eq!(parse_tenths(b"-6.1750"), Some(-62));
    assert_eq!(parse_tenths(b"0.95"), Some(10));
    assert_eq!(parse_tenths(b"-0.04"), Some(0));
}

#[test]
fn saturates_at_the_bounds_of_i32() {
    assert_eq!(parse_tenths(b"214748364.7"), Some(i32::MAX));
    assert_eq!(parse_tenths(b"214748364.6"), Some(i32::MAX - 1));
    assert_eq!(parse_tenths(b"214748364.8"), Some(i32::MAX));
    assert_eq!(parse_tenths(b"-214748364.8"), Some(i32::MIN));
    assert_eq!(parse_tenths(b"-214748364.9"), Some(i32::MIN));
    assert_eq!(parse_tenths(b"99999999999999999999999999999999"), Some(i32::MAX));
    assert_eq!(parse_tenths(b"-99999999999999999999999999999999"), Some(i32::MIN));
    assert_eq!(parse_tenths(b"1000000000000.0"), Some(i32::MAX));
}

#[test]
fn rejects_what_is_no_decimal_number() {
    assert_eq!(parse_tenths(b""), None);
    assert_eq!(parse_tenths(b"-"), None);
    assert_eq!(parse_tenths(b"+"), None);
    assert_eq!(parse_tenths(b"."), None);
    assert_eq!(parse_tenths(b"-."), None);
    assert_eq!(parse_tenths(b"1.2.3"), None);
    assert_eq!(parse_tenths(b"1e3"), None);
    assert_eq!(parse_tenths(b"abc"), None);
    assert_eq!(parse_tenths(b" 1.0"), None);
    assert_eq!(parse_tenths(b"1.0 "), None);
    assert_eq!(parse_tenths(b"--1.0"), None);
    assert_eq!(parse_tenths(b"1.-5"), None);
    assert_eq!(parse_tenths(b"inf"), None);
    assert_eq!(parse_tenths(b"NaN"), None);
    assert_eq!(parse_tenths(b"1,5"), None);
}

#[test]
fn formats_with_exactly_one_fraction_digit() {
    assert_eq!(format_tenths(0), b"0.0".to_vec());
    assert_eq!(format_tenths(5), b"0.5".to_vec());
    assert_eq!(format_tenths(-5), b"-0.5".to_vec());
    assert_eq!(format_tenths(10), b"1.0".to_vec());
    assert_eq!(format_tenths(999), b"99.9".to_vec());
    assert_eq!(format_tenths(-999), b"-99.9".to_vec());
    assert_eq!(format_tenths(12345), b"1234.5".to_vec());
    assert_eq!(format_tenths(i32::MAX), b"214748364.7".to_vec());
    assert_eq!(format_tenths(i32::MIN), b"-214748364.8".to_vec());
}

#[test]
fn formatted_tenths_read_back() {
    let mut t: i32 = -2000;
    while t <= 2000 {
        assert_eq!(parse_tenths(&format_tenths(t)), Some(t));
        t += 1;
    }
    for t in [i32::MIN, i32::MIN + 1, -1_000_000, 1_000_000, i32::MAX - 1, i32::MAX] {
        assert_eq!(parse_tenths(&format_tenths(t)), Some(t));
    }
}

#[test]
fn finds_the_first_occurrence_of_a_byte() {
    assert_eq!(find_byte(b"a;b;c", b';'), 1);
    assert_eq!(find_byte(b";", b';'), 0);
    assert_eq!(find_byte(b"abc", b';'), 3);
    assert_eq!(find_byte(b"", b';'), 0);
}

#[test]
fn bytes_are_appended() {
    let mut out = b"ab".to_vec();
    push_bytes(&mut out, b"cd");
    push_bytes(&mut out, b"");
    assert_eq!(out, b"abcd".to_vec());
}

#[test]
fn written_tenths_look_like_floats_with_one_fraction_digit() {
    let mut t: i32 = -9_999;
    while t <= 9_999 {
        let expected = format!("{:.1}", t as f32 / 10.0);
        assert_eq!(format_tenths(t), expected.into_bytes(), "for {t} tenths");
        t += 1;
    }
}

#[test]
fn read_tenths_are_ten_times_the_float_rounded() {
    let mut t: i32 = -9_999;
    while t <= 9_999 {
        let text = format!("{:.1}", t as f32 / 10.0);
        let value: f32 = text.parse().unwrap_or_else(|e| panic!("{text}: {e}"));
        assert_eq!(parse_tenths(text.as_bytes()), Some((value * 10.0).round() as i32), "{text}");
        t += 1;
    }
    for text in ["35.6897", "-6.1750", "28.6100", "0.05", "-0.05", "12.25", "12.35", "7", "+3.5"] {
        let value: f32 = text.parse().unwrap_or_else(|e| panic!("{text}: {e}"));
        assert_eq!(parse_tenths(text.as_bytes()), Some((value * 10.0).round() as i32), "{text}");
    }
}
