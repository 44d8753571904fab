use brc::error::BrcError;
use brc::measurement::{parse_measurement, push_measurement, split_line};

#[test]
fn splits_at_the_first_separator() {
    assert_eq!(split_line(b"Abha;2.0"), Some((&b"Abha"[..], &b"2.0"[..])));
    assert_eq!(split_line(b"a;b;c"), Some((&b"a"[..], &b"b;c"[..])));
    assert_eq!(split_line(b";1.0"), Some((&b""[..], &b"1.0"[..])));
    assert_eq!(split_line(b"Abha;"), Some((&b"Abha"[..], &b""[..])));
    assert_eq!(split_line(b"Abha"), None);
    assert_eq!(split_line(b""), None);
}

#[test]
fn reads_a_measurement() {
    match parse_measurement(b"Zurich;-3.4") {
        Ok((name, reading)) => {
            assert_eq!(name, b"Zurich");
            assert_eq!(reading, -34);
        }
        Err(e) => panic!("turned down: {:?}", e),
    }
    let line = "Z\u{fc}rich;12.0";
    match parse_measurement(line.as_bytes()) {
        Ok((name, reading)) => {
            assert_eq!(name, "Z\u{fc}rich".as_bytes());
            assert_eq!(reading, 120);
        }
        Err(e) => panic!("turned down: {:?}", e),
    }
}

#[test]
fn a_line_without_separator_is_turned_down_with_its_text() {
    match parse_measurement(b"Hamburg 12.0") {
        Err(BrcError::MissingSeparator { line }) => assert_eq!(line, b"Hamburg 12.0".to_vec()),
        other => panic!("unexpected: {:?}", other),
    }
    match parse_measurement(b"") {
        Err(BrcError::MissingSeparator { line }) => assert!(line.is_empty()),
        other => panic!("unexpected: {:?}", other),
    }
}

#[test]
fn a_line_without_number_is_turned_down_with_its_text() {
    match parse_measurement(b"Hamburg;warm") {
        Err(BrcError::InvalidNumber { line }) => assert_eq!(line, b"Hamburg;warm".to_vec()),
        other => panic!("unexpected: {:?}", other),
    }
    match parse_measurement(b"Hamburg;") {
        Err(BrcError::InvalidNumber { line }) => assert_eq!(line, b"Hamburg;".to_vec()),
        other => panic!("unexpected: {:?}", other),
    }
    match parse_measurement(b"a;b;1.0") {
        Err(BrcError::InvalidNumber { line }) => assert_eq!(line, b"a;b;1.0".to_vec()),
        other => panic!("unexpected: {:?}", other),
    }
}

#[test]
fn a_written_measurement_reads_back() {
    let mut out = b"x".to_vec();
    push_measurement(&mut out, b"Abha", -75);
    assert_eq!(out, b"xAbha;-7.5".to_vec());
    match parse_measurement(&out[1..]) {
        Ok((name, reading)) => {
            assert_eq!(name, b"Abha");
            assert_eq!(reading, -75);
        }
        Err(e) => panic!("turned down: {:?}", e),
    }
}
