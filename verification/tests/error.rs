use brc::error::BrcError;

#[test]
fn messages_quote_the_offending_line() {
    let e = BrcError::MissingSeparator { line: b"Zurich 3.0".to_vec() };
    assert_eq!(e.message(), b"No ';' found in \"Zurich 3.0\"".to_vec());
    let e = BrcError::InvalidNumber { line: b"Zurich;x".to_vec() };
    assert_eq!(e.message(), b"Invalid number in \"Zurich;x\"".to_vec());
    let e = BrcError::TooManyReadings { line: b"Zurich;1.0".to_vec() };
    assert_eq!(e.message(), b"Too many readings for the station in \"Zurich;1.0\"".to_vec());
    let e = BrcError::EmptyStations;
    assert_eq!(e.message(), b"Unexpected empty weather_stations".to_vec());
}
