use brc::aggregate::{temperature_reading_summaries, Aggregator};
use brc::error::BrcError;
use brc::report::report;

fn lines_of(texts: &[&str]) -> Vec<Vec<u8>> {
    texts.iter().map(|text| text.as_bytes().to_vec()).collect()
}

fn report_of(texts: &[&str]) -> String {
    match temperature_reading_summaries(&lines_of(texts)) {
        Ok(stations) => String::from_utf8(report(&stations)).unwrap(),
        Err(e) => panic!("turned down: {:?}", e),
    }
}

#[test]
fn stations_come_out_in_the_order_of_their_names() {
    let expected = "{Abha=2.0/2.0/2.0, Zurich=1.0/2.0/3.0}";
    assert_eq!(report_of(&["Zurich;1.0", "Abha;2.0", "Zurich;3.0"]), expected);
    assert_eq!(report_of(&["Abha;2.0", "Zurich;3.0", "Zurich;1.0"]), expected);
    assert_eq!(report_of(&["Zurich;3.0", "Zurich;1.0", "Abha;2.0"]), expected);
}

#[test]
fn minimum_and_maximum_of_a_station_are_reported() {
    assert_eq!(report_of(&["Oslo;-5.0", "Oslo;10.0", "Oslo;0.0"]), "{Oslo=-5.0/1.7/10.0}");
}

#[test]
fn the_mean_is_rounded_by_the_rule_of_the_summary() {
    // tenths 10 + 10 + 20 = 40; (40 + 1) / 3 = 13
    assert_eq!(report_of(&["A;1.0", "A;1.0", "A;2.0"]), "{A=1.0/1.3/2.0}");
    // tenths -1 - 2 = -3; (-3 + 1) / 2 = -1
    assert_eq!(report_of(&["A;-0.1", "A;-0.2"]), "{A=-0.2/-0.1/-0.1}");
    // tenths -1 - 2 - 2 = -5; floor((-5 + 1) / 3) = -2
    assert_eq!(report_of(&["A;-0.1", "A;-0.2", "A;-0.2"]), "{A=-0.2/-0.2/-0.1}");
}

#[test]
fn no_lines_give_an_empty_report() {
    assert_eq!(report_of(&[]), "{}");
}

#[test]
fn many_stations_are_sorted() {
    let texts = [
        "d;4.0", "b;2.0", "a;1.0", "c;3.0", "e;5.0", "b;4.0", "aa;0.5", "B;9.9", "\u{e9};1.0",
        "z;-1.0", "a;-1.0",
    ];
    assert_eq!(
        report_of(&texts),
        "{B=9.9/9.9/9.9, a=-1.0/0.0/1.0, aa=0.5/0.5/0.5, b=2.0/3.0/4.0, c=3.0/3.0/3.0, \
         d=4.0/4.0/4.0, e=5.0/5.0/5.0, z=-1.0/-1.0/-1.0, \u{e9}=1.0/1.0/1.0}"
    );
}

#[test]
fn a_line_without_separator_fails_the_whole_summary() {
    let lines = lines_of(&["Abha;2.0", "Zurich 3.0", "Abha;1.0"]);
    match temperature_reading_summaries(&lines) {
        Err(BrcError::MissingSeparator { line }) => assert_eq!(line, b"Zurich 3.0".to_vec()),
        Err(e) => panic!("unexpected: {:?}", e),
        Ok(_) => panic!("a summary came back"),
    }
}

#[test]
fn the_first_malformed_line_is_the_one_reported() {
    let lines = lines_of(&["Abha;2.0", "Zurich;x", "no separator"]);
    match temperature_reading_summaries(&lines) {
        Err(BrcError::InvalidNumber { line }) => assert_eq!(line, b"Zurich;x".to_vec()),
        Err(e) => panic!("unexpected: {:?}", e),
        Ok(_) => panic!("a summary came back"),
    }
}

#[test]
fn a_line_that_is_turned_down_leaves_the_aggregator_as_it_was() {
    let mut aggregator = Aggregator::new();
    assert!(aggregator.add_line(b"Abha;2.0").is_ok());
    assert!(aggregator.add_line(b"Abha").is_err());
    assert!(aggregator.add_line(b"Abha;").is_err());
    assert!(aggregator.add_line(b"Abha;4.0").is_ok());
    let stations = aggregator.finish();
    assert_eq!(stations.len(), 1);
    assert_eq!(stations[0].name(), b"Abha");
    assert_eq!(stations[0].summary().count(), 2);
    assert_eq!(stations[0].summary().total(), 60);
    assert_eq!(report(&stations), b"{Abha=2.0/3.0/4.0}".to_vec());
}

#[test]
fn readings_beyond_the_written_range_are_summarised_too() {
    assert_eq!(report_of(&["A;1234.56", "A;-0.04"]), "{A=0.0/617.3/1234.6}");
}

#[test]
fn line_by_line_and_all_at_once_agree() {
    let texts = ["Zurich;1.0", "Abha;2.0", "Zurich;3.0", "Bern;-4.4", "Abha;7.1"];
    let mut aggregator = Aggregator::new();
    for text in texts {
        assert!(aggregator.add_line(text.as_bytes()).is_ok());
    }
    let by_line = report(&aggregator.finish());
    assert_eq!(String::from_utf8(by_line).unwrap(), report_of(&texts));
}
