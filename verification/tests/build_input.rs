use brc::aggregate::Aggregator;
use brc::build_input::{
    clamp_temperature, generate_input, get_weather_stations, measurement, output_line,
    output_lines, parse_city, City,
};
use brc::error::BrcError;
use rand::rngs::StdRng;
use rand::SeedableRng;

fn lines_of(texts: &[&str]) -> Vec<Vec<u8>> {
    texts.iter().map(|text| text.as_bytes().to_vec()).collect()
}

fn catalogue(texts: &[&str]) -> Vec<City> {
    match get_weather_stations(&lines_of(texts)) {
        Ok(cities) => cities,
        Err(e) => panic!("turned down: {:?}", e),
    }
}

fn five_cities() -> Vec<City> {
    catalogue(&["# five stations", "Abha;18.0", "Bern;8.9", "Cairo;21.4", "Oslo;5.7", "Zurich;9.3"])
}

#[test]
fn the_catalogue_skips_comments() {
    let cities =
        catalogue(&["# Adapted from a list", "Tokyo;35.6897", "#x;1.0", "Jakarta;-6.1750"]);
    assert_eq!(cities.len(), 2);
    assert_eq!(cities[0].name(), b"Tokyo");
    assert_eq!(cities[0].average_temperature(), 357);
    assert_eq!(cities[1].name(), b"Jakarta");
    assert_eq!(cities[1].average_temperature(), -62);
}

#[test]
fn the_catalogue_fails_on_its_first_malformed_line() {
    match get_weather_stations(&lines_of(&["Tokyo;35.6", "Jakarta", "Delhi;x"])) {
        Err(BrcError::MissingSeparator { line }) => assert_eq!(line, b"Jakarta".to_vec()),
        other => panic!("unexpected: {:?}", other),
    }
    match get_weather_stations(&lines_of(&["# c", "Delhi;x", "Jakarta"])) {
        Err(BrcError::InvalidNumber { line }) => assert_eq!(line, b"Delhi;x".to_vec()),
        other => panic!("unexpected: {:?}", other),
    }
    match get_weather_stations(&lines_of(&["Tokyo;35.6", ""])) {
        Err(BrcError::MissingSeparator { line }) => assert!(line.is_empty()),
        other => panic!("unexpected: {:?}", other),
    }
}

#[test]
fn an_empty_catalogue_is_read() {
    assert!(catalogue(&[]).is_empty());
    assert!(catalogue(&["# only a comment"]).is_empty());
}

#[test]
fn one_catalogue_line_gives_one_city() {
    match parse_city(b"Abha;-18.04") {
        Ok(city) => {
            assert_eq!(city.name(), b"Abha");
            assert_eq!(city.average_temperature(), -180);
        }
        Err(e) => panic!("turned down: {:?}", e),
    }
}

#[test]
fn asking_for_more_cities_than_there_are_selects_them_all() {
    let cities = five_cities();
    for seed in 0..20 {
        let mut rng = StdRng::seed_from_u64(seed);
        let source = generate_input(&cities, 10, 10_000, &mut rng).unwrap_or_else(|e| {
            panic!("turned down: {:?}", e)
        });
        assert_eq!(source.selected_count(), 5);
        let mut names: Vec<Vec<u8>> = Vec::new();
        for place in 0..source.selected_count() {
            let city = source.city_at(Some(place)).unwrap_or_else(|e| panic!("{:?}", e));
            names.push(city.name().to_vec());
        }
        names.sort();
        assert_eq!(
            names,
            vec![
                b"Abha".to_vec(),
                b"Bern".to_vec(),
                b"Cairo".to_vec(),
                b"Oslo".to_vec(),
                b"Zurich".to_vec()
            ]
        );
    }
}

#[test]
fn a_selection_holds_no_city_twice() {
    let cities = five_cities();
    for seed in 0..50 {
        for unique in 0..=5u32 {
            let mut rng = StdRng::seed_from_u64(seed);
            let source = generate_input(&cities, 1, unique, &mut rng).unwrap_or_else(|e| {
                panic!("turned down: {:?}", e)
            });
            assert_eq!(source.selected_count(), unique as usize);
            let mut names: Vec<Vec<u8>> = Vec::new();
            for place in 0..source.selected_count() {
                let city = source.city_at(Some(place)).unwrap_or_else(|e| panic!("{:?}", e));
                names.push(city.name().to_vec());
            }
            names.sort();
            names.dedup();
            assert_eq!(names.len(), unique as usize);
        }
    }
}

#[test]
fn as_many_measurements_come_as_were_asked_for() {
    let cities = five_cities();
    let mut rng = StdRng::seed_from_u64(42);
    let mut source = generate_input(&cities, 100, 3, &mut rng).unwrap_or_else(|e| {
        panic!("turned down: {:?}", e)
    });
    let mut selected: Vec<Vec<u8>> = Vec::new();
    for place in 0..source.selected_count() {
        let city = source.city_at(Some(place)).unwrap_or_else(|e| panic!("{:?}", e));
        selected.push(city.name().to_vec());
    }
    let mut seen = 0;
    while let Some(city) = source.next_city(&mut rng) {
        let city = city.unwrap_or_else(|e| panic!("turned down: {:?}", e));
        assert!(selected.contains(&city.name().to_vec()));
        seen += 1;
        assert_eq!(source.remaining(), 100 - seen);
    }
    assert_eq!(seen, 100);
    assert!(source.next_city(&mut rng).is_none());
}

#[test]
fn every_selected_city_is_drawn_sooner_or_later() {
    let cities = five_cities();
    let mut rng = StdRng::seed_from_u64(1);
    let mut lines = output_lines(&cities, 2_000, 5, &mut rng).unwrap_or_else(|e| {
        panic!("turned down: {:?}", e)
    });
    let mut drawn: Vec<Vec<u8>> = Vec::new();
    while let Some(city) = lines.next_city(&mut rng) {
        let name = city.unwrap_or_else(|e| panic!("turned down: {:?}", e)).name().to_vec();
        if !drawn.contains(&name) {
            drawn.push(name);
        }
    }
    assert_eq!(drawn.len(), 5);
}

#[test]
fn a_measurement_of_no_cities_fails() {
    let cities = five_cities();
    let mut rng = StdRng::seed_from_u64(3);
    let mut source = generate_input(&cities, 2, 0, &mut rng).unwrap_or_else(|e| {
        panic!("turned down: {:?}", e)
    });
    assert_eq!(source.selected_count(), 0);
    match source.next_city(&mut rng) {
        Some(Err(BrcError::EmptyStations)) => {}
        other => panic!("unexpected: {:?}", other),
    }
    let none: Vec<City> = Vec::new();
    let mut lines = output_lines(&none, 1, 10, &mut rng).unwrap_or_else(|e| {
        panic!("turned down: {:?}", e)
    });
    match lines.next_city(&mut rng) {
        Some(Err(BrcError::EmptyStations)) => {}
        other => panic!("unexpected: {:?}", other),
    }
    assert!(lines.next_city(&mut rng).is_none());
    match source.city_at(None) {
        Err(BrcError::EmptyStations) => {}
        other => panic!("unexpected: {:?}", other),
    }
}

#[test]
fn no_measurements_asked_for_means_none_come() {
    let none: Vec<City> = Vec::new();
    let mut rng = StdRng::seed_from_u64(3);
    let mut source = generate_input(&none, 0, 10, &mut rng).unwrap_or_else(|e| {
        panic!("turned down: {:?}", e)
    });
    assert!(source.next_city(&mut rng).is_none());
}

#[test]
fn temperatures_are_clamped() {
    assert_eq!(clamp_temperature(1000), 999);
    assert_eq!(clamp_temperature(999), 999);
    assert_eq!(clamp_temperature(998), 998);
    assert_eq!(clamp_temperature(-1000), -999);
    assert_eq!(clamp_temperature(-999), -999);
    assert_eq!(clamp_temperature(0), 0);
    assert_eq!(clamp_temperature(i32::MAX), 999);
    assert_eq!(clamp_temperature(i32::MIN), -999);
}

#[test]
fn lines_are_written_with_one_fraction_digit_and_a_line_feed() {
    let cities = five_cities();
    assert_eq!(output_line(&cities[0], 123), b"Abha;12.3\n".to_vec());
    assert_eq!(output_line(&cities[4], -7), b"Zurich;-0.7\n".to_vec());
    assert_eq!(output_line(&cities[1], 0), b"Bern;0.0\n".to_vec());
    assert_eq!(output_line(&cities[1], 5000), b"Bern;99.9\n".to_vec());
    assert_eq!(output_line(&cities[1], -5000), b"Bern;-99.9\n".to_vec());
    assert_eq!(measurement(&cities[2], 1500), (&b"Cairo"[..], 999));
    assert_eq!(measurement(&cities[2], 214), (&b"Cairo"[..], 214));
}

#[test]
fn written_lines_are_summarised_within_the_clamped_range() {
    let cities = five_cities();
    let mut rng = StdRng::seed_from_u64(99);
    let mut lines = output_lines(&cities, 500, 1, &mut rng).unwrap_or_else(|e| {
        panic!("turned down: {:?}", e)
    });
    let mut aggregator = Aggregator::new();
    let mut drawn: i32 = -3000;
    let mut name: Vec<u8> = Vec::new();
    while let Some(city) = lines.next_city(&mut rng) {
        let city = city.unwrap_or_else(|e| panic!("turned down: {:?}", e));
        name = city.name().to_vec();
        let line = lines.line(city, drawn);
        assert_eq!(line.last(), Some(&b'\n'));
        assert!(aggregator.add_line(&line[..line.len() - 1]).is_ok());
        drawn += 12;
    }
    let stations = aggregator.finish();
    assert_eq!(stations.len(), 1);
    assert_eq!(stations[0].name(), &name[..]);
    assert_eq!(stations[0].summary().count(), 500);
    assert_eq!(stations[0].summary().min(), -999);
    assert_eq!(stations[0].summary().max(), 999);
}
