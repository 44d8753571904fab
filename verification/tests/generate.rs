use brc::aggregate::Aggregator;
use brc::build_input::{get_weather_stations, output_lines, City};
use brc::decimal::parse_tenths;
use brc::station::WeatherStation;
use rand::rngs::StdRng;
use rand::{Rng, SeedableRng};
use rand_distr::Normal;

fn one_city(line: &str) -> Vec<City> {
    match get_weather_stations(&[line.as_bytes().to_vec()]) {
        Ok(cities) => cities,
        Err(e) => panic!("turned down: {:?}", e),
    }
}

fn draw(city: &City, rng: &mut StdRng) -> i32 {
    let dist = match Normal::new(city.average_temperature() as f32 / 10.0, 10.0) {
        Ok(dist) => dist,
        Err(e) => panic!("no distribution: {:?}", e),
    };
    let sample: f32 = rng.sample(dist);
    match parse_tenths(format!("{sample:.1}").as_bytes()) {
        Some(tenths) => tenths,
        None => panic!("sample {sample} is no number"),
    }
}

fn generate_and_summarise(cities: &[City], records: u64, seed: u64) -> Vec<WeatherStation> {
    let mut rng = StdRng::seed_from_u64(seed);
    let mut lines = match output_lines(cities, records, 1, &mut rng) {
        Ok(lines) => lines,
        Err(e) => panic!("turned down: {:?}", e),
    };
    let mut aggregator = Aggregator::new();
    while let Some(city) = lines.next_city(&mut rng) {
        let city = match city {
            Ok(city) => city,
            Err(e) => panic!("turned down: {:?}", e),
        };
        let drawn = draw(city, &mut rng);
        let line = lines.line(city, drawn);
        let text = &line[..line.len() - 1];
        let value = match parse_tenths(&text[city.name().len() + 1..]) {
            Some(value) => value,
            None => panic!("a line without a number was written"),
        };
        assert!((-999..=999).contains(&value));
        assert!(aggregator.add_line(text).is_ok());
    }
    aggregator.finish()
}

#[test]
fn the_mean_of_generated_lines_is_near_the_average_of_the_station() {
    let cities = one_city("Abha;18.0");
    let records: u64 = 10_000;
    let stations = generate_and_summarise(&cities, records, 2024);
    assert_eq!(stations.len(), 1);
    assert_eq!(stations[0].name(), b"Abha");
    assert_eq!(stations[0].summary().count() as u64, records);
    // The standard deviation of the mean is 10 / sqrt(10 000) = 0.1 degrees,
    // one tenth; four of them and half a tenth for the rounding are allowed.
    let deviation = 10.0 / (records as f64).sqrt();
    let mean = stations[0].summary().avg() as f64 / 10.0;
    assert!((mean - 18.0).abs() <= 4.0 * deviation + 0.05, "mean {mean}");
}

#[test]
fn generated_temperatures_stay_within_the_clamped_range() {
    let hot = one_city("Hot;99.0");
    let stations = generate_and_summarise(&hot, 2_000, 7);
    assert_eq!(stations[0].summary().max(), 999);
    assert!(stations[0].summary().min() >= -999);
    let cold = one_city("Cold;-99.0");
    let stations = generate_and_summarise(&cold, 2_000, 8);
    assert_eq!(stations[0].summary().min(), -999);
    assert!(stations[0].summary().max() <= 999);
}
