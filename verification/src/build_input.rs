//! The station catalogue and the generator of synthetic measurements.
//!
//! The generator picks its stations here and leaves one thing to its
//! caller: drawing each temperature from the normal distribution around the
//! station's average. The caller hands the drawn value back in tenths of a
//! degree, and the line is clamped and written here.

use vstd::prelude::*;
use vstd::slice::slice_to_vec;
use vstd::set_lib::{lemma_int_range, lemma_subset_equality, set_int_range};
use vstd::seq_lib::seq_to_set_is_finite;
use rand::rngs::StdRng;
use rand::seq::IteratorRandom;
use crate::aggregate::{all_measurements, readings_of};
use crate::bytes::{lemma_index_of_byte, texts};
use crate::error::{BrcError, BrcResult, Rejection};
use crate::measurement::{
    is_measurement, lemma_measurement_round_trip, measurement_of, measurement_text,
    parse_measurement, push_measurement, NEWLINE, SEPARATOR,
};

verus! {

/// ASCII `#`, which opens a comment line of the catalogue.
pub const HASH: u8 = 0x23;

/// Lowest temperature that is ever written, in tenths of a degree.
pub const MIN_TEMPERATURE: i32 = -999;

/// Highest temperature that is ever written, in tenths of a degree.
pub const MAX_TEMPERATURE: i32 = 999;

/// A station name with its average temperature in tenths of a degree.
pub struct CityView {
    pub name: Seq<u8>,
    pub average_temperature: int,
}

/// A weather station of the catalogue.
#[derive(Debug)]
pub struct City {
    name: Vec<u8>,
    average_temperature: i32,
}

impl View for City {
    type V = CityView;

    closed spec fn view(&self) -> CityView {
        CityView { name: self.name@, average_temperature: self.average_temperature as int }
    }
}

/// `name` holds no separator, so that it can stand in a measurement line.
pub open spec fn is_name(name: Seq<u8>) -> bool {
    forall|i: int| 0 <= i < name.len() ==> name[i] != SEPARATOR
}

impl City {
    #[verifier::type_invariant]
    spec fn named(self) -> bool {
        is_name(self.name@)
    }

    /// The station's name, which holds no `;`.
    pub fn name(&self) -> (name: &[u8])
        ensures
            name@ == self@.name,
            is_name(name@),
    {
        proof {
            use_type_invariant(self);
        }
        self.name.as_slice()
    }

    /// The station's average temperature, in tenths of a degree.
    pub fn average_temperature(&self) -> (tenths: i32)
        ensures
            tenths == self@.average_temperature,
    {
        self.average_temperature
    }
}

/// `line` is a comment of the catalogue.
pub open spec fn is_comment(line: Seq<u8>) -> bool {
    line.len() > 0 && line[0] == HASH
}

/// The station that the catalogue line `line` describes, or why the line is
/// turned down.
pub open spec fn city_of(line: Seq<u8>) -> Result<CityView, Rejection> {
    match measurement_of(line) {
        Ok((name, tenths)) => Ok(CityView { name, average_temperature: tenths }),
        Err(e) => Err(e),
    }
}

/// The lines of a catalogue that are no comments, in their order.
pub open spec fn entries(lines: Seq<Seq<u8>>) -> Seq<Seq<u8>>
    decreases lines.len(),
{
    if lines.len() == 0 {
        Seq::empty()
    } else if is_comment(lines.last()) {
        entries(lines.drop_last())
    } else {
        entries(lines.drop_last()).push(lines.last())
    }
}

/// The views of a vector of stations.
pub open spec fn city_views(cities: Seq<City>) -> Seq<CityView> {
    Seq::new(cities.len(), |i: int| cities[i]@)
}

/// Reads one catalogue line, `name;average`.
pub fn parse_city(line: &[u8]) -> (r: BrcResult<City>)
    ensures
        match r {
            Ok(city) => city_of(line@) == Ok::<CityView, Rejection>(city@),
            Err(e) => city_of(line@) == Err::<CityView, Rejection>(e@),
        },
{
    match parse_measurement(line) {
        Ok((name, tenths)) => {
            proof {
                lemma_index_of_byte(line@, SEPARATOR);
            }
            Ok(City { name: slice_to_vec(name), average_temperature: tenths })
        },
        Err(e) => Err(e),
    }
}

/// Reads the catalogue from its lines, each without its line end. Lines that
/// start with `#` are skipped. The first other line that is malformed ends the
/// work with its error; no part of the catalogue is returned then.
pub fn get_weather_stations(lines: &[Vec<u8>]) -> (r: BrcResult<Vec<City>>)
    ensures
        match r {
            Ok(cities) => {
                &&& cities.len() == entries(texts(lines@)).len()
                &&& forall|i: int|
                    0 <= i < cities.len() ==> city_of(#[trigger] entries(texts(lines@))[i])
                        == Ok::<CityView, Rejection>(cities[i]@)
            },
            Err(e) => exists|i: int|
                {
                    &&& 0 <= i < lines.len()
                    &&& !is_comment(#[trigger] texts(lines@)[i])
                    &&& city_of(texts(lines@)[i]) == Err::<CityView, Rejection>(e@)
                    &&& forall|j: int|
                        0 <= j < i ==> is_comment(#[trigger] texts(lines@)[j]) || city_of(
                            texts(lines@)[j],
                        ) is Ok
                },
        },
{
    let ghost all = texts(lines@);
    let mut cities: Vec<City> = Vec::new();
    let mut i: usize = 0;
    assert(all.take(0) =~= Seq::<Seq<u8>>::empty());
    while i < lines.len()
        invariant
            i <= lines.len(),
            all == texts(lines@),
            cities.len() == entries(all.take(i as int)).len(),
            forall|k: int|
                0 <= k < cities.len() ==> city_of(#[trigger] entries(all.take(i as int))[k])
                    == Ok::<CityView, Rejection>(cities[k]@),
            forall|j: int| 0 <= j < i ==> is_comment(#[trigger] all[j]) || city_of(all[j]) is Ok,
        decreases lines.len() - i,
    {
        let line = lines[i].as_slice();
        assert(all[i as int] == line@);
        assert(all.take(i + 1).drop_last() =~= all.take(i as int));
        if !(line.len() > 0 && line[0] == HASH) {
            match parse_city(line) {
                Ok(city) => {
                    cities.push(city);
                },
                Err(e) => {
                    return Err(e);
                },
            }
        }
        i += 1;
    }
    assert(all.take(i as int) =~= all);
    Ok(cities)
}

/// `picked` is a selection of stations out of `len`: indices below `len`,
/// none of them twice.
pub open spec fn is_selection(picked: Seq<usize>, len: nat) -> bool {
    &&& forall|i: int| 0 <= i < picked.len() ==> picked[i] < len
    &&& forall|i: int, j: int| 0 <= i < j < picked.len() ==> picked[i] != picked[j]
}

/// The standard random number generator of the `rand` crate. Nothing is
/// known of its state here.
#[verifier::external_type_specification]
#[verifier::external_body]
pub struct ExStdRng(rand::rngs::StdRng);

/// Calls `rand::seq::IteratorRandom::choose_multiple` on the indices of
/// `stations`, asking for `amount` of them.
///
/// The call fills a reservoir with the first `amount` indices and then lets
/// each later index take a random place in it or none. So, with `amount` no
/// more than the number of stations, what comes back holds exactly `amount`
/// indices, each of a station, none of them twice. Which indices they are, and
/// in what order, is left to chance.
#[verifier::external_body]
fn choose_indices(rng: &mut StdRng, stations: &[City], amount: usize) -> (picked: Vec<usize>)
    requires
        amount <= stations@.len(),
    ensures
        picked@.len() == amount,
        is_selection(picked@, stations@.len()),
{
    (0..stations.len()).choose_multiple(rng, amount)
}

/// Calls `rand::seq::IteratorRandom::choose` on the indices `0..len`.
///
/// Nothing is chosen from no indices; otherwise one index below `len` comes
/// back. Which one is left to chance.
#[verifier::external_body]
fn choose_index(rng: &mut StdRng, len: usize) -> (picked: Option<usize>)
    ensures
        len == 0 ==> picked is None,
        len > 0 ==> picked is Some && picked->0 < len,
{
    (0..len).choose(rng)
}

/// A selection of as many stations as there are holds every station.
pub proof fn lemma_full_selection(picked: Seq<usize>, len: nat)
    requires
        is_selection(picked, len),
        picked.len() == len,
    ensures
        forall|k: usize| k < len ==> picked.contains(k),
{
    let indices = picked.map_values(|i: usize| i as int);
    assert(indices.no_duplicates()) by {
        assert forall|i: int, j: int|
            0 <= i < indices.len() && 0 <= j < indices.len() && i != j implies indices[i]
            != indices[j] by {
            if i < j {
                assert(picked[i] != picked[j]);
            } else {
                assert(picked[j] != picked[i]);
            }
        }
    }
    indices.unique_seq_to_set();
    lemma_int_range(0, len as int);
    seq_to_set_is_finite(indices);
    assert(indices.to_set().subset_of(set_int_range(0, len as int))) by {
        assert forall|v: int| indices.to_set().contains(v) implies set_int_range(
            0,
            len as int,
        ).contains(v) by {
            let i = choose|i: int| 0 <= i < indices.len() && indices[i] == v;
            assert(picked[i] < len);
        }
    }
    lemma_subset_equality(indices.to_set(), set_int_range(0, len as int));
    assert forall|k: usize| k < len implies picked.contains(k) by {
        assert(set_int_range(0, len as int).contains(k as int));
        assert(indices.to_set().contains(k as int));
        let i = choose|i: int| 0 <= i < indices.len() && indices[i] == k as int;
        assert(picked[i] == k);
    }
}

/// What a [`Measurements`] holds: the catalogue, the indices of the stations
/// selected from it, and the number of measurements still to come.
pub struct MeasurementsView {
    pub stations: Seq<CityView>,
    pub selection: Seq<usize>,
    pub remaining: nat,
}

/// A source of `records` measurements, each of a station picked at random
/// from a selection of the catalogue.
pub struct Measurements<'a> {
    stations: &'a [City],
    selection: Vec<usize>,
    remaining: u64,
}

impl<'a> View for Measurements<'a> {
    type V = MeasurementsView;

    closed spec fn view(&self) -> MeasurementsView {
        MeasurementsView {
            stations: city_views(self.stations@),
            selection: self.selection@,
            remaining: self.remaining as nat,
        }
    }
}

/// `city` is one of the selected stations.
pub open spec fn is_selected(source: MeasurementsView, city: CityView) -> bool {
    exists|k: int|
        0 <= k < source.selection.len() && source.stations[#[trigger] source.selection[k] as int]
            == city
}

/// Selects `unique_cities` stations of the catalogue at random, none of them
/// twice, or the whole catalogue if it has no more than that, and prepares
/// `records` measurements of them.
pub fn generate_input<'a>(
    weather_stations: &'a [City],
    records: u64,
    unique_cities: u32,
    rng: &mut StdRng,
) -> (r: BrcResult<Measurements<'a>>)
    ensures
        r matches Ok(source) && {
            &&& source@.stations == city_views(weather_stations@)
            &&& source@.remaining == records
            &&& is_selection(source@.selection, weather_stations@.len())
            &&& source@.selection.len() == if unique_cities < weather_stations@.len() {
                unique_cities as nat
            } else {
                weather_stations@.len()
            }
            &&& unique_cities >= weather_stations@.len() ==> forall|k: usize|
                k < weather_stations@.len() ==> source@.selection.contains(k)
        },
{
    let amount = if (unique_cities as usize) < weather_stations.len() {
        unique_cities as usize
    } else {
        weather_stations.len()
    };
    let selection = choose_indices(rng, weather_stations, amount);
    proof {
        if unique_cities >= weather_stations@.len() {
            lemma_full_selection(selection@, weather_stations@.len());
        }
    }
    Ok(Measurements { stations: weather_stations, selection, remaining: records })
}

impl<'a> Measurements<'a> {
    #[verifier::type_invariant]
    spec fn selected(self) -> bool {
        is_selection(self.selection@, self.stations@.len())
    }

    /// Number of measurements still to come.
    pub fn remaining(&self) -> (n: u64)
        ensures
            n == self@.remaining,
    {
        self.remaining
    }

    /// Number of stations selected.
    pub fn selected_count(&self) -> (n: usize)
        ensures
            n == self@.selection.len(),
    {
        self.selection.len()
    }

    /// The station at place `pick` of the selection, where `pick` is what was
    /// chosen among the places of the selection; with no place chosen, because
    /// the selection is empty, the measurement fails.
    pub fn city_at(&self, pick: Option<usize>) -> (r: BrcResult<&'a City>)
        requires
            pick matches Some(k) ==> k < self@.selection.len(),
        ensures
            match pick {
                Some(k) => r matches Ok(city) && city@ == self@.stations[self@.selection[k as int]
                    as int],
                None => r matches Err(e) && e@ == Rejection::EmptyStations,
            },
    {
        proof {
            use_type_invariant(self);
        }
        match pick {
            Some(k) => Ok(&self.stations[self.selection[k]]),
            None => Err(BrcError::EmptyStations),
        }
    }

    /// Picks the station of the next measurement at random from the
    /// selection. Returns `None` once all measurements were asked for; each
    /// measurement asked of an empty selection fails.
    pub fn next_city(&mut self, rng: &mut StdRng) -> (r: Option<BrcResult<&'a City>>)
        ensures
            final(self)@.stations == old(self)@.stations,
            final(self)@.selection == old(self)@.selection,
            old(self)@.remaining == 0 ==> r is None && final(self)@.remaining == 0,
            old(self)@.remaining > 0 ==> final(self)@.remaining == old(self)@.remaining - 1 && (
            match r {
                Some(Ok(city)) => is_selected(old(self)@, city@),
                Some(Err(e)) => old(self)@.selection.len() == 0 && e@ == Rejection::EmptyStations,
                None => false,
            }),
    {
        proof {
            use_type_invariant(&*self);
        }
        if self.remaining == 0 {
            return None;
        }
        self.remaining = self.remaining - 1;
        let pick = choose_index(rng, self.selection.len());
        let city = self.city_at(pick);
        assert(pick matches Some(k) ==> self@.stations[self@.selection[k as int] as int]
            == city->Ok_0@);
        Some(city)
    }
}

/// `tenths` held to the range of temperatures that are written, from -99.9
/// to 99.9 degrees.
pub open spec fn clamped(tenths: int) -> int {
    if tenths < MIN_TEMPERATURE {
        MIN_TEMPERATURE as int
    } else if tenths > MAX_TEMPERATURE {
        MAX_TEMPERATURE as int
    } else {
        tenths
    }
}

/// Holds a drawn temperature, in tenths of a degree, to the range from
/// -99.9 to 99.9 degrees.
pub fn clamp_temperature(tenths: i32) -> (t: i32)
    ensures
        t == clamped(tenths as int),
        MIN_TEMPERATURE <= t <= MAX_TEMPERATURE,
{
    if tenths < MIN_TEMPERATURE {
        MIN_TEMPERATURE
    } else if tenths > MAX_TEMPERATURE {
        MAX_TEMPERATURE
    } else {
        tenths
    }
}

/// The measurement of `city` for the temperature `drawn`, in tenths of a
/// degree: the station's name and the temperature, clamped.
pub fn measurement<'a>(city: &'a City, drawn: i32) -> (m: (&'a [u8], i32))
    ensures
        m.0@ == city@.name,
        is_name(m.0@),
        m.1 == clamped(drawn as int),
{
    (city.name(), clamp_temperature(drawn))
}

/// The line that is written for `city` and the temperature `tenths`:
/// `name;temperature` and a line feed.
pub open spec fn output_line_text(city: CityView, tenths: int) -> Seq<u8> {
    measurement_text(city.name, clamped(tenths)) + seq![NEWLINE]
}

/// Writes the line of one measurement: the station's name, `;`, the drawn
/// temperature clamped and with exactly one fraction digit, and a line feed.
/// Without its line feed the line reads back as the very measurement.
pub fn output_line(city: &City, drawn: i32) -> (line: Vec<u8>)
    ensures
        line@ == output_line_text(city@, drawn as int),
        measurement_of(line@.drop_last()) == Ok::<(Seq<u8>, int), Rejection>(
            (city@.name, clamped(drawn as int)),
        ),
{
    let (name, tenths) = measurement(city, drawn);
    let mut line: Vec<u8> = Vec::new();
    push_measurement(&mut line, name, tenths);
    line.push(NEWLINE);
    proof {
        lemma_measurement_round_trip(city@.name, tenths as int);
        assert(line@.drop_last() =~= measurement_text(city@.name, tenths as int));
    }
    line
}

/// The lines that are written for one station and the temperatures `drawn`,
/// each without its line feed.
pub open spec fn written_lines(city: CityView, drawn: Seq<int>) -> Seq<Seq<u8>> {
    Seq::new(drawn.len(), |i: int| measurement_text(city.name, clamped(drawn[i])))
}

/// What is written for one station reads back as it was drawn, but clamped:
/// every line is a well-formed measurement of that station, and the readings
/// that an aggregator takes from the lines are the drawn temperatures held to
/// the range from -99.9 to 99.9 degrees, in their order.
pub proof fn lemma_written_lines_read_back(city: CityView, drawn: Seq<int>)
    requires
        is_name(city.name),
    ensures
        all_measurements(written_lines(city, drawn)),
        readings_of(written_lines(city, drawn), city.name) == Seq::new(
            drawn.len(),
            |i: int| clamped(drawn[i]),
        ),
        forall|i: int|
            0 <= i < drawn.len() ==> MIN_TEMPERATURE <= #[trigger] readings_of(
                written_lines(city, drawn),
                city.name,
            )[i] <= MAX_TEMPERATURE,
    decreases drawn.len(),
{
    let lines = written_lines(city, drawn);
    let readings = Seq::new(drawn.len(), |i: int| clamped(drawn[i]));
    if drawn.len() > 0 {
        let front = drawn.drop_last();
        lemma_written_lines_read_back(city, front);
        assert(lines.drop_last() =~= written_lines(city, front));
        lemma_measurement_round_trip(city.name, clamped(drawn.last()));
        assert(lines.last() == measurement_text(city.name, clamped(drawn.last())));
        assert(readings_of(lines, city.name) =~= readings);
        assert forall|i: int| 0 <= i < lines.len() implies is_measurement(#[trigger] lines[i]) by {
            if i < front.len() {
                assert(lines[i] == written_lines(city, front)[i]);
            }
        }
    } else {
        assert(readings_of(lines, city.name) =~= readings);
    }
}

/// A source of `records` measurement lines; see [`Measurements`].
pub struct OutputLines<'a> {
    source: Measurements<'a>,
}

impl<'a> View for OutputLines<'a> {
    type V = MeasurementsView;

    closed spec fn view(&self) -> MeasurementsView {
        self.source@
    }
}

/// Selects the stations as [`generate_input`] does, and prepares `records`
/// lines of them.
pub fn output_lines<'a>(
    weather_stations: &'a [City],
    records: u64,
    unique_cities: u32,
    rng: &mut StdRng,
) -> (r: BrcResult<OutputLines<'a>>)
    ensures
        r matches Ok(lines) && {
            &&& lines@.stations == city_views(weather_stations@)
            &&& lines@.remaining == records
            &&& is_selection(lines@.selection, weather_stations@.len())
            &&& lines@.selection.len() == if unique_cities < weather_stations@.len() {
                unique_cities as nat
            } else {
                weather_stations@.len()
            }
            &&& unique_cities >= weather_stations@.len() ==> forall|k: usize|
                k < weather_stations@.len() ==> lines@.selection.contains(k)
        },
{
    match generate_input(weather_stations, records, unique_cities, rng) {
        Ok(source) => Ok(OutputLines { source }),
        Err(e) => Err(e),
    }
}

impl<'a> OutputLines<'a> {
    /// Number of lines still to come.
    pub fn remaining(&self) -> (n: u64)
        ensures
            n == self@.remaining,
    {
        self.source.remaining()
    }

    /// Number of stations selected.
    pub fn selected_count(&self) -> (n: usize)
        ensures
            n == self@.selection.len(),
    {
        self.source.selected_count()
    }

    /// Picks the station of the next line at random from the selection.
    /// Returns `None` once all lines were asked for; each line asked of an
    /// empty selection fails.
    pub fn next_city(&mut self, rng: &mut StdRng) -> (r: Option<BrcResult<&'a City>>)
        ensures
            final(self)@.stations == old(self)@.stations,
            final(self)@.selection == old(self)@.selection,
            old(self)@.remaining == 0 ==> r is None && final(self)@.remaining == 0,
            old(self)@.remaining > 0 ==> final(self)@.remaining == old(self)@.remaining - 1 && (
            match r {
                Some(Ok(city)) => is_selected(old(self)@, city@),
                Some(Err(e)) => old(self)@.selection.len() == 0 && e@ == Rejection::EmptyStations,
                None => false,
            }),
    {
        self.source.next_city(rng)
    }

    /// Writes the line of `city` for the temperature `drawn`, in tenths of a
    /// degree; see [`output_line`].
    pub fn line(&self, city: &City, drawn: i32) -> (line: Vec<u8>)
        ensures
            line@ == output_line_text(city@, drawn as int),
            measurement_of(line@.drop_last()) == Ok::<(Seq<u8>, int), Rejection>(
                (city@.name, clamped(drawn as int)),
            ),
    {
        output_line(city, drawn)
    }
}

} // verus!
