//! The summary of one station, as it is reported.

use vstd::prelude::*;
use vstd::std_specs::cmp::{PartialEqSpecImpl, PartialOrdSpecImpl};
use std::cmp::Ordering;
use crate::bytes::push_bytes;
use crate::decimal::{push_tenths, tenths_text};
use crate::order::{place_of, precedes, Place};
use crate::summary::{lemma_stats_push, stats_of, Stats, TemperatureSummary};

verus! {

/// ASCII `=`, which follows the station name in a report.
pub const EQUALS: u8 = 0x3d;

/// ASCII `/`, which parts the three figures of a report.
pub const SLASH: u8 = 0x2f;

/// A station name with the figures of its readings.
pub struct StationView {
    pub name: Seq<u8>,
    pub stats: Stats,
}

/// The report of one station: `name=min/mean/max`, each figure with exactly
/// one fraction digit.
pub open spec fn station_text(station: StationView) -> Seq<u8> {
    station.name + seq![EQUALS] + tenths_text(station.stats.min) + seq![SLASH] + tenths_text(
        station.stats.mean(),
    ) + seq![SLASH] + tenths_text(station.stats.max)
}

/// A station that has at least one reading, with the figures of its
/// readings. Only an aggregator adds readings to it.
#[derive(Debug)]
pub struct WeatherStation {
    name: Vec<u8>,
    summary: TemperatureSummary,
}

impl View for WeatherStation {
    type V = StationView;

    closed spec fn view(&self) -> StationView {
        StationView { name: self.name@, stats: self.summary@ }
    }
}

impl WeatherStation {
    #[verifier::type_invariant]
    spec fn observed(self) -> bool {
        self.summary@.count > 0
    }

    /// The station `name` with `reading` as its first reading.
    pub fn new(name: Vec<u8>, reading: i32) -> (station: Self)
        ensures
            station@.name == name@,
            station@.stats == stats_of(seq![reading as int]),
    {
        let mut summary = TemperatureSummary::new();
        summary.add_reading(reading);
        proof {
            lemma_stats_push(Seq::empty(), reading as int);
            assert(Seq::<int>::empty().push(reading as int) =~= seq![reading as int]);
        }
        WeatherStation { name, summary }
    }

    /// The station's name.
    pub fn name(&self) -> (name: &[u8])
        ensures
            name@ == self@.name,
    {
        self.name.as_slice()
    }

    /// The figures of the station's readings.
    pub fn summary(&self) -> (summary: &TemperatureSummary)
        ensures
            summary@ == self@.stats,
            summary@.count > 0,
            summary@.consistent(),
    {
        proof {
            use_type_invariant(self);
            use_type_invariant(&self.summary);
        }
        &self.summary
    }

    /// Takes one more reading of this station.
    pub(crate) fn add_reading(&mut self, reading: i32)
        requires
            old(self)@.stats.count < u32::MAX,
        ensures
            final(self)@.name == old(self)@.name,
            final(self)@.stats == old(self)@.stats.with(reading as int),
    {
        let mut summary = self.summary;
        summary.add_reading(reading);
        self.summary = summary;
    }

    /// Appends the station's report to `out`.
    pub fn push_text(&self, out: &mut Vec<u8>)
        ensures
            final(out)@ == old(out)@ + station_text(self@),
    {
        proof {
            use_type_invariant(self);
        }
        push_bytes(out, self.name.as_slice());
        out.push(EQUALS);
        push_tenths(out, self.summary.min());
        out.push(SLASH);
        push_tenths(out, self.summary.avg());
        out.push(SLASH);
        push_tenths(out, self.summary.max());
        assert(out@ =~= old(out)@ + station_text(self@));
    }

    /// The station's report: `name=min/mean/max`.
    pub fn to_text(&self) -> (text: Vec<u8>)
        ensures
            text@ == station_text(self@),
    {
        let mut text: Vec<u8> = Vec::new();
        self.push_text(&mut text);
        text
    }
}

/// The views of a vector of stations.
pub open spec fn views(stations: Seq<WeatherStation>) -> Seq<StationView> {
    Seq::new(stations.len(), |i: int| stations[i]@)
}

/// Two stations are equal when they have the same name.
impl PartialEq for WeatherStation {
    fn eq(&self, other: &Self) -> (b: bool) {
        match place_of(self.name.as_slice(), other.name.as_slice()) {
            Place::Same => true,
            _ => false,
        }
    }
}

impl PartialEqSpecImpl for WeatherStation {
    open spec fn obeys_eq_spec() -> bool {
        true
    }

    open spec fn eq_spec(&self, other: &Self) -> bool {
        self@.name == other@.name
    }
}

impl Eq for WeatherStation {}

/// Stations are ordered by their names.
impl PartialOrd for WeatherStation {
    fn partial_cmp(&self, other: &Self) -> (o: Option<Ordering>) {
        match place_of(self.name.as_slice(), other.name.as_slice()) {
            Place::Before => Some(Ordering::Less),
            Place::Same => Some(Ordering::Equal),
            Place::After => Some(Ordering::Greater),
        }
    }
}

impl PartialOrdSpecImpl for WeatherStation {
    open spec fn obeys_partial_cmp_spec() -> bool {
        true
    }

    open spec fn partial_cmp_spec(&self, other: &Self) -> Option<Ordering> {
        if precedes(self@.name, other@.name) {
            Some(Ordering::Less)
        } else if self@.name == other@.name {
            Some(Ordering::Equal)
        } else {
            Some(Ordering::Greater)
        }
    }
}

} // verus!
