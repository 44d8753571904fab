//! Folding measurement lines into one summary per station.
//!
//! An [`Aggregator`] is modelled by the sequence of lines it has taken.
//! Its table of stations is kept in the order of their names, so that the
//! final report needs no further sorting.

use vstd::prelude::*;
use vstd::slice::slice_to_vec;
use crate::bytes::texts;
use crate::error::{BrcError, BrcResult, Rejection};
use crate::measurement::{is_measurement, measurement_of, name_of, parse_measurement, reading_of};
use crate::order::{
    lemma_precedes_irreflexive, lemma_precedes_transitive, place_of, precedes, Place,
};
use crate::station::{views, StationView, WeatherStation};
use crate::summary::{
    in_range, lemma_extremes, lemma_mean_within_extremes, lemma_stats_push, stats_of, Stats,
};

verus! {

/// The readings that the well-formed lines among `lines` give for station
/// `name`, in the order of the lines.
pub open spec fn readings_of(lines: Seq<Seq<u8>>, name: Seq<u8>) -> Seq<int>
    decreases lines.len(),
{
    if lines.len() == 0 {
        Seq::empty()
    } else if is_measurement(lines.last()) && name_of(lines.last()) == name {
        readings_of(lines.drop_last(), name).push(reading_of(lines.last()))
    } else {
        readings_of(lines.drop_last(), name)
    }
}

/// Every reading of a line lies within `i32`.
pub proof fn lemma_readings_in_range(lines: Seq<Seq<u8>>, name: Seq<u8>)
    ensures
        in_range(readings_of(lines, name)),
    decreases lines.len(),
{
    if lines.len() > 0 {
        lemma_readings_in_range(lines.drop_last(), name);
    }
}

/// The minimum and the maximum that are kept for a station bound each of its
/// readings and are readings themselves, and its rounded mean lies between
/// them.
pub proof fn lemma_station_figures(lines: Seq<Seq<u8>>, name: Seq<u8>)
    requires
        readings_of(lines, name).len() > 0,
    ensures
        ({
            let readings = readings_of(lines, name);
            let stats = stats_of(readings);
            &&& forall|i: int|
                0 <= i < readings.len() ==> stats.min <= #[trigger] readings[i] <= stats.max
            &&& readings.contains(stats.min)
            &&& readings.contains(stats.max)
            &&& stats.min <= stats.mean() <= stats.max
        }),
{
    let readings = readings_of(lines, name);
    lemma_readings_in_range(lines, name);
    lemma_extremes(readings);
    lemma_mean_within_extremes(readings);
}

/// Why `line` is turned down after the lines `prior` were taken, if it is:
/// it is malformed, or its station already has `u32::MAX` readings.
pub open spec fn rejection(prior: Seq<Seq<u8>>, line: Seq<u8>) -> Option<Rejection> {
    match measurement_of(line) {
        Err(e) => Some(e),
        Ok((name, _)) => if readings_of(prior, name).len() >= u32::MAX {
            Some(Rejection::TooManyReadings { line })
        } else {
            None
        },
    }
}

/// The names of `stations` are strictly ascending.
pub open spec fn ascending(stations: Seq<StationView>) -> bool {
    forall|i: int, j: int|
        0 <= i < j < stations.len() ==> precedes(
            (#[trigger] stations[i]).name,
            (#[trigger] stations[j]).name,
        )
}

/// `stations` is the summary of `lines`: in ascending order of name, one
/// entry for each station that has a reading, with the figures of that
/// station's readings.
pub open spec fn summarizes(stations: Seq<StationView>, lines: Seq<Seq<u8>>) -> bool {
    &&& ascending(stations)
    &&& forall|i: int|
        0 <= i < stations.len() ==> {
            &&& (#[trigger] stations[i]).stats == stats_of(readings_of(lines, stations[i].name))
            &&& stations[i].stats.count > 0
        }
    &&& forall|name: Seq<u8>|
        (#[trigger] readings_of(lines, name)).len() > 0 ==> exists|i: int|
            0 <= i < stations.len() && (#[trigger] stations[i]).name == name
}

/// Searches the ascending table `stations` for `name`: returns its index and
/// `true`, or the index at which it would have to be inserted and `false`.
fn locate(stations: &Vec<WeatherStation>, name: &[u8]) -> (r: (usize, bool))
    requires
        ascending(views(stations@)),
    ensures
        r.0 <= stations.len(),
        r.1 ==> r.0 < stations.len() && stations[r.0 as int]@.name == name@,
        !r.1 ==> forall|i: int| 0 <= i < r.0 ==> precedes(#[trigger] stations[i]@.name, name@),
        !r.1 ==> forall|i: int|
            r.0 <= i < stations.len() ==> precedes(name@, #[trigger] stations[i]@.name),
{
    let mut lo: usize = 0;
    let mut hi: usize = stations.len();
    while lo < hi
        invariant
            lo <= hi <= stations.len(),
            ascending(views(stations@)),
            forall|i: int| 0 <= i < lo ==> precedes(#[trigger] stations[i]@.name, name@),
            forall|i: int|
                hi <= i < stations.len() ==> precedes(name@, #[trigger] stations[i]@.name),
        decreases hi - lo,
    {
        let mid = lo + (hi - lo) / 2;
        let ghost table = views(stations@);
        let ghost pivot = table[mid as int].name;
        match place_of(stations[mid].name(), name) {
            Place::Same => {
                return (mid, true);
            },
            Place::Before => {
                assert forall|i: int| 0 <= i < mid + 1 implies precedes(
                    #[trigger] stations[i]@.name,
                    name@,
                ) by {
                    if i < mid {
                        assert(precedes(table[i].name, table[mid as int].name));
                        lemma_precedes_transitive(stations[i]@.name, pivot, name@);
                    }
                }
                lo = mid + 1;
            },
            Place::After => {
                assert forall|i: int| mid <= i < stations.len() implies precedes(
                    name@,
                    #[trigger] stations[i]@.name,
                ) by {
                    if i > mid {
                        assert(precedes(table[mid as int].name, table[i].name));
                        lemma_precedes_transitive(name@, pivot, stations[i]@.name);
                    }
                }
                hi = mid;
            },
        }
    }
    (lo, false)
}

/// The running per-station summaries of the lines taken so far.
pub struct Aggregator {
    stations: Vec<WeatherStation>,
    lines: Ghost<Seq<Seq<u8>>>,
}

impl View for Aggregator {
    type V = Seq<Seq<u8>>;

    /// The lines taken so far, oldest first.
    closed spec fn view(&self) -> Seq<Seq<u8>> {
        self.lines@
    }
}

impl Aggregator {
    #[verifier::type_invariant]
    spec fn coherent(self) -> bool {
        summarizes(views(self.stations@), self.lines@)
    }

    /// An aggregator that has taken no line.
    pub fn new() -> (aggregator: Self)
        ensures
            aggregator@ == Seq::<Seq<u8>>::empty(),
    {
        Aggregator { stations: Vec::new(), lines: Ghost(Seq::empty()) }
    }

    /// Takes one line: adds its reading to the summary of its station, which
    /// is entered on its first reading. A line that is turned down leaves the
    /// aggregator as it was.
    pub fn add_line(&mut self, line: &[u8]) -> (r: BrcResult)
        ensures
            match r {
                Ok(()) => rejection(old(self)@, line@) is None && final(self)@ == old(self)@.push(
                    line@,
                ),
                Err(e) => rejection(old(self)@, line@) == Some(e@) && final(self)@ == old(self)@,
            },
    {
        let (name, reading) = match parse_measurement(line) {
            Ok(measurement) => measurement,
            Err(e) => {
                return Err(e);
            },
        };
        proof {
            use_type_invariant(&*self);
        }
        let (at, found) = locate(&self.stations, name);
        let ghost before = views(self.stations@);
        let ghost taken = self.lines@;
        let ghost after = taken.push(line@);
        assert(after.drop_last() =~= taken);
        if found {
            assert(before[at as int].name == name@);
            if self.stations[at].summary().count() == u32::MAX {
                return Err(BrcError::TooManyReadings { line: slice_to_vec(line) });
            }
            let mut current = Aggregator::new();
            std::mem::swap(self, &mut current);
            let mut stations = current.stations;
            stations[at].add_reading(reading);
            proof {
                let now = views(stations@);
                lemma_stats_push(readings_of(taken, name@), reading as int);
                assert forall|i: int| 0 <= i < now.len() implies (#[trigger] now[i]).name
                    == before[i].name by {}
                assert forall|i: int| 0 <= i < now.len() implies {
                    &&& (#[trigger] now[i]).stats == stats_of(readings_of(after, now[i].name))
                    &&& now[i].stats.count > 0
                } by {
                    if i != at {
                        assert(now[i] == before[i]);
                        if i < at {
                            assert(precedes(before[i].name, before[at as int].name));
                        } else {
                            assert(precedes(before[at as int].name, before[i].name));
                        }
                        lemma_precedes_irreflexive(name@);
                    }
                }
                assert forall|other: Seq<u8>|
                    (#[trigger] readings_of(after, other)).len() > 0 implies exists|i: int|
                    0 <= i < now.len() && (#[trigger] now[i]).name == other by {
                    if other == name@ {
                        assert(now[at as int].name == other);
                    } else {
                        assert(readings_of(taken, other).len() > 0);
                        let i = choose|i: int|
                            0 <= i < before.len() && (#[trigger] before[i]).name == other;
                        assert(now[i].name == other);
                    }
                }
            }
            *self = Aggregator { stations, lines: Ghost(after) };
        } else {
            proof {
                if readings_of(taken, name@).len() > 0 {
                    let i = choose|i: int|
                        0 <= i < before.len() && (#[trigger] before[i]).name == name@;
                    lemma_precedes_irreflexive(name@);
                    assert(precedes(self.stations[i]@.name, name@) || precedes(
                        name@,
                        self.stations[i]@.name,
                    ));
                }
                assert(readings_of(taken, name@) =~= Seq::<int>::empty());
                lemma_stats_push(Seq::empty(), reading as int);
                assert(Seq::<int>::empty().push(reading as int) =~= seq![reading as int]);
            }
            let station = WeatherStation::new(slice_to_vec(name), reading);
            let mut current = Aggregator::new();
            std::mem::swap(self, &mut current);
            let mut stations = current.stations;
            stations.insert(at, station);
            proof {
                let now = views(stations@);
                assert forall|i: int| 0 <= i < now.len() implies #[trigger] now[i] == (if i < at {
                    before[i]
                } else if i == at {
                    station@
                } else {
                    before[i - 1]
                }) by {}
                assert forall|i: int, j: int| 0 <= i < j < now.len() implies precedes(
                    (#[trigger] now[i]).name,
                    (#[trigger] now[j]).name,
                ) by {
                    if j < at {
                        assert(precedes(before[i].name, before[j].name));
                    } else if j == at {
                        assert(precedes(before[i].name, name@));
                    } else if i < at {
                        assert(precedes(before[i].name, before[j - 1].name));
                    } else if i == at {
                        assert(precedes(name@, before[j - 1].name));
                    } else {
                        assert(precedes(before[i - 1].name, before[j - 1].name));
                    }
                }
                assert forall|i: int| 0 <= i < now.len() implies {
                    &&& (#[trigger] now[i]).stats == stats_of(readings_of(after, now[i].name))
                    &&& now[i].stats.count > 0
                } by {
                    lemma_precedes_irreflexive(name@);
                    if i < at {
                        assert(precedes(before[i].name, name@));
                    } else if i > at {
                        assert(precedes(name@, before[i - 1].name));
                    }
                }
                assert forall|other: Seq<u8>|
                    (#[trigger] readings_of(after, other)).len() > 0 implies exists|i: int|
                    0 <= i < now.len() && (#[trigger] now[i]).name == other by {
                    if other == name@ {
                        assert(now[at as int].name == other);
                    } else {
                        assert(readings_of(taken, other).len() > 0);
                        let i = choose|i: int|
                            0 <= i < before.len() && (#[trigger] before[i]).name == other;
                        if i < at {
                            assert(now[i].name == other);
                        } else {
                            assert(now[i + 1].name == other);
                        }
                    }
                }
            }
            *self = Aggregator { stations, lines: Ghost(after) };
        }
        Ok(())
    }

    /// The summaries of all lines taken, in ascending order of station name.
    pub fn finish(self) -> (stations: Vec<WeatherStation>)
        ensures
            summarizes(views(stations@), self@),
    {
        proof {
            use_type_invariant(&self);
        }
        self.stations
    }
}

/// Two summaries of the same lines name the same station at each index.
proof fn lemma_same_name_at(
    a: Seq<StationView>,
    b: Seq<StationView>,
    lines: Seq<Seq<u8>>,
    i: int,
)
    requires
        summarizes(a, lines),
        summarizes(b, lines),
        0 <= i < a.len(),
    ensures
        i < b.len(),
        a[i].name == b[i].name,
    decreases i,
{
    let name = a[i].name;
    assert(readings_of(lines, name).len() > 0);
    let j = choose|j: int| 0 <= j < b.len() && (#[trigger] b[j]).name == name;
    lemma_precedes_irreflexive(name);
    if j < i {
        lemma_same_name_at(b, a, lines, j);
        assert(precedes(a[j].name, a[i].name));
    } else if j > i {
        let other = b[i].name;
        assert(readings_of(lines, other).len() > 0);
        let k = choose|k: int| 0 <= k < a.len() && (#[trigger] a[k]).name == other;
        assert(precedes(b[i].name, b[j].name));
        if k < i {
            lemma_same_name_at(a, b, lines, k);
            lemma_precedes_irreflexive(other);
            assert(precedes(b[k].name, b[i].name));
        } else if k > i {
            assert(precedes(a[i].name, a[k].name));
            lemma_precedes_transitive(name, other, name);
        }
    }
}

/// The lines determine their summary: two summaries of the same lines are
/// equal.
pub proof fn lemma_summary_unique(a: Seq<StationView>, b: Seq<StationView>, lines: Seq<Seq<u8>>)
    requires
        summarizes(a, lines),
        summarizes(b, lines),
    ensures
        a == b,
{
    if a.len() > 0 {
        lemma_same_name_at(a, b, lines, a.len() - 1);
    }
    if b.len() > 0 {
        lemma_same_name_at(b, a, lines, b.len() - 1);
    }
    assert forall|i: int| 0 <= i < a.len() implies a[i] == b[i] by {
        lemma_same_name_at(a, b, lines, i);
    }
    assert(a =~= b);
}

/// Every line of `lines` is taken when they are fed in order.
pub open spec fn all_accepted(lines: Seq<Seq<u8>>) -> bool {
    forall|i: int| 0 <= i < lines.len() ==> rejection(lines.take(i), #[trigger] lines[i]) is None
}

/// Summarises `lines`, each a measurement without its line end. The first
/// line that is turned down ends the work with its error; otherwise the
/// summaries of all stations come back in ascending order of name.
pub fn temperature_reading_summaries(lines: &[Vec<u8>]) -> (r: BrcResult<Vec<WeatherStation>>)
    ensures
        match r {
            Ok(stations) => all_accepted(texts(lines@)) && summarizes(
                views(stations@),
                texts(lines@),
            ),
            Err(e) => exists|i: int|
                0 <= i < lines.len() && all_accepted(texts(lines@).take(i)) && rejection(
                    texts(lines@).take(i),
                    #[trigger] texts(lines@)[i],
                ) == Some(e@),
        },
{
    let ghost all = texts(lines@);
    let mut aggregator = Aggregator::new();
    let mut i: usize = 0;
    assert(all.take(0) =~= Seq::<Seq<u8>>::empty());
    while i < lines.len()
        invariant
            i <= lines.len(),
            all == texts(lines@),
            aggregator@ == all.take(i as int),
            all_accepted(all.take(i as int)),
        decreases lines.len() - i,
    {
        let ghost taken = all.take(i as int);
        assert(all[i as int] == lines[i as int]@);
        match aggregator.add_line(lines[i].as_slice()) {
            Ok(()) => {},
            Err(e) => {
                return Err(e);
            },
        }
        proof {
            let next = all.take(i + 1);
            assert(next =~= taken.push(all[i as int]));
            assert forall|k: int| 0 <= k < next.len() implies rejection(
                next.take(k),
                #[trigger] next[k],
            ) is None by {
                if k < i {
                    assert(next.take(k) =~= taken.take(k));
                    assert(next[k] == taken[k]);
                } else {
                    assert(next.take(k) =~= taken);
                }
            }
        }
        i += 1;
    }
    assert(all.take(i as int) =~= all);
    Ok(aggregator.finish())
}

/// What a station holds after `line`, if it held `stats` before.
pub open spec fn stats_after(stats: Stats, line: Seq<u8>, name: Seq<u8>) -> Stats {
    if is_measurement(line) && name_of(line) == name {
        stats.with(reading_of(line))
    } else {
        stats
    }
}

/// One more line at the end changes the figures of a station by that line
/// alone.
pub proof fn lemma_stats_after(lines: Seq<Seq<u8>>, line: Seq<u8>, name: Seq<u8>)
    ensures
        stats_of(readings_of(lines.push(line), name)) == stats_after(
            stats_of(readings_of(lines, name)),
            line,
            name,
        ),
{
    assert(lines.push(line).drop_last() =~= lines);
    if is_measurement(line) && name_of(line) == name {
        lemma_stats_push(readings_of(lines, name), reading_of(line));
    }
}

/// Where a line enters the sequence does not matter to the figures of any
/// station.
proof fn lemma_stats_insert(lines: Seq<Seq<u8>>, i: int, line: Seq<u8>, name: Seq<u8>)
    requires
        0 <= i <= lines.len(),
    ensures
        stats_of(readings_of(lines.insert(i, line), name)) == stats_of(
            readings_of(lines.push(line), name),
        ),
    decreases lines.len() - i,
{
    if i == lines.len() {
        assert(lines.insert(i, line) =~= lines.push(line));
    } else {
        let front = lines.drop_last();
        let last = lines.last();
        assert(lines.insert(i, line) =~= front.insert(i, line).push(last));
        assert(front.push(last) =~= lines);
        lemma_stats_insert(front, i, line, name);
        lemma_stats_after(front.insert(i, line), last, name);
        lemma_stats_after(front, line, name);
        lemma_stats_after(front, last, name);
        lemma_stats_after(lines, line, name);
    }
}

/// The figures of a station do not depend on the order of the lines: two
/// sequences that hold the same lines equally often give every station the
/// same figures.
pub proof fn lemma_order_irrelevant(a: Seq<Seq<u8>>, b: Seq<Seq<u8>>, name: Seq<u8>)
    requires
        a.to_multiset() == b.to_multiset(),
    ensures
        stats_of(readings_of(a, name)) == stats_of(readings_of(b, name)),
    decreases a.len(),
{
    a.to_multiset_ensures();
    b.to_multiset_ensures();
    if a.len() == 0 {
        assert(b =~= a);
    } else {
        let line = a.last();
        let front = a.drop_last();
        assert(a =~= front.push(line));
        front.to_multiset_ensures();
        assert(a.contains(line));
        assert(a.to_multiset().count(line) > 0);
        assert(b.to_multiset().count(line) > 0);
        assert(b.contains(line));
        let i = choose|i: int| 0 <= i < b.len() && b[i] == line;
        let rest = b.remove(i);
        assert(rest.to_multiset() =~= front.to_multiset());
        assert(b =~= rest.insert(i, line));
        lemma_order_irrelevant(front, rest, name);
        lemma_stats_insert(rest, i, line, name);
        lemma_stats_after(rest, line, name);
        lemma_stats_after(front, line, name);
    }
}

/// The summary does not depend on the order of the lines: what summarises
/// one sequence summarises every rearrangement of it.
pub proof fn lemma_summary_order_irrelevant(
    stations: Seq<StationView>,
    a: Seq<Seq<u8>>,
    b: Seq<Seq<u8>>,
)
    requires
        a.to_multiset() == b.to_multiset(),
        summarizes(stations, a),
    ensures
        summarizes(stations, b),
{
    assert forall|i: int| 0 <= i < stations.len() implies (#[trigger] stations[i]).stats
        == stats_of(readings_of(b, stations[i].name)) by {
        lemma_order_irrelevant(a, b, stations[i].name);
    }
    assert forall|name: Seq<u8>| (#[trigger] readings_of(b, name)).len() > 0 implies exists|i: int|
        0 <= i < stations.len() && (#[trigger] stations[i]).name == name by {
        lemma_order_irrelevant(a, b, name);
        assert(readings_of(a, name).len() > 0);
    }
}

/// Every line of `lines` is a well-formed measurement.
pub open spec fn all_measurements(lines: Seq<Seq<u8>>) -> bool {
    forall|i: int| 0 <= i < lines.len() ==> is_measurement(#[trigger] lines[i])
}

/// No station has more readings in `lines` than its counter can hold.
pub open spec fn within_limit(lines: Seq<Seq<u8>>) -> bool {
    forall|name: Seq<u8>| (#[trigger] readings_of(lines, name)).len() <= u32::MAX
}

/// A station has no more readings in a prefix of the lines than in all of
/// them.
proof fn lemma_readings_prefix(lines: Seq<Seq<u8>>, i: int, name: Seq<u8>)
    requires
        0 <= i <= lines.len(),
    ensures
        readings_of(lines.take(i), name).len() <= readings_of(lines, name).len(),
    decreases lines.len() - i,
{
    if i == lines.len() {
        assert(lines.take(i) =~= lines);
    } else {
        assert(lines.drop_last().take(i) =~= lines.take(i));
        lemma_readings_prefix(lines.drop_last(), i, name);
    }
}

/// All lines are taken exactly when each is a well-formed measurement and no
/// station has more readings than its counter can hold.
pub proof fn lemma_all_accepted(lines: Seq<Seq<u8>>)
    ensures
        all_accepted(lines) <==> all_measurements(lines) && within_limit(lines),
    decreases lines.len(),
{
    if lines.len() > 0 {
        let front = lines.drop_last();
        let last = lines.last();
        lemma_all_accepted(front);
        assert(lines.take(lines.len() - 1) =~= front);
        if all_accepted(lines) {
            assert forall|i: int| 0 <= i < front.len() implies rejection(
                front.take(i),
                #[trigger] front[i],
            ) is None by {
                assert(front.take(i) =~= lines.take(i));
                assert(rejection(lines.take(i), lines[i]) is None);
            }
            assert(rejection(front, lines[lines.len() - 1]) is None);
            assert forall|i: int| 0 <= i < lines.len() implies is_measurement(
                #[trigger] lines[i],
            ) by {
                if i < front.len() {
                    assert(is_measurement(front[i]));
                }
            }
            assert forall|name: Seq<u8>| (#[trigger] readings_of(lines, name)).len()
                <= u32::MAX by {
                assert(readings_of(front, name).len() <= u32::MAX);
            }
        }
        if all_measurements(lines) && within_limit(lines) {
            assert forall|i: int| 0 <= i < lines.len() implies rejection(
                lines.take(i),
                #[trigger] lines[i],
            ) is None by {
                let name = name_of(lines[i]);
                assert(is_measurement(lines[i]));
                assert(lines.take(i + 1).drop_last() =~= lines.take(i));
                lemma_readings_prefix(lines, i + 1, name);
                assert(readings_of(lines, name).len() <= u32::MAX);
            }
        }
    } else {
        assert forall|name: Seq<u8>| (#[trigger] readings_of(lines, name)).len() <= u32::MAX by {}
    }
}

/// Whether all lines are taken does not depend on their order.
pub proof fn lemma_acceptance_order_irrelevant(a: Seq<Seq<u8>>, b: Seq<Seq<u8>>)
    requires
        a.to_multiset() == b.to_multiset(),
        all_accepted(a),
    ensures
        all_accepted(b),
{
    lemma_all_accepted(a);
    lemma_all_accepted(b);
    a.to_multiset_ensures();
    b.to_multiset_ensures();
    assert forall|i: int| 0 <= i < b.len() implies is_measurement(#[trigger] b[i]) by {
        assert(b.contains(b[i]));
        assert(b.to_multiset().count(b[i]) > 0);
        assert(a.to_multiset().count(b[i]) > 0);
        assert(a.contains(b[i]));
        let k = choose|k: int| 0 <= k < a.len() && a[k] == b[i];
        assert(is_measurement(a[k]));
    }
    assert forall|name: Seq<u8>| (#[trigger] readings_of(b, name)).len() <= u32::MAX by {
        lemma_order_irrelevant(a, b, name);
        assert(readings_of(a, name).len() <= u32::MAX);
    }
}

/// The summary does not depend on the order of the lines: if the lines of
/// one sequence are all taken, so are those of every rearrangement of it, and
/// both have the same summary.
pub proof fn lemma_rearranged_lines(
    a: Seq<Seq<u8>>,
    b: Seq<Seq<u8>>,
    summary_a: Seq<StationView>,
    summary_b: Seq<StationView>,
)
    requires
        a.to_multiset() == b.to_multiset(),
        all_accepted(a),
        summarizes(summary_a, a),
        summarizes(summary_b, b),
    ensures
        all_accepted(b),
        summary_a == summary_b,
{
    lemma_acceptance_order_irrelevant(a, b);
    lemma_summary_order_irrelevant(summary_a, a, b);
    lemma_summary_unique(summary_a, summary_b, b);
}

} // verus!
