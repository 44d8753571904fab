//! The final report: `{name=min/mean/max, name=min/mean/max, ...}`.

use vstd::prelude::*;
use crate::station::{station_text, views, StationView, WeatherStation};

verus! {

/// ASCII `{`, which opens the report.
pub const OPEN: u8 = 0x7b;

/// ASCII `}`, which closes the report.
pub const CLOSE: u8 = 0x7d;

/// ASCII `,`, which with a space parts two entries of the report.
pub const COMMA: u8 = 0x2c;

/// ASCII space.
pub const SPACE: u8 = 0x20;

/// The reports of `stations` in their order, with `", "` between each two.
pub open spec fn joined(stations: Seq<StationView>) -> Seq<u8>
    decreases stations.len(),
{
    if stations.len() == 0 {
        Seq::empty()
    } else if stations.len() == 1 {
        station_text(stations[0])
    } else {
        joined(stations.drop_last()) + seq![COMMA, SPACE] + station_text(stations.last())
    }
}

/// The report of `stations`: their entries, joined, between braces.
pub open spec fn report_text(stations: Seq<StationView>) -> Seq<u8> {
    seq![OPEN] + joined(stations) + seq![CLOSE]
}

/// Writes the report of `stations`, in the order given.
pub fn report(stations: &[WeatherStation]) -> (text: Vec<u8>)
    ensures
        text@ == report_text(views(stations@)),
{
    let ghost all = views(stations@);
    let mut text: Vec<u8> = Vec::new();
    text.push(OPEN);
    let mut i: usize = 0;
    assert(all.take(0) =~= Seq::<StationView>::empty());
    while i < stations.len()
        invariant
            i <= stations.len(),
            all == views(stations@),
            text@ == seq![OPEN] + joined(all.take(i as int)),
        decreases stations.len() - i,
    {
        if i > 0 {
            text.push(COMMA);
            text.push(SPACE);
        }
        stations[i].push_text(&mut text);
        proof {
            let next = all.take(i + 1);
            assert(next.drop_last() =~= all.take(i as int));
            assert(next.last() == stations[i as int]@);
            assert(i == 0 ==> next[0] == stations[0]@);
            assert(text@ =~= seq![OPEN] + joined(next));
        }
        i += 1;
    }
    assert(all.take(i as int) =~= all);
    text.push(CLOSE);
    text
}

} // verus!
