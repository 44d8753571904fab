//! The line format `name;temperature`.

use vstd::prelude::*;
use vstd::slice::slice_to_vec;
use crate::bytes::{find_byte, index_of_byte, lemma_index_of_byte_unique, push_bytes};
use crate::decimal::{
    is_decimal, lemma_tenths_round_trip, parse_tenths, push_tenths, tenths_text, tenths_value,
};
use crate::error::{BrcError, BrcResult, Rejection};

verus! {

/// ASCII `;`, which parts the station name from the temperature.
pub const SEPARATOR: u8 = 0x3b;

/// ASCII line feed, which ends a written line.
pub const NEWLINE: u8 = 0x0a;

/// `line` holds a separator.
pub open spec fn has_separator(line: Seq<u8>) -> bool {
    index_of_byte(line, SEPARATOR) < line.len()
}

/// What stands before the first separator of `line`.
pub open spec fn name_of(line: Seq<u8>) -> Seq<u8> {
    line.take(index_of_byte(line, SEPARATOR))
}

/// What stands after the first separator of `line`.
pub open spec fn value_text_of(line: Seq<u8>) -> Seq<u8> {
    line.skip(index_of_byte(line, SEPARATOR) + 1)
}

/// `line` is a well-formed measurement: it has a separator, and a decimal
/// number follows the first one.
pub open spec fn is_measurement(line: Seq<u8>) -> bool {
    has_separator(line) && is_decimal(value_text_of(line))
}

/// The reading of a well-formed measurement line, in tenths of a degree.
pub open spec fn reading_of(line: Seq<u8>) -> int {
    tenths_value(value_text_of(line))
}

/// What reading `line` gives: its station name and reading, or why it is
/// turned down.
pub open spec fn measurement_of(line: Seq<u8>) -> Result<(Seq<u8>, int), Rejection> {
    if !has_separator(line) {
        Err(Rejection::MissingSeparator { line })
    } else if !is_decimal(value_text_of(line)) {
        Err(Rejection::InvalidNumber { line })
    } else {
        Ok((name_of(line), reading_of(line)))
    }
}

/// The text of a measurement without its line end.
pub open spec fn measurement_text(name: Seq<u8>, tenths: int) -> Seq<u8> {
    name + seq![SEPARATOR] + tenths_text(tenths)
}

/// Parts `line` at its first separator.
pub fn split_line(line: &[u8]) -> (parts: Option<(&[u8], &[u8])>)
    ensures
        parts is Some <==> has_separator(line@),
        parts matches Some((name, value)) ==> name@ == name_of(line@) && value@ == value_text_of(
            line@,
        ),
{
    let at = find_byte(line, SEPARATOR);
    if at < line.len() {
        let name = &line[0..at];
        let value = &line[at + 1..line.len()];
        Some((name, value))
    } else {
        None
    }
}

/// Reads one measurement line: the station name and the reading in tenths
/// of a degree.
pub fn parse_measurement(line: &[u8]) -> (r: BrcResult<(&[u8], i32)>)
    ensures
        match r {
            Ok((name, reading)) => measurement_of(line@) == Ok::<(Seq<u8>, int), Rejection>(
                (name@, reading as int),
            ),
            Err(e) => measurement_of(line@) == Err::<(Seq<u8>, int), Rejection>(e@),
        },
{
    match split_line(line) {
        None => Err(BrcError::MissingSeparator { line: slice_to_vec(line) }),
        Some((name, value)) => match parse_tenths(value) {
            None => Err(BrcError::InvalidNumber { line: slice_to_vec(line) }),
            Some(reading) => Ok((name, reading)),
        },
    }
}

/// Appends the measurement of `tenths` at station `name` to `out`, without a
/// line end.
pub fn push_measurement(out: &mut Vec<u8>, name: &[u8], tenths: i32)
    ensures
        final(out)@ == old(out)@ + measurement_text(name@, tenths as int),
{
    push_bytes(out, name);
    out.push(SEPARATOR);
    push_tenths(out, tenths);
    assert(out@ =~= old(out)@ + measurement_text(name@, tenths as int));
}

/// A measurement line reads back as the name and the reading that it was
/// written from, provided the name holds no separator.
pub proof fn lemma_measurement_round_trip(name: Seq<u8>, tenths: int)
    requires
        forall|i: int| 0 <= i < name.len() ==> name[i] != SEPARATOR,
        i32::MIN <= tenths <= i32::MAX,
    ensures
        measurement_of(measurement_text(name, tenths)) == Ok::<(Seq<u8>, int), Rejection>(
            (name, tenths),
        ),
{
    let line = measurement_text(name, tenths);
    lemma_index_of_byte_unique(line, SEPARATOR, name.len() as int);
    assert(name_of(line) =~= name);
    assert(value_text_of(line) =~= tenths_text(tenths));
    lemma_tenths_round_trip(tenths);
}

} // verus!
