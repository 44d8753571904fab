//! The one error type of the crate.

use vstd::prelude::*;
use crate::bytes::push_bytes;

verus! {

/// Why a line, or a request for a measurement, was turned down.
#[derive(Debug)]
pub enum BrcError {
    /// The line holds no `;`.
    MissingSeparator { line: Vec<u8> },
    /// What follows the first `;` of the line is not a decimal number.
    InvalidNumber { line: Vec<u8> },
    /// The station of the line already has as many readings as its counter
    /// can hold.
    TooManyReadings { line: Vec<u8> },
    /// A measurement was asked of an empty selection of stations.
    EmptyStations,
}

/// The mathematical content of a [`BrcError`].
pub enum Rejection {
    MissingSeparator { line: Seq<u8> },
    InvalidNumber { line: Seq<u8> },
    TooManyReadings { line: Seq<u8> },
    EmptyStations,
}

impl View for BrcError {
    type V = Rejection;

    open spec fn view(&self) -> Rejection {
        match self {
            BrcError::MissingSeparator { line } => Rejection::MissingSeparator { line: line@ },
            BrcError::InvalidNumber { line } => Rejection::InvalidNumber { line: line@ },
            BrcError::TooManyReadings { line } => Rejection::TooManyReadings { line: line@ },
            BrcError::EmptyStations => Rejection::EmptyStations,
        }
    }
}

/// Result of an operation that may be turned down with a [`BrcError`].
pub type BrcResult<T = ()> = Result<T, BrcError>;

/// The bytes of a text of ASCII characters.
pub open spec fn ascii(text: Seq<char>) -> Seq<u8> {
    Seq::new(text.len(), |i: int| text[i] as u8)
}

/// The message of an error; it quotes the offending line where there is one.
pub open spec fn message_text(e: Rejection) -> Seq<u8> {
    match e {
        Rejection::MissingSeparator { line } => ascii("No ';' found in \""@) + line + ascii("\""@),
        Rejection::InvalidNumber { line } => ascii("Invalid number in \""@) + line + ascii("\""@),
        Rejection::TooManyReadings { line } => ascii("Too many readings for the station in \""@)
            + line + ascii("\""@),
        Rejection::EmptyStations => ascii("Unexpected empty weather_stations"@),
    }
}

/// Appends the bytes of the ASCII text `text` to `out`.
fn push_ascii(out: &mut Vec<u8>, text: &str)
    requires
        text.is_ascii(),
    ensures
        final(out)@ == old(out)@ + ascii(text@),
{
    broadcast use vstd::string::is_ascii_spec_bytes;

    let bytes = text.as_bytes();
    assert(bytes@ =~= ascii(text@));
    push_bytes(out, bytes);
}

impl BrcError {
    /// The message of this error.
    pub fn message(&self) -> (text: Vec<u8>)
        ensures
            text@ == message_text(self@),
    {
        let mut text: Vec<u8> = Vec::new();
        proof {
            reveal_strlit("No ';' found in \"");
            reveal_strlit("Invalid number in \"");
            reveal_strlit("Too many readings for the station in \"");
            reveal_strlit("Unexpected empty weather_stations");
            reveal_strlit("\"");
        }
        match self {
            BrcError::MissingSeparator { line } => {
                push_ascii(&mut text, "No ';' found in \"");
                push_bytes(&mut text, line.as_slice());
                push_ascii(&mut text, "\"");
            },
            BrcError::InvalidNumber { line } => {
                push_ascii(&mut text, "Invalid number in \"");
                push_bytes(&mut text, line.as_slice());
                push_ascii(&mut text, "\"");
            },
            BrcError::TooManyReadings { line } => {
                push_ascii(&mut text, "Too many readings for the station in \"");
                push_bytes(&mut text, line.as_slice());
                push_ascii(&mut text, "\"");
            },
            BrcError::EmptyStations => {
                push_ascii(&mut text, "Unexpected empty weather_stations");
            },
        }
        text
    }
}

} // verus!
