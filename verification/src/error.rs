//! The ways in which reading a table can fail.

use vstd::prelude::*;

verus! {

/// Why a text was not accepted as a table, or a line as a row.
#[derive(Clone, Copy, Debug, PartialEq, Eq, Structural)]
pub enum ParseError {
    /// The text has fewer than two lines: a header and at least one row.
    TooFewRows,
    /// The first line is neither `temp;x;y` nor `temp;dx;dy`.
    UnrecognizedHeader,
    /// A line does not have exactly three fields; or, in a table of absolute
    /// offsets, a row is neither complete nor an anchor, an anchor is not
    /// followed by a complete row, or an offset taken relative to its anchor
    /// does not fit in 32 bits.
    MalformedRow,
}

impl ParseError {
    /// A one-line description of the failure.
    pub fn message(&self) -> (out: &'static str)
        ensures
            out@ == match *self {
                ParseError::TooFewRows => "Error! Amount of table rows less 2"@,
                ParseError::UnrecognizedHeader => "Error! Invalid headers format"@,
                ParseError::MalformedRow => "Error! Invalid row format"@,
            },
    {
        match self {
            ParseError::TooFewRows => "Error! Amount of table rows less 2",
            ParseError::UnrecognizedHeader => "Error! Invalid headers format",
            ParseError::MalformedRow => "Error! Invalid row format",
        }
    }
}

} // verus!
