//! One record of a table: a temperature and two offsets, each of which may be
//! missing.

use crate::error::ParseError;
use crate::text::{
    chars_of, decimal, is_digit, lemma_parse_decimal, lemma_split_first, lemma_split_none,
    parse_i32, parse_i32_range, pieces, push_decimal, split, split_ranges,
};
use vstd::prelude::*;
use vstd::string::*;

verus! {

/// A record of a table. A missing field is written `nan` in text.
#[derive(Clone, Copy, Debug, PartialEq, Eq, Structural)]
pub struct DataRow {
    pub temp: Option<i32>,
    pub x: Option<i32>,
    pub y: Option<i32>,
}

impl Default for DataRow {
    /// The row with every field missing.
    fn default() -> (out: Self)
        ensures
            out == DataRow::anchor(),
    {
        DataRow { temp: None, x: None, y: None }
    }
}

/// The row that `line` denotes: three fields separated by `;`, each an
/// integer or, where it does not read as one, missing. `None` where `line`
/// does not have exactly three fields.
pub open spec fn parse_row(line: Seq<char>) -> Option<DataRow> {
    let fields = split(line, ';');
    if fields.len() == 3 {
        Some(
            DataRow {
                temp: parse_i32(fields[0]),
                x: parse_i32(fields[1]),
                y: parse_i32(fields[2]),
            },
        )
    } else {
        None
    }
}

/// The text of one field: its decimal digits, or `nan` where it is missing.
pub open spec fn format_field(field: Option<i32>) -> Seq<char> {
    match field {
        Some(value) => decimal(value as int),
        None => seq!['n', 'a', 'n'],
    }
}

/// The text of a row: its three fields, separated by `;`.
pub open spec fn format_row(row: DataRow) -> Seq<char> {
    format_field(row.temp) + seq![';'] + format_field(row.x) + seq![';'] + format_field(row.y)
}

/// Appends the text of one field to `out`.
pub fn push_field(out: &mut String, field: Option<i32>)
    ensures
        final(out)@ == old(out)@ + format_field(field),
{
    match field {
        Some(value) => push_decimal(out, value),
        None => {
            proof {
                reveal_strlit("nan");
            }
            out.append("nan");
            assert("nan"@ == seq!['n', 'a', 'n']);
        },
    }
}

/// Whether `c` can occur in the text of a field: a digit, `-`, or a letter of
/// `nan`.
pub open spec fn is_field_char(c: char) -> bool {
    is_digit(c) || c == '-' || c == 'n' || c == 'a'
}

/// The text of a field reads back as the field; it is not empty, holds
/// nothing but field characters, and ends in a digit or in `n`.
pub proof fn lemma_field_round_trip(field: Option<i32>)
    ensures
        parse_i32(format_field(field)) == field,
        format_field(field).len() > 0,
        forall|i: int|
            0 <= i < format_field(field).len() ==> is_field_char(#[trigger] format_field(field)[i]),
        is_digit(format_field(field).last()) || format_field(field).last() == 'n',
{
    match field {
        Some(value) => {
            lemma_parse_decimal(value as int);
        },
        None => {
            let s = format_field(field);
            assert(!is_digit(s[0]));
        },
    }
}

/// The text of a row reads back as the row; it is not empty and holds no
/// line feed.
pub proof fn lemma_row_round_trip(row: DataRow)
    ensures
        parse_row(format_row(row)) == Some(row),
        format_row(row).len() > 0,
        forall|i: int| 0 <= i < format_row(row).len() ==> format_row(row)[i] != '\n',
        format_row(row).last() != '\n',
{
    let t = format_field(row.temp);
    let x = format_field(row.x);
    let y = format_field(row.y);
    lemma_field_round_trip(row.temp);
    lemma_field_round_trip(row.x);
    lemma_field_round_trip(row.y);
    let tail = x + seq![';'] + y;
    let s = format_row(row);
    assert(s == t + seq![';'] + tail);
    assert forall|i: int| 0 <= i < t.len() implies t[i] != ';' by {
        assert(is_field_char(t[i]));
    }
    assert forall|i: int| 0 <= i < x.len() implies x[i] != ';' by {
        assert(is_field_char(x[i]));
    }
    assert forall|i: int| 0 <= i < y.len() implies y[i] != ';' by {
        assert(is_field_char(y[i]));
    }
    lemma_split_first(t, tail, ';');
    lemma_split_first(x, y, ';');
    lemma_split_none(y, ';');
    assert(split(s, ';') == seq![t, x, y]);
    assert forall|i: int| 0 <= i < s.len() implies s[i] != '\n' by {
        if i < t.len() {
            assert(is_field_char(t[i]));
        } else if i == t.len() {
        } else if i < t.len() + 1 + x.len() {
            assert(s[i] == x[i - t.len() - 1]);
            assert(is_field_char(x[i - t.len() - 1]));
        } else if i == t.len() + 1 + x.len() {
        } else {
            assert(s[i] == y[i - t.len() - x.len() - 2]);
            assert(is_field_char(y[i - t.len() - x.len() - 2]));
        }
    }
}

impl DataRow {
    /// The row with every field missing, which marks the start of a segment in
    /// a table of absolute offsets.
    pub open spec fn anchor() -> DataRow {
        DataRow { temp: None, x: None, y: None }
    }

    /// Whether every field is missing.
    pub open spec fn is_anchor_spec(self) -> bool {
        self == DataRow::anchor()
    }

    /// Whether no field is missing.
    pub open spec fn is_complete_spec(self) -> bool {
        self.temp is Some && self.x is Some && self.y is Some
    }

    /// Whether every field is missing.
    #[verifier::when_used_as_spec(is_anchor_spec)]
    pub fn is_anchor(self) -> (out: bool)
        ensures
            out == self.is_anchor_spec(),
    {
        self.temp.is_none() && self.x.is_none() && self.y.is_none()
    }

    /// Whether no field is missing.
    #[verifier::when_used_as_spec(is_complete_spec)]
    pub fn is_complete(self) -> (out: bool)
        ensures
            out == self.is_complete_spec(),
    {
        self.temp.is_some() && self.x.is_some() && self.y.is_some()
    }

    /// Reads the row between `lo` and `hi` of `s`.
    pub fn from_chars(s: &Vec<char>, lo: usize, hi: usize) -> (out: Result<DataRow, ParseError>)
        requires
            lo <= hi <= s.len(),
        ensures
            out == match parse_row(s@.subrange(lo as int, hi as int)) {
                Some(row) => Ok::<DataRow, ParseError>(row),
                None => Err(ParseError::MalformedRow),
            },
    {
        let fields = split_ranges(s, lo, hi, ';');
        let ghost spec_fields = split(s@.subrange(lo as int, hi as int), ';');
        assert(fields@.len() == pieces(s@, fields@).len());
        if fields.len() != 3 {
            return Err(ParseError::MalformedRow);
        }
        assert(pieces(s@, fields@)[0] == spec_fields[0]);
        assert(pieces(s@, fields@)[1] == spec_fields[1]);
        assert(pieces(s@, fields@)[2] == spec_fields[2]);
        let temp = parse_i32_range(s, fields[0].0, fields[0].1);
        let x = parse_i32_range(s, fields[1].0, fields[1].1);
        let y = parse_i32_range(s, fields[2].0, fields[2].1);
        Ok(DataRow { temp, x, y })
    }

    /// Reads a row from a line of text: `Ok` with the row where the line has
    /// exactly three fields, `MalformedRow` where it has not.
    pub fn from_str(string: &str) -> (out: Result<DataRow, ParseError>)
        ensures
            out == match parse_row(string@) {
                Some(row) => Ok::<DataRow, ParseError>(row),
                None => Err(ParseError::MalformedRow),
            },
    {
        let chars = chars_of(string);
        assert(chars@.subrange(0, chars@.len() as int) == chars@);
        DataRow::from_chars(&chars, 0, chars.len())
    }

    /// Appends the text of the row to `out`.
    pub fn push_to(&self, out: &mut String)
        ensures
            final(out)@ == old(out)@ + format_row(*self),
    {
        proof {
            reveal_strlit(";");
        }
        push_field(out, self.temp);
        out.append(";");
        push_field(out, self.x);
        out.append(";");
        push_field(out, self.y);
        assert(";"@ == seq![';']);
        assert(final(out)@ == old(out)@ + format_row(*self));
    }

    /// The text of the row.
    pub fn to_string(&self) -> (out: String)
        ensures
            out@ == format_row(*self),
    {
        let mut out = String::new();
        self.push_to(&mut out);
        out
    }
}

} // verus!
