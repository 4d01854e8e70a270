//! What is written about a model beside the table itself: its rows laid out
//! as a table in Markdown, and the names of the files that belong to a
//! measurement.

use crate::frame::DataFrame;
use crate::model::all_complete;
use crate::row::DataRow;
use crate::text::{
    chars_of, decimal, decimal_nat, lemma_first_index, pieces, push_decimal, push_decimal_nat,
    ranges_within, split, split_ranges,
};
use vstd::prelude::*;
use vstd::string::*;

verus! {

/// `count` spaces.
pub open spec fn spaces(count: int) -> Seq<char> {
    Seq::new(
        if count > 0 {
            count as nat
        } else {
            0
        },
        |i: int| ' ',
    )
}

/// `text` behind as many spaces as bring it to `width` characters; `text`
/// itself where it is that long or longer.
pub open spec fn padded(text: Seq<char>, width: int) -> Seq<char> {
    spaces(width - text.len()) + text
}

/// Appends `text` to `out`, behind as many spaces as bring it to `width`
/// characters.
fn push_padded(out: &mut String, text: &str, width: usize)
    ensures
        final(out)@ == old(out)@ + padded(text@, width as int),
{
    let len: usize = text.unicode_len();
    let mut k: usize = len;
    proof {
        reveal_strlit(" ");
        assert(old(out)@ + spaces(0) == old(out)@);
    }
    while k < width
        invariant
            len <= k,
            len < width ==> k <= width,
            len >= width ==> k == len,
            out@ == old(out)@ + spaces(k - len),
        decreases width - k,
    {
        out.append(" ");
        proof {
            reveal_strlit(" ");
            assert(spaces(k - len) + " "@ == spaces(k + 1 - len));
            assert(out@ == old(out)@ + spaces(k + 1 - len));
        }
        k += 1;
    }
    out.append(text);
    assert(spaces(k - len) =~= spaces(width - len));
    assert(final(out)@ == old(out)@ + (spaces(width - len) + text@));
}

/// The cell of a value: a space, the value brought to three characters, a
/// space and a bar.
pub open spec fn value_cell(value: int) -> Seq<char> {
    seq![' '] + padded(decimal(value), 3) + seq![' ', '|']
}

/// The cell of a column number: two spaces, the number brought to two
/// characters, a space and a bar.
pub open spec fn index_cell(index: nat) -> Seq<char> {
    seq![' ', ' '] + padded(decimal_nat(index), 2) + seq![' ', '|']
}

/// The cell of the ruler: right-aligned.
pub open spec fn ruler_cell() -> Seq<char> {
    seq!['-', '-', '-', '-', ':', '|']
}

/// The cells of the first `n` column numbers.
pub open spec fn index_cells(n: nat) -> Seq<char>
    decreases n,
{
    if n == 0 {
        Seq::empty()
    } else {
        index_cells((n - 1) as nat) + index_cell((n - 1) as nat)
    }
}

/// `n` cells of the ruler.
pub open spec fn ruler_cells(n: nat) -> Seq<char>
    decreases n,
{
    if n == 0 {
        Seq::empty()
    } else {
        ruler_cells((n - 1) as nat) + ruler_cell()
    }
}

/// The cells of the values, in order.
pub open spec fn value_cells(values: Seq<int>) -> Seq<char>
    decreases values.len(),
{
    if values.len() == 0 {
        Seq::empty()
    } else {
        value_cells(values.drop_last()) + value_cell(values.last())
    }
}

/// The temperatures of complete rows.
pub open spec fn temps_of(rows: Seq<DataRow>) -> Seq<int> {
    Seq::new(rows.len(), |i: int| rows[i].temp->Some_0 as int)
}

/// The first offsets of complete rows.
pub open spec fn xs_of(rows: Seq<DataRow>) -> Seq<int> {
    Seq::new(rows.len(), |i: int| rows[i].x->Some_0 as int)
}

/// The second offsets of complete rows.
pub open spec fn ys_of(rows: Seq<DataRow>) -> Seq<int> {
    Seq::new(rows.len(), |i: int| rows[i].y->Some_0 as int)
}

/// The line break of the Markdown table.
pub open spec fn markdown_break() -> Seq<char> {
    seq!['\r', '\n']
}

/// The Markdown table of complete rows. Each row of the data is a column: a
/// line of column numbers, the ruler, and one line each for the
/// temperatures and the two offsets, every line closed by a line break.
pub open spec fn markdown_text(rows: Seq<DataRow>) -> Seq<char> {
    seq!['|', ' ', ' ', ' ', ' ', ' ', ' ', '|'] + index_cells(rows.len()) + markdown_break()
        + seq!['|', ':', '-', '-', '-', '-', '-', '|'] + ruler_cells(rows.len())
        + markdown_break() + seq!['|', ' ', 't', 'e', 'm', 'p', ' ', '|'] + value_cells(
        temps_of(rows),
    ) + markdown_break() + seq!['|', ' ', 'd', 'x', ' ', ' ', ' ', '|'] + value_cells(xs_of(rows))
        + markdown_break() + seq!['|', ' ', 'd', 'y', ' ', ' ', ' ', '|'] + value_cells(
        ys_of(rows),
    ) + markdown_break()
}

/// Appends the cell of a value to `out`.
fn push_value_cell(out: &mut String, value: i32)
    ensures
        final(out)@ == old(out)@ + value_cell(value as int),
{
    proof {
        reveal_strlit(" ");
        reveal_strlit(" |");
    }
    let mut number = String::new();
    push_decimal(&mut number, value);
    assert(number@ == decimal(value as int));
    out.append(" ");
    push_padded(out, number.as_str(), 3);
    out.append(" |");
    assert(" "@ == seq![' ']);
    assert(" |"@ == seq![' ', '|']);
    assert(final(out)@ == old(out)@ + value_cell(value as int));
}

/// Which of the three fields of a row a line of the table shows.
#[derive(Clone, Copy, Debug, PartialEq, Eq, Structural)]
enum Field {
    Temp,
    X,
    Y,
}

/// The values of one field of complete rows.
spec fn field_values(rows: Seq<DataRow>, field: Field) -> Seq<int> {
    match field {
        Field::Temp => temps_of(rows),
        Field::X => xs_of(rows),
        Field::Y => ys_of(rows),
    }
}

/// Appends the cells of one field of all rows to `out`.
fn push_value_cells(out: &mut String, rows: &Vec<DataRow>, field: Field)
    requires
        all_complete(rows@),
    ensures
        final(out)@ == old(out)@ + value_cells(field_values(rows@, field)),
{
    let ghost values = field_values(rows@, field);
    let mut i: usize = 0;
    assert(values.take(0) == Seq::<int>::empty());
    assert(old(out)@ + value_cells(values.take(0)) == old(out)@);
    while i < rows.len()
        invariant
            i <= rows.len(),
            all_complete(rows@),
            values == field_values(rows@, field),
            values.len() == rows.len(),
            out@ == old(out)@ + value_cells(values.take(i as int)),
        decreases rows.len() - i,
    {
        let row = rows[i];
        assert(rows@[i as int].is_complete_spec());
        let picked: Option<i32> = match field {
            Field::Temp => row.temp,
            Field::X => row.x,
            Field::Y => row.y,
        };
        let ghost before = out@;
        match picked {
            Some(value) => push_value_cell(out, value),
            None => {},
        }
        proof {
            let next = values.take(i + 1);
            assert(next.drop_last() == values.take(i as int));
            assert(next.last() == values[i as int]);
            assert(out@ == old(out)@ + (value_cells(values.take(i as int)) + value_cell(
                values[i as int],
            )));
        }
        i += 1;
    }
    assert(values.take(rows.len() as int) == values);
}

impl DataFrame {
    /// The rows as a table in Markdown, each row of the data a column.
    pub fn to_markdown(&self) -> (out: String)
        requires
            all_complete(self@),
        ensures
            out@ == markdown_text(self@),
    {
        proof {
            reveal_strlit("|      |");
            reveal_strlit("|:-----|");
            reveal_strlit("| temp |");
            reveal_strlit("| dx   |");
            reveal_strlit("| dy   |");
            reveal_strlit("\r\n");
        }
        let n: usize = self.rows.len();
        let mut out = String::from_str("|      |");
        assert(out@ =~= seq!['|', ' ', ' ', ' ', ' ', ' ', ' ', '|']);
        let ghost head = out@;
        let mut i: usize = 0;
        assert(head + index_cells(0) == head);
        while i < n
            invariant
                i <= n,
                out@ == head + index_cells(i as nat),
            decreases n - i,
        {
            proof {
                reveal_strlit("  ");
                reveal_strlit(" |");
            }
            let mut number = String::new();
            push_decimal_nat(&mut number, i as u64);
            assert(number@ == decimal_nat(i as nat));
            out.append("  ");
            push_padded(&mut out, number.as_str(), 2);
            out.append(" |");
            proof {
                assert("  "@ == seq![' ', ' ']);
                assert(" |"@ == seq![' ', '|']);
                assert(out@ == head + (index_cells(i as nat) + index_cell(i as nat)));
            }
            i += 1;
        }
        out.append("\r\n");
        out.append("|:-----|");
        assert("\r\n"@ =~= markdown_break());
        assert("|:-----|"@ =~= seq!['|', ':', '-', '-', '-', '-', '-', '|']);
        let ghost ruler = out@;
        let mut k: usize = 0;
        assert(ruler + ruler_cells(0) == ruler);
        while k < n
            invariant
                k <= n,
                out@ == ruler + ruler_cells(k as nat),
            decreases n - k,
        {
            proof {
                reveal_strlit("----:|");
            }
            out.append("----:|");
            proof {
                assert("----:|"@ =~= ruler_cell());
                assert(out@ == ruler + (ruler_cells(k as nat) + ruler_cell()));
            }
            k += 1;
        }
        out.append("\r\n");
        out.append("| temp |");
        assert("| temp |"@ =~= seq!['|', ' ', 't', 'e', 'm', 'p', ' ', '|']);
        push_value_cells(&mut out, &self.rows, Field::Temp);
        out.append("\r\n");
        out.append("| dx   |");
        assert("| dx   |"@ =~= seq!['|', ' ', 'd', 'x', ' ', ' ', ' ', '|']);
        push_value_cells(&mut out, &self.rows, Field::X);
        out.append("\r\n");
        out.append("| dy   |");
        assert("| dy   |"@ =~= seq!['|', ' ', 'd', 'y', ' ', ' ', ' ', '|']);
        push_value_cells(&mut out, &self.rows, Field::Y);
        out.append("\r\n");
        assert(out@ == markdown_text(self@));
        out
    }
}

/// The pieces, one behind the other.
pub open spec fn joined(parts: Seq<Seq<char>>) -> Seq<char>
    decreases parts.len(),
{
    if parts.len() == 0 {
        Seq::empty()
    } else {
        joined(parts.drop_last()) + parts.last()
    }
}

/// The name of a file that belongs to the measurement at `path`: the path
/// without what follows its last dot and without any of its dots, then
/// `suffix`.
pub open spec fn sibling_text(path: Seq<char>, suffix: Seq<char>) -> Seq<char> {
    joined(split(path, '.').drop_last()) + suffix
}

/// The name of a file that belongs to the measurement at `path`.
pub fn sibling_path(path: &str, suffix: &str) -> (out: String)
    ensures
        out@ == sibling_text(path@, suffix@),
{
    let chars = chars_of(path);
    assert(chars@.subrange(0, chars@.len() as int) == chars@);
    let ranges = split_ranges(&chars, 0, chars.len(), '.');
    let ghost parts = split(path@, '.');
    assert(ranges@.len() == pieces(chars@, ranges@).len());
    assert(parts.len() > 0) by {
        lemma_first_index(path@, '.');
    }
    let kept: usize = ranges.len() - 1;
    let mut out = String::new();
    let mut i: usize = 0;
    assert(parts.drop_last().take(0) == Seq::<Seq<char>>::empty());
    while i < kept
        invariant
            i <= kept == ranges.len() - 1,
            chars@ == path@,
            parts == pieces(chars@, ranges@),
            ranges_within(ranges@, 0, chars@.len() as int),
            out@ == joined(parts.drop_last().take(i as int)),
        decreases kept - i,
    {
        let piece = path.substring_char(ranges[i].0, ranges[i].1);
        out.append(piece);
        proof {
            let next = parts.drop_last().take(i + 1);
            assert(next.drop_last() == parts.drop_last().take(i as int));
            assert(next.last() == parts[i as int]);
            assert(piece@ == parts[i as int]);
        }
        i += 1;
    }
    assert(parts.drop_last().take(kept as int) == parts.drop_last());
    out.append(suffix);
    out
}

/// The name of the model file of a device: `tpk-k_`, the serial number, `_`,
/// the date as year, month and day with `-` between, `_`, the hour, `-`, the
/// minute, and `.ct`.
pub open spec fn model_file_text(
    serial: Seq<char>,
    year: int,
    month: nat,
    day: nat,
    hour: nat,
    minute: nat,
) -> Seq<char> {
    seq!['t', 'p', 'k', '-', 'k', '_'] + serial + seq!['_'] + decimal(year) + seq!['-']
        + decimal_nat(month) + seq!['-'] + decimal_nat(day) + seq!['_'] + decimal_nat(hour)
        + seq!['-'] + decimal_nat(minute) + seq!['.', 'c', 't']
}

/// The name of the model file of the device with the given serial number,
/// written at the given time.
pub fn model_file_name(serial: &str, year: i32, month: u32, day: u32, hour: u32, minute: u32) -> (out:
    String)
    ensures
        out@ == model_file_text(
            serial@,
            year as int,
            month as nat,
            day as nat,
            hour as nat,
            minute as nat,
        ),
{
    proof {
        reveal_strlit("tpk-k_");
        reveal_strlit("_");
        reveal_strlit("-");
        reveal_strlit(".ct");
    }
    let mut out = String::from_str("tpk-k_");
    assert(out@ =~= seq!['t', 'p', 'k', '-', 'k', '_']);
    out.append(serial);
    out.append("_");
    push_decimal(&mut out, year);
    out.append("-");
    push_decimal_nat(&mut out, month as u64);
    out.append("-");
    push_decimal_nat(&mut out, day as u64);
    out.append("_");
    push_decimal_nat(&mut out, hour as u64);
    out.append("-");
    push_decimal_nat(&mut out, minute as u64);
    out.append(".ct");
    assert("_"@ =~= seq!['_']);
    assert("-"@ =~= seq!['-']);
    assert(".ct"@ =~= seq!['.', 'c', 't']);
    out
}

/// The heading of a chart: the serial number, a space, and in brackets the
/// date as day, month and year with `.` between.
pub open spec fn chart_heading_text(serial: Seq<char>, day: nat, month: nat, year: int) -> Seq<
    char,
> {
    serial + seq![' ', '('] + decimal_nat(day) + seq!['.'] + decimal_nat(month) + seq!['.']
        + decimal(year) + seq![')']
}

/// The heading of the chart of the device with the given serial number,
/// drawn on the given day.
pub fn chart_heading(serial: &str, day: u32, month: u32, year: i32) -> (out: String)
    ensures
        out@ == chart_heading_text(serial@, day as nat, month as nat, year as int),
{
    proof {
        reveal_strlit(" (");
        reveal_strlit(".");
        reveal_strlit(")");
    }
    let mut out = String::from_str(serial);
    out.append(" (");
    push_decimal_nat(&mut out, day as u64);
    out.append(".");
    push_decimal_nat(&mut out, month as u64);
    out.append(".");
    push_decimal(&mut out, year);
    out.append(")");
    assert(" ("@ =~= seq![' ', '(']);
    assert("."@ =~= seq!['.']);
    assert(")"@ =~= seq![')']);
    out
}

} // verus!
