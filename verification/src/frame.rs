//! A table of rows: reading it from text, turning absolute offsets into
//! offsets relative to the anchors of their segments, and writing it back.

use crate::error::ParseError;
use crate::order::{
    canonical, deduped_rows, lemma_dedup, lemma_dedup_of_distinct, lemma_filter_all,
    lemma_sort_of_sorted, lemma_sort_sorted, lemma_sort_stable, no_adjacent_repeats,
    sort_by_temp, sorted_by_temp, sorted_rows, temp_key,
};
use crate::row::{format_row, lemma_row_round_trip, parse_row, DataRow};
use crate::text::{
    chars_of, lemma_lines_append, lemma_lines_single, line_ranges, lines, pieces, range_is,
    ranges_within,
};
use vstd::prelude::*;
use vstd::string::*;

verus! {

/// A table: its rows, in order.
#[derive(Debug)]
pub struct DataFrame {
    pub rows: Vec<DataRow>,
}

impl Default for DataFrame {
    /// The table without rows.
    fn default() -> (out: Self)
        ensures
            out@ == Seq::<DataRow>::empty(),
    {
        DataFrame { rows: Vec::new() }
    }
}

impl View for DataFrame {
    type V = Seq<DataRow>;

    open spec fn view(&self) -> Seq<DataRow> {
        self.rows@
    }
}

/// The header of a table of relative offsets: `temp;dx;dy`.
pub open spec fn dif_header() -> Seq<char> {
    seq!['t', 'e', 'm', 'p', ';', 'd', 'x', ';', 'd', 'y']
}

/// The header of a table of absolute offsets: `temp;x;y`.
pub open spec fn abs_header() -> Seq<char> {
    seq!['t', 'e', 'm', 'p', ';', 'x', ';', 'y']
}

/// The text that stands for a table without rows: `<nil>`.
pub open spec fn nil_text() -> Seq<char> {
    seq!['<', 'n', 'i', 'l', '>']
}

/// The line terminator that is written: a carriage return and a line feed.
pub open spec fn line_break() -> Seq<char> {
    seq!['\r', '\n']
}

/// The rows that are no anchors, in order.
pub open spec fn data_rows(rows: Seq<DataRow>) -> Seq<DataRow> {
    rows.filter(|r: DataRow| !r.is_anchor_spec())
}

/// Whether every line after the first reads as a row.
pub open spec fn rows_well_formed(ls: Seq<Seq<char>>) -> bool {
    forall|i: int| 1 <= i < ls.len() ==> parse_row(#[trigger] ls[i]) is Some
}

/// The rows that the lines after the first denote.
pub open spec fn parsed_rows(ls: Seq<Seq<char>>) -> Seq<DataRow> {
    Seq::new((ls.len() - 1) as nat, |i: int| parse_row(ls[i + 1])->Some_0)
}

/// The table that `text` denotes, or why it denotes none. The first line is
/// the header, every further line a row. Under the header of relative offsets
/// the table holds the rows that are no anchors; under that of absolute
/// offsets it holds the rows taken relative to their anchors. Either way they
/// are in canonical order.
pub open spec fn parse_table(text: Seq<char>) -> Result<Seq<DataRow>, ParseError> {
    let ls = lines(text);
    if ls.len() < 2 {
        Err(ParseError::TooFewRows)
    } else if ls[0] != dif_header() && ls[0] != abs_header() {
        Err(ParseError::UnrecognizedHeader)
    } else if !rows_well_formed(ls) {
        Err(ParseError::MalformedRow)
    } else if ls[0] == dif_header() {
        Ok(canonical(data_rows(parsed_rows(ls))))
    } else if rebasable(parsed_rows(ls)) {
        Ok(canonical(rebased(parsed_rows(ls), parsed_rows(ls).len() as int)))
    } else {
        Err(ParseError::MalformedRow)
    }
}

/// The text of the rows, each behind a line break.
pub open spec fn rows_text(rows: Seq<DataRow>) -> Seq<char>
    decreases rows.len(),
{
    if rows.len() == 0 {
        Seq::empty()
    } else {
        rows_text(rows.drop_last()) + line_break() + format_row(rows.last())
    }
}

/// The text of a table: the header of relative offsets, then one line for
/// each row, with a line break between lines and none at the end. A table
/// without rows is written `<nil>`.
pub open spec fn format_table(rows: Seq<DataRow>) -> Seq<char> {
    if rows.len() == 0 {
        nil_text()
    } else {
        dif_header() + rows_text(rows)
    }
}

/// The rows that are no anchors, in order.
pub fn without_anchors(rows: &Vec<DataRow>) -> (out: Vec<DataRow>)
    ensures
        out@ == data_rows(rows@),
{
    let mut out: Vec<DataRow> = Vec::new();
    let mut i: usize = 0;
    while i < rows.len()
        invariant
            i <= rows.len(),
            out@ == data_rows(rows@.take(i as int)),
        decreases rows.len() - i,
    {
        proof {
            reveal(Seq::filter);
            assert(rows@.take(i + 1).drop_last() == rows@.take(i as int));
        }
        if !rows[i].is_anchor() {
            out.push(rows[i]);
        }
        i += 1;
    }
    assert(rows@.take(rows.len() as int) == rows@);
    out
}

/// The value of a field, zero where it is missing.
pub open spec fn field_or_zero(field: Option<i32>) -> int {
    match field {
        Some(v) => v as int,
        None => 0,
    }
}

/// The offsets that count as zero after the first `n` rows have been read:
/// those of the row that follows the last anchor among them, or `(0, 0)`
/// where there was no anchor yet.
pub open spec fn baseline(rows: Seq<DataRow>, n: int) -> (int, int)
    decreases n,
{
    if n <= 0 {
        (0, 0)
    } else if rows[n - 1].is_anchor_spec() {
        (field_or_zero(rows[n].x), field_or_zero(rows[n].y))
    } else {
        baseline(rows, n - 1)
    }
}

/// Whether `v` is a 32-bit integer.
pub open spec fn fits_i32(v: int) -> bool {
    i32::MIN <= v <= i32::MAX
}

/// Whether row `i` can be taken relative to its anchor: it is an anchor that a
/// complete row follows, or it is complete and its offsets from the baseline
/// in force fit in 32 bits.
pub open spec fn row_rebasable(rows: Seq<DataRow>, i: int) -> bool {
    if rows[i].is_anchor_spec() {
        i + 1 < rows.len() && rows[i + 1].is_complete_spec()
    } else {
        &&& rows[i].is_complete_spec()
        &&& fits_i32(field_or_zero(rows[i].x) - baseline(rows, i).0)
        &&& fits_i32(field_or_zero(rows[i].y) - baseline(rows, i).1)
    }
}

/// Whether every row can be taken relative to its anchor.
pub open spec fn rebasable(rows: Seq<DataRow>) -> bool {
    forall|i: int| 0 <= i < rows.len() ==> row_rebasable(rows, i)
}

/// Row `i` with its offsets taken relative to the baseline in force.
pub open spec fn shifted(rows: Seq<DataRow>, i: int) -> DataRow {
    DataRow {
        temp: rows[i].temp,
        x: Some((field_or_zero(rows[i].x) - baseline(rows, i).0) as i32),
        y: Some((field_or_zero(rows[i].y) - baseline(rows, i).1) as i32),
    }
}

/// The relative rows that the first `n` rows give, in order: anchors give
/// none, every other row gives one.
pub open spec fn rebased(rows: Seq<DataRow>, n: int) -> Seq<DataRow>
    decreases n,
{
    if n <= 0 {
        Seq::empty()
    } else if rows[n - 1].is_anchor_spec() {
        rebased(rows, n - 1)
    } else {
        rebased(rows, n - 1).push(shifted(rows, n - 1))
    }
}

/// Whether the rows are those of a finished table: in ascending order of
/// temperature, no row directly repeated, and no anchor among them.
pub open spec fn is_canonical(rows: Seq<DataRow>) -> bool {
    &&& sorted_by_temp(rows)
    &&& no_adjacent_repeats(rows)
    &&& forall|i: int| 0 <= i < rows.len() ==> !(#[trigger] rows[i]).is_anchor_spec()
}

/// The canonical arrangement of rows among which there is no anchor is that of
/// a finished table.
pub proof fn lemma_canonical_is_canonical(rows: Seq<DataRow>)
    requires
        forall|i: int| 0 <= i < rows.len() ==> !(#[trigger] rows[i]).is_anchor_spec(),
    ensures
        is_canonical(canonical(rows)),
{
    let sorted = sort_by_temp(rows);
    lemma_sort_sorted(rows);
    lemma_dedup(sorted);
    let out = canonical(rows);
    assert forall|i: int| 0 <= i < out.len() implies !(#[trigger] out[i]).is_anchor_spec() by {
        assert(sorted.contains(out[i]));
        let k = choose|k: int| 0 <= k < sorted.len() && sorted[k] == out[i];
        let key = temp_key(out[i]);
        lemma_sort_stable(rows, key);
        let pick = |r: DataRow| temp_key(r) == key;
        sorted.lemma_filter_contains(pick, k);
        rows.lemma_filter_contains_rev(pick, out[i]);
        let j = choose|j: int| 0 <= j < rows.len() && rows[j] == out[i];
        assert(!rows[j].is_anchor_spec());
    }
}

/// No rebased row is an anchor.
pub proof fn lemma_rebased_no_anchor(rows: Seq<DataRow>, n: int)
    ensures
        forall|i: int| 0 <= i < rebased(rows, n).len() ==> !(#[trigger] rebased(rows, n)[i]).is_anchor_spec(),
    decreases n,
{
    if n > 0 {
        lemma_rebased_no_anchor(rows, n - 1);
        let out = rebased(rows, n);
        let init = rebased(rows, n - 1);
        assert forall|i: int| 0 <= i < out.len() implies !(#[trigger] out[i]).is_anchor_spec() by {
            if i < init.len() {
                assert(out[i] == init[i]);
            } else {
                assert(out[i] == shifted(rows, n - 1));
            }
        }
    }
}

/// The texts of the rows, in order.
pub open spec fn row_texts(rows: Seq<DataRow>) -> Seq<Seq<char>> {
    Seq::new(rows.len(), |i: int| format_row(rows[i]))
}

/// The lines of the header followed by the text of the rows are the header
/// and then the text of each row.
pub proof fn lemma_lines_of_table(rows: Seq<DataRow>)
    ensures
        lines(dif_header() + rows_text(rows)) == seq![dif_header()] + row_texts(rows),
        (dif_header() + rows_text(rows)).len() > 0,
        (dif_header() + rows_text(rows)).last() != '\n',
    decreases rows.len(),
{
    let header = dif_header();
    if rows.len() == 0 {
        assert(header + rows_text(rows) == header);
        lemma_lines_single(header);
        assert(seq![header] + row_texts(rows) == seq![header]);
    } else {
        let init = rows.drop_last();
        let last = format_row(rows.last());
        let t = header + rows_text(init);
        lemma_lines_of_table(init);
        lemma_row_round_trip(rows.last());
        assert(header + rows_text(rows) == t + seq!['\r', '\n'] + last);
        lemma_lines_append(t, last);
        assert((seq![header] + row_texts(init)).push(last) == seq![header] + row_texts(rows));
    }
}

/// Writing a finished table that holds a row and reading the text back gives
/// the table again.
pub proof fn lemma_write_then_read(rows: Seq<DataRow>)
    requires
        is_canonical(rows),
        rows.len() > 0,
    ensures
        parse_table(format_table(rows)) == Ok::<Seq<DataRow>, ParseError>(rows),
{
    let ls = lines(format_table(rows));
    lemma_lines_of_table(rows);
    assert(ls[0] == dif_header());
    assert forall|i: int| 1 <= i < ls.len() implies parse_row(#[trigger] ls[i]) == Some(
        rows[i - 1],
    ) by {
        assert(ls[i] == format_row(rows[i - 1]));
        lemma_row_round_trip(rows[i - 1]);
    }
    assert(parsed_rows(ls) == rows);
    lemma_filter_all(rows, |r: DataRow| !r.is_anchor_spec());
    lemma_sort_of_sorted(rows);
    lemma_dedup_of_distinct(rows);
}

/// Reading a table of relative offsets and writing it gives the header and
/// then the rows that were read, anchors left out, in canonical order,
/// provided a row is left.
pub proof fn lemma_read_then_write(text: Seq<char>)
    requires
        parse_table(text) is Ok,
        lines(text)[0] == dif_header(),
        parse_table(text)->Ok_0.len() > 0,
    ensures
        lines(format_table(parse_table(text)->Ok_0)) == seq![dif_header()] + row_texts(
            canonical(data_rows(parsed_rows(lines(text)))),
        ),
{
    lemma_lines_of_table(parse_table(text)->Ok_0);
}

/// Every table that is read is a finished table.
pub proof fn lemma_read_is_canonical(text: Seq<char>)
    requires
        parse_table(text) is Ok,
    ensures
        is_canonical(parse_table(text)->Ok_0),
{
    let ls = lines(text);
    let rows = parsed_rows(ls);
    if ls[0] == dif_header() {
        let kept = data_rows(rows);
        assert forall|k: int| 0 <= k < kept.len() implies !(#[trigger] kept[k]).is_anchor_spec() by {
            rows.lemma_filter_pred(|r: DataRow| !r.is_anchor_spec(), k);
        }
        lemma_canonical_is_canonical(kept);
    } else {
        lemma_rebased_no_anchor(rows, rows.len() as int);
        lemma_canonical_is_canonical(rebased(rows, rows.len() as int));
    }
}

/// Reading a text, writing the table and reading that text gives the same
/// table as the first reading, provided the table holds a row.
pub proof fn lemma_read_write_read(text: Seq<char>)
    requires
        parse_table(text) is Ok,
        parse_table(text)->Ok_0.len() > 0,
    ensures
        parse_table(format_table(parse_table(text)->Ok_0)) == parse_table(text),
{
    lemma_read_is_canonical(text);
    lemma_write_then_read(parse_table(text)->Ok_0);
}

impl DataFrame {
    /// Brings the rows into canonical order: ascending by temperature, rows of
    /// equal temperature in their old order, and no row directly repeated.
    pub fn sort(&mut self)
        ensures
            final(self)@ == canonical(old(self)@),
            sorted_by_temp(final(self)@),
            no_adjacent_repeats(final(self)@),
    {
        let sorted = sorted_rows(&self.rows);
        proof {
            lemma_dedup(sorted@);
        }
        self.rows = deduped_rows(&sorted);
    }

    /// Reads a table from text.
    ///
    /// Fails with `TooFewRows` where the text has fewer than two lines, with
    /// `UnrecognizedHeader` where its first line is neither `temp;x;y` nor
    /// `temp;dx;dy`, and with `MalformedRow` where a further line does not
    /// have three fields or, under `temp;x;y`, the rows cannot be taken
    /// relative to their anchors. The checks are made in this order.
    pub fn from_str(table: &str) -> (out: Result<DataFrame, ParseError>)
        ensures
            out is Ok <==> parse_table(table@) is Ok,
            out is Ok ==> out->Ok_0@ == parse_table(table@)->Ok_0,
            out is Ok ==> is_canonical(out->Ok_0@),
            out is Err ==> out->Err_0 == parse_table(table@)->Err_0,
    {
        let chars = chars_of(table);
        let ranges = line_ranges(&chars);
        let ghost ls = lines(table@);
        assert(ranges@.len() == pieces(chars@, ranges@).len());
        if ranges.len() < 2 {
            return Err(ParseError::TooFewRows);
        }
        assert(pieces(chars@, ranges@)[0] == ls[0]);
        proof {
            reveal_strlit("temp;dx;dy");
            reveal_strlit("temp;x;y");
        }
        let dif_pattern = chars_of("temp;dx;dy");
        let abs_pattern = chars_of("temp;x;y");
        assert(dif_pattern@ =~= dif_header());
        assert(abs_pattern@ =~= abs_header());
        let diff: bool = range_is(&chars, ranges[0].0, ranges[0].1, &dif_pattern);
        if !diff && !range_is(&chars, ranges[0].0, ranges[0].1, &abs_pattern) {
            return Err(ParseError::UnrecognizedHeader);
        }
        let mut item = DataFrame { rows: Vec::new() };
        let mut i: usize = 1;
        while i < ranges.len()
            invariant
                1 <= i <= ranges.len(),
                ranges@.len() == ls.len(),
                ls == lines(table@),
                ls[0] == dif_header() || ls[0] == abs_header(),
                pieces(chars@, ranges@) == ls,
                ranges_within(ranges@, 0, chars@.len() as int),
                item@.len() == i - 1,
                forall|k: int| 1 <= k < i ==> parse_row(#[trigger] ls[k]) is Some,
                forall|k: int| 0 <= k < i - 1 ==> item@[k] == parse_row(ls[k + 1])->Some_0,
            decreases ranges.len() - i,
        {
            assert(pieces(chars@, ranges@)[i as int] == ls[i as int]);
            match DataRow::from_chars(&chars, ranges[i].0, ranges[i].1) {
                Ok(row) => item.rows.push(row),
                Err(e) => {
                    assert(!rows_well_formed(ls));
                    return Err(e);
                },
            }
            i += 1;
        }
        assert(item@ =~= parsed_rows(ls));
        if diff {
            item.rows = without_anchors(&item.rows);
            proof {
                let kept = data_rows(parsed_rows(ls));
                assert forall|k: int| 0 <= k < kept.len() implies !(#[trigger] kept[k]).is_anchor_spec() by {
                    parsed_rows(ls).lemma_filter_pred(|r: DataRow| !r.is_anchor_spec(), k);
                }
                lemma_canonical_is_canonical(kept);
            }
            item.sort();
            Ok(item)
        } else {
            item.to_dif()
        }
    }

    /// The text of the table.
    pub fn to_string(&self) -> (out: String)
        ensures
            out@ == format_table(self@),
    {
        proof {
            reveal_strlit("<nil>");
            reveal_strlit("temp;dx;dy");
            reveal_strlit("\r\n");
        }
        if self.rows.len() == 0 {
            let out = String::from_str("<nil>");
            assert(out@ =~= nil_text());
            return out;
        }
        let mut out = String::from_str("temp;dx;dy");
        assert(out@ =~= dif_header());
        assert(rows_text(self@.take(0)) =~= Seq::<char>::empty());
        let mut i: usize = 0;
        while i < self.rows.len()
            invariant
                i <= self.rows.len(),
                out@ == dif_header() + rows_text(self@.take(i as int)),
            decreases self.rows.len() - i,
        {
            out.append("\r\n");
            self.rows[i].push_to(&mut out);
            proof {
                reveal_strlit("\r\n");
                assert("\r\n"@ =~= line_break());
                assert(self@.take(i + 1).drop_last() == self@.take(i as int));
                assert(out@ =~= dif_header() + rows_text(self@.take(i + 1)));
            }
            i += 1;
        }
        assert(self@.take(self.rows.len() as int) == self@);
        out
    }

    /// Turns a table of absolute offsets into one of offsets relative to the
    /// anchors. An anchor, a row with every field missing, opens a segment:
    /// the offsets of the row after it count as zero for the rows that follow,
    /// up to the next anchor; before the first anchor zero is zero. The result
    /// holds one row for each row that is no anchor, in canonical order.
    ///
    /// Fails with `MalformedRow` where a row is neither complete nor an anchor,
    /// where no complete row follows an anchor, or where a relative offset
    /// does not fit in 32 bits.
    pub fn to_dif(&self) -> (out: Result<DataFrame, ParseError>)
        ensures
            out is Ok <==> rebasable(self@),
            out is Ok ==> out->Ok_0@ == canonical(rebased(self@, self@.len() as int)),
            out is Ok ==> is_canonical(out->Ok_0@),
            out is Err ==> out->Err_0 == ParseError::MalformedRow,
    {
        let mut item = DataFrame { rows: Vec::new() };
        let mut x0: i32 = 0;
        let mut y0: i32 = 0;
        let n: usize = self.rows.len();
        let mut i: usize = 0;
        while i < n
            invariant
                i <= n == self.rows.len(),
                (x0 as int, y0 as int) == baseline(self@, i as int),
                item@ == rebased(self@, i as int),
                forall|j: int| 0 <= j < i ==> row_rebasable(self@, j),
            decreases n - i,
        {
            let row = self.rows[i];
            if row.is_anchor() {
                if i + 1 >= n {
                    assert(!row_rebasable(self@, i as int));
                    return Err(ParseError::MalformedRow);
                }
                let next = self.rows[i + 1];
                match (next.temp, next.x, next.y) {
                    (Some(_), Some(x), Some(y)) => {
                        x0 = x;
                        y0 = y;
                    },
                    _ => {
                        assert(!row_rebasable(self@, i as int));
                        return Err(ParseError::MalformedRow);
                    },
                }
            } else {
                match (row.temp, row.x, row.y) {
                    (Some(temp), Some(x), Some(y)) => {
                        let dx: i64 = x as i64 - x0 as i64;
                        let dy: i64 = y as i64 - y0 as i64;
                        if dx < i32::MIN as i64 || dx > i32::MAX as i64 || dy < i32::MIN as i64
                            || dy > i32::MAX as i64 {
                            assert(!row_rebasable(self@, i as int));
                            return Err(ParseError::MalformedRow);
                        }
                        item.rows.push(
                            DataRow { temp: Some(temp), x: Some(dx as i32), y: Some(dy as i32) },
                        );
                    },
                    _ => {
                        assert(!row_rebasable(self@, i as int));
                        return Err(ParseError::MalformedRow);
                    },
                }
            }
            i += 1;
        }
        proof {
            lemma_rebased_no_anchor(self@, n as int);
            lemma_canonical_is_canonical(rebased(self@, n as int));
        }
        item.sort();
        Ok(item)
    }
}

} // verus!
