//! The canonical order of a table's rows: ascending by temperature, rows of
//! equal temperature in the order in which they came, and no row directly
//! repeated.

use crate::row::DataRow;
use vstd::prelude::*;

verus! {

/// The number by which a row is ordered: its temperature, or one less than the
/// least temperature where it has none, so that such rows come first.
pub open spec fn temp_key(row: DataRow) -> int {
    match row.temp {
        Some(t) => t as int,
        None => i32::MIN as int - 1,
    }
}

/// Whether the rows are in ascending order of temperature.
pub open spec fn sorted_by_temp(rows: Seq<DataRow>) -> bool {
    forall|i: int, j: int| 0 <= i <= j < rows.len() ==> temp_key(rows[i]) <= temp_key(rows[j])
}

/// Whether no row equals the one directly before it.
pub open spec fn no_adjacent_repeats(rows: Seq<DataRow>) -> bool {
    forall|i: int| 0 < i < rows.len() ==> rows[i - 1] != #[trigger] rows[i]
}

/// The rows whose key is `key`, in their order in `rows`.
pub open spec fn rows_with_key(rows: Seq<DataRow>, key: int) -> Seq<DataRow> {
    rows.filter(|r: DataRow| temp_key(r) == key)
}

/// `rows` with `row` put in behind every row that is not ordered after it.
pub open spec fn insert_by_temp(rows: Seq<DataRow>, row: DataRow) -> Seq<DataRow> {
    rows.filter(|r: DataRow| temp_key(r) <= temp_key(row)).push(row) + rows.filter(
        |r: DataRow| temp_key(r) > temp_key(row),
    )
}

/// The rows in ascending order of temperature; rows of equal temperature keep
/// their order.
pub open spec fn sort_by_temp(rows: Seq<DataRow>) -> Seq<DataRow>
    decreases rows.len(),
{
    if rows.len() == 0 {
        rows
    } else {
        insert_by_temp(sort_by_temp(rows.drop_last()), rows.last())
    }
}

/// The rows without those that equal the row directly before them.
pub open spec fn dedup(rows: Seq<DataRow>) -> Seq<DataRow>
    decreases rows.len(),
{
    if rows.len() == 0 {
        rows
    } else if rows.len() >= 2 && rows[rows.len() - 1] == rows[rows.len() - 2] {
        dedup(rows.drop_last())
    } else {
        dedup(rows.drop_last()).push(rows.last())
    }
}

/// The canonical arrangement of `rows`: sorted by temperature, then without
/// direct repeats.
pub open spec fn canonical(rows: Seq<DataRow>) -> Seq<DataRow> {
    dedup(sort_by_temp(rows))
}

/// Filtering keeps a sequence whose elements all pass.
pub proof fn lemma_filter_all(rows: Seq<DataRow>, pred: spec_fn(DataRow) -> bool)
    requires
        forall|i: int| 0 <= i < rows.len() ==> pred(rows[i]),
    ensures
        rows.filter(pred) == rows,
    decreases rows.len(),
{
    reveal(Seq::filter);
    if rows.len() > 0 {
        lemma_filter_all(rows.drop_last(), pred);
        assert(rows.drop_last().push(rows.last()) == rows);
    }
}

/// Filtering empties a sequence none of whose elements pass.
pub proof fn lemma_filter_none(rows: Seq<DataRow>, pred: spec_fn(DataRow) -> bool)
    requires
        forall|i: int| 0 <= i < rows.len() ==> !pred(rows[i]),
    ensures
        rows.filter(pred) == Seq::<DataRow>::empty(),
    decreases rows.len(),
{
    reveal(Seq::filter);
    if rows.len() > 0 {
        lemma_filter_none(rows.drop_last(), pred);
    }
}

/// In sorted rows, putting `row` in by temperature is an insertion at the
/// position that parts the rows not ordered after it from the rest, and leaves
/// the rows sorted.
pub proof fn lemma_insert_sorted(rows: Seq<DataRow>, row: DataRow, at: int)
    requires
        sorted_by_temp(rows),
        0 <= at <= rows.len(),
        forall|i: int| 0 <= i < at ==> temp_key(rows[i]) <= temp_key(row),
        forall|i: int| at <= i < rows.len() ==> temp_key(rows[i]) > temp_key(row),
    ensures
        insert_by_temp(rows, row) == rows.insert(at, row),
        sorted_by_temp(rows.insert(at, row)),
{
    let le = |r: DataRow| temp_key(r) <= temp_key(row);
    let gt = |r: DataRow| temp_key(r) > temp_key(row);
    let head = rows.take(at);
    let tail = rows.skip(at);
    assert(rows == head + tail);
    Seq::filter_distributes_over_add(head, tail, le);
    Seq::filter_distributes_over_add(head, tail, gt);
    lemma_filter_all(head, le);
    lemma_filter_none(tail, le);
    lemma_filter_none(head, gt);
    lemma_filter_all(tail, gt);
    assert(rows.filter(le) == head);
    assert(rows.filter(gt) == tail);
    assert(head.push(row) + tail == rows.insert(at, row));
    let out = rows.insert(at, row);
    assert forall|i: int, j: int| 0 <= i <= j < out.len() implies temp_key(out[i]) <= temp_key(
        out[j],
    ) by {
        if i < at && j > at {
            assert(out[i] == rows[i] && out[j] == rows[j - 1]);
        } else if i < at && j < at {
            assert(out[i] == rows[i] && out[j] == rows[j]);
        } else if i > at {
            assert(out[i] == rows[i - 1] && out[j] == rows[j - 1]);
        }
    }
}

/// Sorting yields rows in ascending order of temperature.
pub proof fn lemma_sort_sorted(rows: Seq<DataRow>)
    ensures
        sorted_by_temp(sort_by_temp(rows)),
        sort_by_temp(rows).len() == rows.len(),
    decreases rows.len(),
{
    if rows.len() > 0 {
        let init = sort_by_temp(rows.drop_last());
        let row = rows.last();
        lemma_sort_sorted(rows.drop_last());
        let at = split_point(init, row);
        lemma_split_point(init, row);
        lemma_insert_sorted(init, row, at);
    }
}

/// The number of leading rows of `rows` that are not ordered after `row`.
pub open spec fn split_point(rows: Seq<DataRow>, row: DataRow) -> int
    decreases rows.len(),
{
    if rows.len() == 0 || temp_key(rows.last()) <= temp_key(row) {
        rows.len() as int
    } else {
        split_point(rows.drop_last(), row)
    }
}

/// In sorted rows the split point parts the rows not ordered after `row` from
/// those ordered after it.
pub proof fn lemma_split_point(rows: Seq<DataRow>, row: DataRow)
    requires
        sorted_by_temp(rows),
    ensures
        0 <= split_point(rows, row) <= rows.len(),
        forall|i: int| 0 <= i < split_point(rows, row) ==> temp_key(rows[i]) <= temp_key(row),
        forall|i: int|
            split_point(rows, row) <= i < rows.len() ==> temp_key(rows[i]) > temp_key(row),
    decreases rows.len(),
{
    if rows.len() == 0 || temp_key(rows.last()) <= temp_key(row) {
    } else {
        let init = rows.drop_last();
        assert forall|i: int, j: int| 0 <= i <= j < init.len() implies temp_key(init[i])
            <= temp_key(init[j]) by {
            assert(init[i] == rows[i] && init[j] == rows[j]);
        }
        lemma_split_point(init, row);
        assert forall|i: int| 0 <= i < split_point(rows, row) implies temp_key(rows[i])
            <= temp_key(row) by {
            assert(rows[i] == init[i]);
        }
        assert forall|i: int| split_point(rows, row) <= i < rows.len() implies temp_key(rows[i])
            > temp_key(row) by {
            if i < init.len() {
                assert(rows[i] == init[i]);
            }
        }
    }
}

/// Sorting keeps, for every temperature, the rows of that temperature and
/// their order: it is a stable rearrangement.
pub proof fn lemma_sort_stable(rows: Seq<DataRow>, key: int)
    ensures
        rows_with_key(sort_by_temp(rows), key) == rows_with_key(rows, key),
    decreases rows.len(),
{
    reveal(Seq::filter);
    if rows.len() > 0 {
        let init = sort_by_temp(rows.drop_last());
        let row = rows.last();
        let pick = |r: DataRow| temp_key(r) == key;
        lemma_sort_sorted(rows.drop_last());
        lemma_sort_stable(rows.drop_last(), key);
        let at = split_point(init, row);
        lemma_split_point(init, row);
        lemma_insert_sorted(init, row, at);
        let head = init.take(at);
        let tail = init.skip(at);
        assert(init == head + tail);
        assert(init.insert(at, row) == head.push(row) + tail);
        Seq::filter_distributes_over_add(head, tail, pick);
        Seq::filter_distributes_over_add(head.push(row), tail, pick);
        assert(head.push(row).drop_last() == head);
        if temp_key(row) == key {
            lemma_filter_none(tail, pick);
            assert(head.push(row).filter(pick) == head.filter(pick).push(row));
            assert(init.filter(pick) == head.filter(pick));
        } else {
            assert(head.push(row).filter(pick) == head.filter(pick));
        }
    }
}

/// Sorted rows are their own sorting.
pub proof fn lemma_sort_of_sorted(rows: Seq<DataRow>)
    requires
        sorted_by_temp(rows),
    ensures
        sort_by_temp(rows) == rows,
    decreases rows.len(),
{
    if rows.len() > 0 {
        let init = rows.drop_last();
        assert forall|i: int, j: int| 0 <= i <= j < init.len() implies temp_key(init[i])
            <= temp_key(init[j]) by {
            assert(init[i] == rows[i] && init[j] == rows[j]);
        }
        lemma_sort_of_sorted(init);
        assert forall|i: int| 0 <= i < init.len() implies temp_key(init[i]) <= temp_key(
            rows.last(),
        ) by {
            assert(init[i] == rows[i]);
        }
        lemma_insert_sorted(init, rows.last(), init.len() as int);
        assert(init.insert(init.len() as int, rows.last()) == rows);
    }
}

/// Removing direct repeats yields rows without direct repeats, keeps the order
/// of temperatures, ends with the same row, and adds no row.
pub proof fn lemma_dedup(rows: Seq<DataRow>)
    ensures
        no_adjacent_repeats(dedup(rows)),
        dedup(rows).len() <= rows.len(),
        rows.len() > 0 ==> dedup(rows).len() > 0 && dedup(rows).last() == rows.last(),
        forall|i: int| 0 <= i < dedup(rows).len() ==> rows.contains(#[trigger] dedup(rows)[i]),
        sorted_by_temp(rows) ==> sorted_by_temp(dedup(rows)),
    decreases rows.len(),
{
    if rows.len() > 0 {
        let init = rows.drop_last();
        lemma_dedup(init);
        let out = dedup(rows);
        assert forall|i: int| 0 <= i < out.len() implies rows.contains(#[trigger] out[i]) by {
            if i < dedup(init).len() {
                let k = choose|k: int| 0 <= k < init.len() && init[k] == dedup(init)[i];
                assert(rows[k] == out[i]);
            } else {
                assert(rows[rows.len() - 1] == out[i]);
            }
        }
        if sorted_by_temp(rows) {
            assert forall|i: int, j: int| 0 <= i <= j < init.len() implies temp_key(init[i])
                <= temp_key(init[j]) by {
                assert(init[i] == rows[i] && init[j] == rows[j]);
            }
            assert forall|i: int, j: int| 0 <= i <= j < out.len() implies temp_key(out[i])
                <= temp_key(out[j]) by {
                if j == dedup(init).len() && i < j {
                    let k = choose|k: int| 0 <= k < init.len() && init[k] == dedup(init)[i];
                    assert(rows[k] == out[i]);
                }
            }
        }
    }
}

/// Rows without direct repeats are left as they are.
pub proof fn lemma_dedup_of_distinct(rows: Seq<DataRow>)
    requires
        no_adjacent_repeats(rows),
    ensures
        dedup(rows) == rows,
    decreases rows.len(),
{
    if rows.len() > 0 {
        let init = rows.drop_last();
        assert forall|i: int| 0 < i < init.len() implies init[i - 1] != #[trigger] init[i] by {
            assert(init[i] == rows[i]);
        }
        lemma_dedup_of_distinct(init);
        if rows.len() >= 2 {
            assert(rows[rows.len() - 2] != rows[rows.len() - 1]);
        }
        assert(init.push(rows.last()) == rows);
    }
}

/// Whether `a` is not ordered after `b`.
pub fn temp_le(a: &DataRow, b: &DataRow) -> (out: bool)
    ensures
        out == (temp_key(*a) <= temp_key(*b)),
{
    match (a.temp, b.temp) {
        (None, _) => true,
        (Some(_), None) => false,
        (Some(x), Some(y)) => x <= y,
    }
}

/// The rows in ascending order of temperature, rows of equal temperature in
/// their old order.
pub fn sorted_rows(rows: &Vec<DataRow>) -> (out: Vec<DataRow>)
    ensures
        out@ == sort_by_temp(rows@),
        sorted_by_temp(out@),
        out@.len() == rows@.len(),
{
    let mut out: Vec<DataRow> = Vec::new();
    let mut i: usize = 0;
    while i < rows.len()
        invariant
            i <= rows.len(),
            out@ == sort_by_temp(rows@.take(i as int)),
            sorted_by_temp(out@),
            out@.len() == i,
        decreases rows.len() - i,
    {
        let row = rows[i];
        let mut at: usize = out.len();
        while at > 0 && !temp_le(&out[at - 1], &row)
            invariant
                at <= out.len(),
                forall|k: int| at <= k < out.len() ==> temp_key(out[k]) > temp_key(row),
            decreases at,
        {
            at -= 1;
        }
        proof {
            assert forall|k: int| 0 <= k < at implies temp_key(out[k]) <= temp_key(row) by {
                assert(temp_key(out[k]) <= temp_key(out[at - 1]));
            }
            lemma_insert_sorted(out@, row, at as int);
            assert(rows@.take(i + 1).drop_last() == rows@.take(i as int));
        }
        out.insert(at, row);
        i += 1;
    }
    assert(rows@.take(rows.len() as int) == rows@);
    out
}

/// The rows without those that equal the row directly before them.
pub fn deduped_rows(rows: &Vec<DataRow>) -> (out: Vec<DataRow>)
    ensures
        out@ == dedup(rows@),
{
    let mut out: Vec<DataRow> = Vec::new();
    let mut i: usize = 0;
    while i < rows.len()
        invariant
            i <= rows.len(),
            out@ == dedup(rows@.take(i as int)),
        decreases rows.len() - i,
    {
        proof {
            assert(rows@.take(i + 1).drop_last() == rows@.take(i as int));
        }
        if !(i > 0 && rows[i] == rows[i - 1]) {
            out.push(rows[i]);
        }
        i += 1;
    }
    assert(rows@.take(rows.len() as int) == rows@);
    out
}

} // verus!
