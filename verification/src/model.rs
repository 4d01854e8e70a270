//! The model table: the two fitted curves, read off at the points of a fixed
//! grid of temperatures.
//!
//! Fitting the curves is arithmetic on real numbers and is not done here. A
//! table hands out the samples that the curves are fitted to, and the model
//! is assembled from the values that the curves take on the grid.

use crate::frame::{is_canonical, DataFrame};
use crate::order::{no_adjacent_repeats, sorted_by_temp, temp_key};
use crate::row::DataRow;
use vstd::prelude::*;

verus! {

/// The lowest temperature of the grid.
pub const GRID_FIRST: i32 = -50;

/// The distance between neighbouring temperatures of the grid.
pub const GRID_STEP: i32 = 6;

/// The number of temperatures of the grid, which ends at 70.
pub const GRID_POINTS: usize = 21;

/// The `k`-th temperature of the grid, counted from zero.
pub open spec fn grid_temp(k: int) -> int {
    GRID_FIRST + GRID_STEP * k
}

/// The temperatures of the grid, in ascending order.
pub open spec fn grid_temps() -> Seq<i32> {
    Seq::new(GRID_POINTS as nat, |k: int| grid_temp(k) as i32)
}

/// The rows of the model whose curves take the values `xs` and `ys` on the
/// grid: one complete row for each temperature of the grid, in order.
pub open spec fn model_rows(xs: Seq<i32>, ys: Seq<i32>) -> Seq<DataRow> {
    Seq::new(
        GRID_POINTS as nat,
        |k: int| DataRow { temp: Some(grid_temp(k) as i32), x: Some(xs[k]), y: Some(ys[k]) },
    )
}

/// Whether no field of any row is missing.
pub open spec fn all_complete(rows: Seq<DataRow>) -> bool {
    forall|i: int| 0 <= i < rows.len() ==> (#[trigger] rows[i]).is_complete_spec()
}

/// The samples of the first curve: the temperature and the first offset of
/// each row, in order.
pub open spec fn x_samples_of(rows: Seq<DataRow>) -> Seq<(i32, i32)> {
    Seq::new(rows.len(), |i: int| (rows[i].temp->Some_0, rows[i].x->Some_0))
}

/// The samples of the second curve: the temperature and the second offset of
/// each row, in order.
pub open spec fn y_samples_of(rows: Seq<DataRow>) -> Seq<(i32, i32)> {
    Seq::new(rows.len(), |i: int| (rows[i].temp->Some_0, rows[i].y->Some_0))
}

/// A model has exactly as many rows as the grid has temperatures; the
/// temperature of its `k`-th row is the `k`-th of the grid, so the
/// temperatures ascend strictly from -50 to 70 in steps of 6; and it is a
/// finished table.
pub proof fn lemma_model_rows(xs: Seq<i32>, ys: Seq<i32>)
    ensures
        model_rows(xs, ys).len() == 21,
        forall|k: int|
            0 <= k < 21 ==> (#[trigger] model_rows(xs, ys)[k]).temp == Some(
                (-50 + 6 * k) as i32,
            ),
        forall|j: int, k: int|
            0 <= j < k < 21 ==> temp_key(model_rows(xs, ys)[j]) < temp_key(model_rows(xs, ys)[k]),
        model_rows(xs, ys).last().temp == Some(70i32),
        is_canonical(model_rows(xs, ys)),
{
    let rows = model_rows(xs, ys);
    assert forall|i: int| 0 < i < rows.len() implies rows[i - 1] != #[trigger] rows[i] by {
        assert(temp_key(rows[i - 1]) < temp_key(rows[i]));
    }
    assert(sorted_by_temp(rows));
    assert(no_adjacent_repeats(rows));
}

/// The temperatures of the grid, in ascending order.
pub fn grid() -> (out: Vec<i32>)
    ensures
        out@ == grid_temps(),
{
    let mut out: Vec<i32> = Vec::new();
    let mut k: usize = 0;
    while k < GRID_POINTS
        invariant
            k <= GRID_POINTS,
            out@.len() == k,
            forall|j: int| 0 <= j < k ==> out@[j] == grid_temp(j) as i32,
        decreases GRID_POINTS - k,
    {
        out.push(GRID_FIRST + GRID_STEP * (k as i32));
        k += 1;
    }
    assert(out@ =~= grid_temps());
    out
}

impl DataFrame {
    /// Whether no field of any row is missing.
    pub fn is_complete(&self) -> (out: bool)
        ensures
            out == all_complete(self@),
    {
        let mut i: usize = 0;
        while i < self.rows.len()
            invariant
                i <= self.rows.len(),
                forall|j: int| 0 <= j < i ==> (#[trigger] self@[j]).is_complete_spec(),
            decreases self.rows.len() - i,
        {
            if !self.rows[i].is_complete() {
                return false;
            }
            i += 1;
        }
        true
    }

    /// The samples that the first curve is fitted to: the temperature and the
    /// first offset of each row.
    pub fn x_samples(&self) -> (out: Vec<(i32, i32)>)
        requires
            all_complete(self@),
        ensures
            out@ == x_samples_of(self@),
    {
        let mut out: Vec<(i32, i32)> = Vec::new();
        let mut i: usize = 0;
        while i < self.rows.len()
            invariant
                i <= self.rows.len(),
                all_complete(self@),
                out@.len() == i,
                forall|j: int| 0 <= j < i ==> out@[j] == x_samples_of(self@)[j],
            decreases self.rows.len() - i,
        {
            let row = self.rows[i];
            assert(self@[i as int].is_complete_spec());
            match (row.temp, row.x) {
                (Some(temp), Some(x)) => out.push((temp, x)),
                _ => {},
            }
            i += 1;
        }
        assert(out@ =~= x_samples_of(self@));
        out
    }

    /// The samples that the second curve is fitted to: the temperature and
    /// the second offset of each row.
    pub fn y_samples(&self) -> (out: Vec<(i32, i32)>)
        requires
            all_complete(self@),
        ensures
            out@ == y_samples_of(self@),
    {
        let mut out: Vec<(i32, i32)> = Vec::new();
        let mut i: usize = 0;
        while i < self.rows.len()
            invariant
                i <= self.rows.len(),
                all_complete(self@),
                out@.len() == i,
                forall|j: int| 0 <= j < i ==> out@[j] == y_samples_of(self@)[j],
            decreases self.rows.len() - i,
        {
            let row = self.rows[i];
            assert(self@[i as int].is_complete_spec());
            match (row.temp, row.y) {
                (Some(temp), Some(y)) => out.push((temp, y)),
                _ => {},
            }
            i += 1;
        }
        assert(out@ =~= y_samples_of(self@));
        out
    }

    /// Assembles the model from the values that the two fitted curves take at
    /// the temperatures of the grid, `x_values[k]` and `y_values[k]` at the
    /// `k`-th. The model has one complete row for each temperature of the
    /// grid, in ascending order.
    pub fn calc(x_values: &[i32; 21], y_values: &[i32; 21]) -> (out: DataFrame)
        ensures
            out@ == model_rows(x_values@, y_values@),
            out@.len() == 21,
            is_canonical(out@),
    {
        let mut item = DataFrame { rows: Vec::new() };
        let mut k: usize = 0;
        while k < GRID_POINTS
            invariant
                k <= GRID_POINTS,
                item@.len() == k,
                forall|j: int| 0 <= j < k ==> item@[j] == model_rows(x_values@, y_values@)[j],
            decreases GRID_POINTS - k,
        {
            item.rows.push(
                DataRow {
                    temp: Some(GRID_FIRST + GRID_STEP * (k as i32)),
                    x: Some(x_values[k]),
                    y: Some(y_values[k]),
                },
            );
            k += 1;
        }
        proof {
            assert(item@ =~= model_rows(x_values@, y_values@));
            lemma_model_rows(x_values@, y_values@);
        }
        item
    }
}

} // verus!
