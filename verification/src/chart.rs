//! The geometry of a chart of a model: the range of values that the chart
//! has to hold, and the stepped line that joins the points of the model.
//! Drawing is not done here.

use vstd::prelude::*;

verus! {

/// The least value among the points; zero where there is no point.
pub open spec fn least_value(points: Seq<(i32, i32)>) -> int
    decreases points.len(),
{
    if points.len() == 0 {
        0
    } else if points.len() == 1 || points.last().1 < least_value(points.drop_last()) {
        points.last().1 as int
    } else {
        least_value(points.drop_last())
    }
}

/// The greatest value among the points; zero where there is no point.
pub open spec fn greatest_value(points: Seq<(i32, i32)>) -> int
    decreases points.len(),
{
    if points.len() == 0 {
        0
    } else if points.len() == 1 || points.last().1 > greatest_value(points.drop_last()) {
        points.last().1 as int
    } else {
        greatest_value(points.drop_last())
    }
}

/// Where there is a point, the least and the greatest value are values of
/// points, and every value lies between them.
pub proof fn lemma_extremes(points: Seq<(i32, i32)>)
    requires
        points.len() > 0,
    ensures
        exists|i: int| 0 <= i < points.len() && points[i].1 == least_value(points),
        exists|i: int| 0 <= i < points.len() && points[i].1 == greatest_value(points),
        forall|i: int| 0 <= i < points.len() ==> least_value(points) <= (#[trigger] points[i]).1,
        forall|i: int| 0 <= i < points.len() ==> (#[trigger] points[i]).1 <= greatest_value(points),
    decreases points.len(),
{
    let last = points.len() - 1;
    if points.len() == 1 {
        assert(points[0].1 == least_value(points));
        assert(points[0].1 == greatest_value(points));
    } else {
        let init = points.drop_last();
        lemma_extremes(init);
        let a = choose|i: int| 0 <= i < init.len() && init[i].1 == least_value(init);
        let b = choose|i: int| 0 <= i < init.len() && init[i].1 == greatest_value(init);
        assert(points[a] == init[a] && points[b] == init[b]);
        if points.last().1 < least_value(init) {
            assert(points[last].1 == least_value(points));
        } else {
            assert(points[a].1 == least_value(points));
        }
        if points.last().1 > greatest_value(init) {
            assert(points[last].1 == greatest_value(points));
        } else {
            assert(points[b].1 == greatest_value(points));
        }
        assert forall|i: int| 0 <= i < points.len() implies least_value(points) <= (
        #[trigger] points[i]).1 by {
            if i < last {
                assert(points[i] == init[i]);
            }
        }
        assert forall|i: int| 0 <= i < points.len() implies (#[trigger] points[i]).1
            <= greatest_value(points) by {
            if i < last {
                assert(points[i] == init[i]);
            }
        }
    }
}

/// The least and the greatest value among the points; both zero where there
/// is no point.
pub fn extremes(points: &Vec<(i32, i32)>) -> (out: (i32, i32))
    ensures
        out.0 == least_value(points@),
        out.1 == greatest_value(points@),
{
    if points.len() == 0 {
        return (0, 0);
    }
    let mut least: i32 = points[0].1;
    let mut greatest: i32 = points[0].1;
    let mut i: usize = 1;
    assert(points@.take(1).drop_last() == points@.take(0));
    while i < points.len()
        invariant
            1 <= i <= points.len(),
            least == least_value(points@.take(i as int)),
            greatest == greatest_value(points@.take(i as int)),
        decreases points.len() - i,
    {
        let value: i32 = points[i].1;
        proof {
            assert(points@.take(i + 1).drop_last() == points@.take(i as int));
        }
        if value < least {
            least = value;
        }
        if value > greatest {
            greatest = value;
        }
        i += 1;
    }
    assert(points@.take(points.len() as int) == points@);
    (least, greatest)
}

/// The lower of two numbers.
pub open spec fn lower(a: int, b: int) -> int {
    if a <= b {
        a
    } else {
        b
    }
}

/// The higher of two numbers.
pub open spec fn higher(a: int, b: int) -> int {
    if a >= b {
        a
    } else {
        b
    }
}

/// The range of values of a chart that shows the measured points and those of
/// the model: from one below the least value to one above the greatest, where
/// a set without points counts as the value zero.
pub fn value_range(raw: &Vec<(i32, i32)>, calc: &Vec<(i32, i32)>) -> (out: (i32, i32))
    requires
        forall|i: int| 0 <= i < raw.len() ==> i32::MIN < (#[trigger] raw[i]).1 < i32::MAX,
        forall|i: int| 0 <= i < calc.len() ==> i32::MIN < (#[trigger] calc[i]).1 < i32::MAX,
    ensures
        out.0 == lower(least_value(raw@), least_value(calc@)) - 1,
        out.1 == higher(greatest_value(raw@), greatest_value(calc@)) + 1,
{
    let (raw_least, raw_greatest) = extremes(raw);
    let (calc_least, calc_greatest) = extremes(calc);
    proof {
        if raw.len() > 0 {
            lemma_extremes(raw@);
        }
        if calc.len() > 0 {
            lemma_extremes(calc@);
        }
    }
    let least: i32 = if raw_least <= calc_least {
        raw_least
    } else {
        calc_least
    };
    let greatest: i32 = if raw_greatest >= calc_greatest {
        raw_greatest
    } else {
        calc_greatest
    };
    (least - 1, greatest + 1)
}

/// A straight stroke of the stepped line.
#[derive(Clone, Copy, Debug, PartialEq, Eq, Structural)]
pub enum Stroke {
    /// A stroke at the value `y`, from the temperature `from` to `to`.
    Level { from: i32, to: i32, y: i32 },
    /// A stroke at the temperature `x`, from the value `from` up to `to`.
    Rise { x: i32, from: i32, to: i32 },
}

/// Half of `sum`, rounded towards zero.
pub open spec fn half(sum: int) -> int {
    if sum >= 0 {
        sum / 2
    } else {
        -((-sum) / 2)
    }
}

/// The temperature midway between two temperatures, rounded towards zero.
pub open spec fn midway(a: i32, b: i32) -> i32 {
    half(a + b) as i32
}

/// The strokes that join two neighbouring points. Points of one value are
/// joined by one level stroke. Others are joined by a level stroke at the
/// first value up to midway, a rise between the two values there, and a level
/// stroke at the second value from there on.
pub open spec fn strokes_between(p: (i32, i32), q: (i32, i32)) -> Seq<Stroke> {
    if p.1 == q.1 {
        seq![Stroke::Level { from: p.0, to: q.0, y: p.1 }]
    } else {
        seq![
            Stroke::Level { from: p.0, to: midway(p.0, q.0), y: p.1 },
            Stroke::Rise {
                x: midway(p.0, q.0),
                from: if p.1 <= q.1 {
                    p.1
                } else {
                    q.1
                },
                to: if p.1 <= q.1 {
                    q.1
                } else {
                    p.1
                },
            },
            Stroke::Level { from: midway(p.0, q.0), to: q.0, y: q.1 },
        ]
    }
}

/// The strokes that join the first `n` points, each to the next.
pub open spec fn strokes_upto(points: Seq<(i32, i32)>, n: int) -> Seq<Stroke>
    decreases n,
{
    if n <= 1 {
        Seq::empty()
    } else {
        strokes_upto(points, n - 1) + strokes_between(points[n - 2], points[n - 1])
    }
}

/// The stepped line through the points: the strokes that join each point to
/// the next, in order.
pub open spec fn stepped_line(points: Seq<(i32, i32)>) -> Seq<Stroke> {
    strokes_upto(points, points.len() as int)
}

/// The temperature midway between two temperatures, rounded towards zero.
pub fn midway_of(a: i32, b: i32) -> (out: i32)
    ensures
        out == midway(a, b),
{
    let sum: i64 = a as i64 + b as i64;
    if sum >= 0 {
        (sum / 2) as i32
    } else {
        (-((-sum) / 2)) as i32
    }
}

/// The stepped line through the points of a model.
pub fn step_strokes(points: &Vec<(i32, i32)>) -> (out: Vec<Stroke>)
    ensures
        out@ == stepped_line(points@),
{
    let mut out: Vec<Stroke> = Vec::new();
    if points.len() < 2 {
        return out;
    }
    let mut i: usize = 1;
    while i < points.len()
        invariant
            1 <= i <= points.len(),
            out@ == strokes_upto(points@, i as int),
        decreases points.len() - i,
    {
        let p = points[i - 1];
        let q = points[i];
        let ghost before = out@;
        if p.1 == q.1 {
            out.push(Stroke::Level { from: p.0, to: q.0, y: p.1 });
        } else {
            let mid: i32 = midway_of(p.0, q.0);
            let (low, high) = if p.1 <= q.1 {
                (p.1, q.1)
            } else {
                (q.1, p.1)
            };
            out.push(Stroke::Level { from: p.0, to: mid, y: p.1 });
            out.push(Stroke::Rise { x: mid, from: low, to: high });
            out.push(Stroke::Level { from: mid, to: q.0, y: q.1 });
        }
        assert(out@ =~= before + strokes_between(p, q));
        i += 1;
    }
    out
}

} // verus!
