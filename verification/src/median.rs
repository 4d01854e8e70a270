//! The median of a list of numbers.

use vstd::prelude::*;
use vstd::seq_lib::{lemma_sorted_unique, to_multiset_build, to_multiset_insert};
use vstd::relations::{sorted_by, total_ordering};

verus! {

/// Whether the numbers are in ascending order.
pub open spec fn ascending(numbers: Seq<i32>) -> bool {
    forall|i: int, j: int| 0 <= i <= j < numbers.len() ==> numbers[i] <= numbers[j]
}

/// Whether `sorted` holds the numbers of `data`, each as often as `data`
/// does, in ascending order.
pub open spec fn is_sorting(data: Seq<i32>, sorted: Seq<i32>) -> bool {
    ascending(sorted) && sorted.to_multiset() == data.to_multiset()
}

/// Whether `middle` is the median of `data`: the number in the middle of the
/// numbers in ascending order, the upper of the two in the middle where their
/// count is even.
pub open spec fn is_median(data: Seq<i32>, middle: i32) -> bool {
    exists|sorted: Seq<i32>|
        #![trigger is_sorting(data, sorted)]
        is_sorting(data, sorted) && sorted.len() == data.len() && 0 <= data.len() / 2
            < sorted.len() && sorted[(data.len() / 2) as int] == middle
}

/// A list has one median at most.
pub proof fn lemma_median_unique(data: Seq<i32>, a: i32, b: i32)
    requires
        is_median(data, a),
        is_median(data, b),
    ensures
        a == b,
{
    let leq = |x: i32, y: i32| x <= y;
    let s = choose|sorted: Seq<i32>|
        #![trigger is_sorting(data, sorted)]
        is_sorting(data, sorted) && sorted.len() == data.len() && 0 <= data.len() / 2
            < sorted.len() && sorted[(data.len() / 2) as int] == a;
    let t = choose|sorted: Seq<i32>|
        #![trigger is_sorting(data, sorted)]
        is_sorting(data, sorted) && sorted.len() == data.len() && 0 <= data.len() / 2
            < sorted.len() && sorted[(data.len() / 2) as int] == b;
    assert(sorted_by(s, leq));
    assert(sorted_by(t, leq));
    assert(total_ordering(leq));
    lemma_sorted_unique(s, t, leq);
}

/// The numbers in ascending order.
pub fn sorted_numbers(data: &Vec<i32>) -> (out: Vec<i32>)
    ensures
        is_sorting(data@, out@),
        out@.len() == data@.len(),
{
    let mut out: Vec<i32> = Vec::new();
    let mut i: usize = 0;
    assert(data@.take(0) == Seq::<i32>::empty());
    while i < data.len()
        invariant
            i <= data.len(),
            out@.len() == i,
            is_sorting(data@.take(i as int), out@),
        decreases data.len() - i,
    {
        let value: i32 = data[i];
        let mut at: usize = out.len();
        while at > 0 && out[at - 1] > value
            invariant
                at <= out.len(),
                forall|k: int| at <= k < out.len() ==> out[k] > value,
            decreases at,
        {
            at -= 1;
        }
        let ghost before = out@;
        proof {
            assert forall|k: int| 0 <= k < at implies before[k] <= value by {
                assert(before[k] <= before[at - 1]);
            }
            to_multiset_insert(before, at as int, value);
            to_multiset_build(data@.take(i as int), value);
            assert(data@.take(i + 1) == data@.take(i as int).push(value));
        }
        out.insert(at, value);
        proof {
            assert forall|a: int, b: int| 0 <= a <= b < out@.len() implies out@[a] <= out@[b] by {
                if a < at && b > at {
                    assert(out@[a] == before[a] && out@[b] == before[b - 1]);
                } else if a < at && b < at {
                    assert(out@[a] == before[a] && out@[b] == before[b]);
                } else if a > at {
                    assert(out@[a] == before[a - 1] && out@[b] == before[b - 1]);
                }
            }
        }
        i += 1;
    }
    assert(data@.take(data.len() as int) == data@);
    out
}

/// The median of the numbers: the number in the middle of the numbers in
/// ascending order, the upper of the two in the middle where their count is
/// even. `None` where there is no number.
pub fn median(data: Vec<i32>) -> (out: Option<i32>)
    ensures
        data.len() == 0 ==> out is None,
        data.len() > 0 ==> out is Some && is_median(data@, out->Some_0),
{
    let len: usize = data.len();
    if len == 0 {
        return None;
    }
    let sorted = sorted_numbers(&data);
    assert(is_sorting(data@, sorted@));
    Some(sorted[len / 2])
}

} // verus!
