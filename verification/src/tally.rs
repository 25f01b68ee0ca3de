//! Sums and ordered selections over the values of a roll.

use vstd::prelude::*;
use vstd::relations::{sorted_by, total_ordering};
use vstd::seq_lib::{
    group_to_multiset_ensures, lemma_sorted_unique, to_multiset_build, to_multiset_insert,
};

verus! {

/// The sum of all values.
pub open spec fn total(values: Seq<i64>) -> int
    decreases values.len(),
{
    if values.len() == 0 {
        0
    } else {
        total(values.drop_last()) + values.last()
    }
}

/// The faces as the values they are counted by.
pub open spec fn face_values(faces: Seq<u32>) -> Seq<i64> {
    Seq::new(faces.len(), |i: int| faces[i] as i64)
}

/// The order by which values are selected: smaller or equal.
pub open spec fn at_most() -> spec_fn(i64, i64) -> bool {
    |a: i64, b: i64| a <= b
}

/// The values from the smallest to the largest.
pub open spec fn ascending(values: Seq<i64>) -> Seq<i64> {
    values.sort_by(at_most())
}

/// The values from the largest to the smallest.
pub open spec fn descending(values: Seq<i64>) -> Seq<i64> {
    ascending(values).reverse()
}

/// How many entries a selection of `count` takes out of `available`.
pub open spec fn taken(count: nat, available: nat) -> nat {
    if count <= available {
        count
    } else {
        available
    }
}

/// The sum of the `count` largest values, of all of them where there are fewer.
pub open spec fn largest(values: Seq<i64>, count: nat) -> int {
    total(descending(values).take(taken(count, values.len()) as int))
}

/// The sum of the `count` smallest values, of all of them where there are fewer.
pub open spec fn smallest(values: Seq<i64>, count: nat) -> int {
    total(ascending(values).take(taken(count, values.len()) as int))
}

/// How many of the smallest values a selection of the `count` middle ones
/// leaves out: half of what is left over, rounded down.
pub open spec fn middle_offset(count: nat, available: nat) -> nat {
    if count <= available {
        ((available - count) / 2) as nat
    } else {
        0
    }
}

/// The sum of the `count` values in the middle of the ascending order, of all
/// of them where there are fewer.
pub open spec fn middle(values: Seq<i64>, count: nat) -> int {
    let skip = middle_offset(count, values.len());
    let end = skip + taken(count, values.len());
    total(ascending(values).subrange(skip as int, end as int))
}

/// `<=` is a total order.
pub proof fn lemma_at_most_is_total()
    ensures
        total_ordering(at_most()),
{
    let r = at_most();
    assert(vstd::relations::reflexive(r));
    assert(vstd::relations::antisymmetric(r));
    assert(vstd::relations::transitive(r));
    assert(vstd::relations::strongly_connected(r));
}

/// The ascending order holds exactly the given values, each as often as it
/// was given, and no value in it is followed by a smaller one.
pub proof fn lemma_ascending(values: Seq<i64>)
    ensures
        ascending(values).to_multiset() == values.to_multiset(),
        ascending(values).len() == values.len(),
        forall|i: int, j: int|
            0 <= i < j < values.len() ==> ascending(values)[i] <= ascending(values)[j],
{
    broadcast use group_to_multiset_ensures;

    lemma_at_most_is_total();
    values.lemma_sort_by_ensures(at_most());
    let sorted = ascending(values);
    assert(sorted.len() == sorted.to_multiset().len());
    assert(values.len() == values.to_multiset().len());
    assert forall|i: int, j: int| 0 <= i < j < values.len() implies sorted[i] <= sorted[j] by {
        assert(at_most()(sorted[i], sorted[j]));
    }
}

/// The descending order holds exactly the given values, each as often as it
/// was given, and no value in it is followed by a larger one.
pub proof fn lemma_descending(values: Seq<i64>)
    ensures
        descending(values).to_multiset() == values.to_multiset(),
        descending(values).len() == values.len(),
        forall|i: int, j: int|
            0 <= i < j < values.len() ==> descending(values)[i] >= descending(values)[j],
{
    lemma_ascending(values);
    ascending(values).lemma_reverse_to_multiset();
}

/// A sequence that holds the same values as `values` and never steps down is
/// the ascending order of `values`.
pub proof fn lemma_ascending_is_unique(values: Seq<i64>, sorted: Seq<i64>)
    requires
        sorted.to_multiset() == values.to_multiset(),
        forall|i: int, j: int| 0 <= i < j < sorted.len() ==> sorted[i] <= sorted[j],
    ensures
        sorted == ascending(values),
{
    lemma_at_most_is_total();
    values.lemma_sort_by_ensures(at_most());
    assert(sorted_by(sorted, at_most()));
    lemma_sorted_unique(sorted, ascending(values), at_most());
}

/// The sum lies within the number of values times the bounds of one value.
pub proof fn lemma_total_bounds(values: Seq<i64>, low: int, high: int)
    requires
        forall|i: int| 0 <= i < values.len() ==> low <= #[trigger] values[i] <= high,
    ensures
        values.len() * low <= total(values) <= values.len() * high,
    decreases values.len(),
{
    if values.len() > 0 {
        let front = values.drop_last();
        assert forall|i: int| 0 <= i < front.len() implies low <= #[trigger] front[i] <= high by {
            assert(front[i] == values[i]);
        }
        lemma_total_bounds(front, low, high);
        assert(values.len() * low == front.len() * low + low) by (nonlinear_arith)
            requires
                values.len() == front.len() + 1,
        ;
        assert(values.len() * high == front.len() * high + high) by (nonlinear_arith)
            requires
                values.len() == front.len() + 1,
        ;
    }
}

/// Whether `at` names positions among the first `available`, each one once,
/// from the lowest to the highest.
pub open spec fn are_picks(at: Seq<int>, available: nat) -> bool {
    &&& forall|j: int| 0 <= j < at.len() ==> 0 <= #[trigger] at[j] < available
    &&& forall|i: int, j: int| 0 <= i < j < at.len() ==> at[i] < at[j]
}

/// The values that stand at the given positions.
pub open spec fn picked(values: Seq<i64>, at: Seq<int>) -> Seq<i64> {
    Seq::new(at.len(), |j: int| values[at[j]])
}

/// Of two sequences of one length, the one that is nowhere larger has no
/// larger sum.
pub proof fn lemma_total_compare(lower: Seq<i64>, upper: Seq<i64>)
    requires
        lower.len() == upper.len(),
        forall|i: int| 0 <= i < lower.len() ==> lower[i] <= upper[i],
    ensures
        total(lower) <= total(upper),
    decreases lower.len(),
{
    if lower.len() > 0 {
        lemma_total_compare(lower.drop_last(), upper.drop_last());
    }
}

/// The pick number `j` stands at position `j` or later.
pub proof fn lemma_picks_advance(at: Seq<int>, available: nat, j: int)
    requires
        are_picks(at, available),
        0 <= j < at.len(),
    ensures
        j <= at[j],
    decreases j,
{
    if j > 0 {
        lemma_picks_advance(at, available, j - 1);
    }
}

/// No choice of values sums to more than as many of the largest: whatever
/// positions of the descending order are picked, the values there sum to no
/// more than the first ones do.
pub proof fn lemma_largest_is_most(values: Seq<i64>, at: Seq<int>)
    requires
        are_picks(at, values.len()),
    ensures
        at.len() <= values.len(),
        total(picked(descending(values), at)) <= largest(values, at.len()),
{
    lemma_descending(values);
    let ordered = descending(values);
    if at.len() > 0 {
        lemma_picks_advance(at, values.len(), at.len() - 1);
    }
    let first = ordered.take(at.len() as int);
    assert forall|j: int| 0 <= j < at.len() implies picked(ordered, at)[j] <= first[j] by {
        lemma_picks_advance(at, values.len(), j);
    }
    lemma_total_compare(picked(ordered, at), first);
}

/// No choice of values sums to less than as many of the smallest: whatever
/// positions of the ascending order are picked, the values there sum to no
/// less than the first ones do.
pub proof fn lemma_smallest_is_least(values: Seq<i64>, at: Seq<int>)
    requires
        are_picks(at, values.len()),
    ensures
        at.len() <= values.len(),
        total(picked(ascending(values), at)) >= smallest(values, at.len()),
{
    lemma_ascending(values);
    let ordered = ascending(values);
    if at.len() > 0 {
        lemma_picks_advance(at, values.len(), at.len() - 1);
    }
    let first = ordered.take(at.len() as int);
    assert forall|j: int| 0 <= j < at.len() implies first[j] <= picked(ordered, at)[j] by {
        lemma_picks_advance(at, values.len(), j);
    }
    lemma_total_compare(first, picked(ordered, at));
}

/// Sums the values from index `from` up to, not including, index `to`.
fn sum_range(values: &Vec<i64>, from: usize, to: usize) -> (sum: i128)
    requires
        from <= to <= values.len(),
    ensures
        sum == total(values@.subrange(from as int, to as int)),
{
    let mut sum: i128 = 0;
    let mut i: usize = from;
    while i < to
        invariant
            from <= i <= to <= values.len(),
            sum == total(values@.subrange(from as int, i as int)),
            -(i - from) * 0x8000_0000_0000_0000 <= sum <= (i - from) * 0x8000_0000_0000_0000,
        decreases to - i,
    {
        proof {
            let next = values@.subrange(from as int, i + 1);
            assert(next.drop_last() == values@.subrange(from as int, i as int));
            assert(next.last() == values@[i as int]);
        }
        sum = sum + values[i] as i128;
        i = i + 1;
    }
    sum
}

/// Sums the last `count` values, which for values in ascending order are the
/// first `count` of the descending order.
fn sum_last(values: &Vec<i64>, count: usize) -> (sum: i128)
    requires
        count <= values.len(),
    ensures
        sum == total(values@.reverse().take(count as int)),
{
    let ghost reversed = values@.reverse();
    let length = values.len();
    let mut sum: i128 = 0;
    let mut done: usize = 0;
    while done < count
        invariant
            done <= count <= length,
            length == values.len(),
            reversed == values@.reverse(),
            sum == total(reversed.take(done as int)),
            -done * 0x8000_0000_0000_0000 <= sum <= done * 0x8000_0000_0000_0000,
        decreases count - done,
    {
        proof {
            let next = reversed.take(done + 1);
            assert(next.drop_last() == reversed.take(done as int));
            assert(next.last() == values@[length - 1 - done]);
        }
        sum = sum + values[length - 1 - done] as i128;
        done = done + 1;
    }
    sum
}

/// The values from the smallest to the largest.
pub fn sort_ascending(values: &Vec<i64>) -> (sorted: Vec<i64>)
    ensures
        sorted@ == ascending(values@),
{
    let mut sorted: Vec<i64> = Vec::new();
    let mut i: usize = 0;
    assert(values@.take(0) == sorted@);
    while i < values.len()
        invariant
            i <= values.len(),
            sorted@.len() == i,
            sorted@.to_multiset() == values@.take(i as int).to_multiset(),
            forall|a: int, b: int| 0 <= a < b < sorted@.len() ==> sorted@[a] <= sorted@[b],
        decreases values.len() - i,
    {
        let value = values[i];
        let mut at: usize = 0;
        while at < sorted.len() && sorted[at] <= value
            invariant
                at <= sorted@.len(),
                forall|a: int| 0 <= a < at ==> sorted@[a] <= value,
            decreases sorted@.len() - at,
        {
            at = at + 1;
        }
        let ghost before = sorted@;
        sorted.insert(at, value);
        proof {
            assert(values@.take(i + 1) == values@.take(i as int).push(value));
            to_multiset_insert(before, at as int, value);
            to_multiset_build(values@.take(i as int), value);
        }
        i = i + 1;
    }
    proof {
        assert(values@.take(i as int) == values@);
        lemma_ascending_is_unique(values@, sorted@);
    }
    sorted
}

/// The sum of all values.
pub fn sum(values: &Vec<i64>) -> (sum: i128)
    ensures
        sum == total(values@),
{
    assert(values@.subrange(0, values@.len() as int) == values@);
    sum_range(values, 0, values.len())
}

/// How many entries a selection of `count` takes out of `available`.
fn take_of(count: u32, available: usize) -> (take: usize)
    ensures
        take == taken(count as nat, available as nat),
{
    if count as usize <= available {
        count as usize
    } else {
        available
    }
}

/// The sum of the `count` largest values, of all of them where there are fewer.
pub fn sum_largest(values: &Vec<i64>, count: u32) -> (sum: i128)
    ensures
        sum == largest(values@, count as nat),
{
    let sorted = sort_ascending(values);
    proof {
        lemma_ascending(values@);
    }
    sum_last(&sorted, take_of(count, sorted.len()))
}

/// The sum of the `count` smallest values, of all of them where there are fewer.
pub fn sum_smallest(values: &Vec<i64>, count: u32) -> (sum: i128)
    ensures
        sum == smallest(values@, count as nat),
{
    let sorted = sort_ascending(values);
    proof {
        lemma_ascending(values@);
    }
    let take = take_of(count, sorted.len());
    assert(sorted@.subrange(0, take as int) == sorted@.take(take as int));
    sum_range(&sorted, 0, take)
}

/// The sum of the `count` values in the middle of the ascending order, of all
/// of them where there are fewer.
pub fn sum_middle(values: &Vec<i64>, count: u32) -> (sum: i128)
    ensures
        sum == middle(values@, count as nat),
{
    let sorted = sort_ascending(values);
    proof {
        lemma_ascending(values@);
    }
    let length = sorted.len();
    let take = take_of(count, length);
    let skip = if count as usize <= length {
        (length - count as usize) / 2
    } else {
        0
    };
    sum_range(&sorted, skip, skip + take)
}

} // verus!
