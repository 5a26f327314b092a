//! The mathematical model of smooth weighted round robin.
//!
//! A schedule is a sequence of weights and, beside it, a sequence of scores of
//! the same length. One selection hands out the first index that holds the
//! largest score, then raises every score by its weight and lowers the score
//! of that index by the total weight.

use vstd::prelude::*;

verus! {

/// The sum of a sequence of integers.
pub open spec fn total(values: Seq<int>) -> int
    decreases values.len(),
{
    if values.len() == 0 {
        0
    } else {
        total(values.drop_last()) + values.last()
    }
}

/// The sequence of `count` zeros: the scores of a schedule nobody has selected from.
pub open spec fn zeros(count: nat) -> Seq<int> {
    Seq::new(count, |i: int| 0int)
}

/// `index` holds the largest score, and no index before it holds as much.
pub open spec fn is_first_maximum(scores: Seq<int>, index: int) -> bool {
    &&& 0 <= index < scores.len()
    &&& forall|j: int| 0 <= j < scores.len() ==> #[trigger] scores[j] <= scores[index]
    &&& forall|j: int| 0 <= j < index ==> #[trigger] scores[j] < scores[index]
}

/// The index that a selection hands out: the first one that holds the largest score.
pub open spec fn winner(scores: Seq<int>) -> int {
    choose|index: int| is_first_maximum(scores, index)
}

/// The scores after one selection: each raised by its weight, the winner's
/// lowered by the total weight.
pub open spec fn step(weights: Seq<int>, scores: Seq<int>) -> Seq<int> {
    Seq::new(
        scores.len(),
        |i: int|
            if i == winner(scores) {
                scores[i] + weights[i] - total(weights)
            } else {
                scores[i] + weights[i]
            },
    )
}

/// The scores after `count` selections in a row.
pub open spec fn advance(weights: Seq<int>, scores: Seq<int>, count: nat) -> Seq<int>
    decreases count,
{
    if count == 0 {
        scores
    } else {
        step(weights, advance(weights, scores, (count - 1) as nat))
    }
}

/// The indices handed out by `count` selections in a row, in order.
pub open spec fn picks(weights: Seq<int>, scores: Seq<int>, count: nat) -> Seq<int>
    decreases count,
{
    if count == 0 {
        Seq::empty()
    } else {
        picks(weights, scores, (count - 1) as nat).push(
            winner(advance(weights, scores, (count - 1) as nat)),
        )
    }
}

/// How many times `index` occurs in a sequence of picks.
pub open spec fn times_picked(picked: Seq<int>, index: int) -> nat
    decreases picked.len(),
{
    if picked.len() == 0 {
        0
    } else if picked.last() == index {
        times_picked(picked.drop_last(), index) + 1
    } else {
        times_picked(picked.drop_last(), index)
    }
}

/// Every non-empty sequence of scores has a first maximum.
pub proof fn lemma_first_maximum_exists(scores: Seq<int>) -> (index: int)
    requires
        scores.len() > 0,
    ensures
        is_first_maximum(scores, index),
    decreases scores.len(),
{
    if scores.len() == 1 {
        0
    } else {
        let front = scores.drop_last();
        let best = lemma_first_maximum_exists(front);
        assert(forall|j: int| 0 <= j < front.len() ==> front[j] == scores[j]);
        if scores.last() > scores[best] {
            let last = scores.len() - 1;
            assert forall|j: int| 0 <= j < scores.len() implies #[trigger] scores[j]
                <= scores[last] by {
                if j < front.len() {
                    assert(front[j] <= front[best]);
                }
            }
            assert forall|j: int| 0 <= j < last implies #[trigger] scores[j] < scores[last] by {
                assert(front[j] <= front[best]);
            }
            last
        } else {
            assert forall|j: int| 0 <= j < scores.len() implies #[trigger] scores[j]
                <= scores[best] by {
                if j < front.len() {
                    assert(front[j] <= front[best]);
                }
            }
            assert forall|j: int| 0 <= j < best implies #[trigger] scores[j] < scores[best] by {
                assert(front[j] < front[best]);
            }
            best
        }
    }
}

/// A sequence of scores has at most one first maximum.
pub proof fn lemma_first_maximum_unique(scores: Seq<int>, first: int, second: int)
    requires
        is_first_maximum(scores, first),
        is_first_maximum(scores, second),
    ensures
        first == second,
{
    if first < second {
        assert(scores[first] < scores[second]);
        assert(scores[second] <= scores[first]);
    } else if second < first {
        assert(scores[second] < scores[first]);
        assert(scores[first] <= scores[second]);
    }
}

/// On a non-empty sequence, `winner` is the first maximum, and it is the only one.
pub proof fn lemma_winner(scores: Seq<int>)
    requires
        scores.len() > 0,
    ensures
        is_first_maximum(scores, winner(scores)),
        forall|index: int| is_first_maximum(scores, index) ==> index == winner(scores),
{
    let witness = lemma_first_maximum_exists(scores);
    assert(is_first_maximum(scores, witness));
    assert forall|index: int| is_first_maximum(scores, index) implies index == winner(
        scores,
    ) by {
        lemma_first_maximum_unique(scores, index, winner(scores));
    }
}

/// The total of the first `count + 1` values is the total of the first
/// `count` plus the value at `count`.
pub proof fn lemma_total_take(values: Seq<int>, count: int)
    requires
        0 <= count < values.len(),
    ensures
        total(values.take(count + 1)) == total(values.take(count)) + values[count],
{
    assert(values.take(count + 1).drop_last() =~= values.take(count));
}

/// Where no value is negative, the total of any front part is not negative
/// and does not exceed the whole total.
pub proof fn lemma_total_take_bounded(values: Seq<int>, count: int)
    requires
        forall|i: int| 0 <= i < values.len() ==> #[trigger] values[i] >= 0,
        0 <= count <= values.len(),
    ensures
        0 <= total(values.take(count)) <= total(values),
    decreases values.len() - count,
{
    if count == values.len() {
        assert(values.take(count) =~= values);
        lemma_total_at_least(values, 0);
        assert(values.len() * 0 == 0) by (nonlinear_arith);
    } else {
        lemma_total_take_bounded(values, count + 1);
        lemma_total_take(values, count);
        let front = values.take(count);
        assert forall|i: int| 0 <= i < front.len() implies #[trigger] front[i] >= 0 by {
            assert(front[i] == values[i]);
        }
        lemma_total_at_least(front, 0);
        assert(front.len() * 0 == 0) by (nonlinear_arith);
    }
}

/// Replacing one value moves the total by the difference.
pub proof fn lemma_total_update(values: Seq<int>, index: int, value: int)
    requires
        0 <= index < values.len(),
    ensures
        total(values.update(index, value)) == total(values) - values[index] + value,
    decreases values.len(),
{
    let changed = values.update(index, value);
    if index == values.len() - 1 {
        assert(changed.drop_last() =~= values.drop_last());
    } else {
        lemma_total_update(values.drop_last(), index, value);
        assert(changed.drop_last() =~= values.drop_last().update(index, value));
    }
}

/// The total of a sum taken index by index is the sum of the totals.
pub proof fn lemma_total_sum(left: Seq<int>, right: Seq<int>)
    requires
        left.len() == right.len(),
    ensures
        total(Seq::new(left.len(), |i: int| left[i] + right[i])) == total(left) + total(right),
    decreases left.len(),
{
    let both = Seq::new(left.len(), |i: int| left[i] + right[i]);
    if left.len() > 0 {
        lemma_total_sum(left.drop_last(), right.drop_last());
        let front = Seq::new(
            left.drop_last().len(),
            |i: int| left.drop_last()[i] + right.drop_last()[i],
        );
        assert(both.drop_last() =~= front);
    }
}

/// Where every value is at least `floor`, the total is at least `floor` taken
/// once for each value.
pub proof fn lemma_total_at_least(values: Seq<int>, floor: int)
    requires
        forall|i: int| 0 <= i < values.len() ==> #[trigger] values[i] >= floor,
    ensures
        total(values) >= values.len() * floor,
    decreases values.len(),
{
    if values.len() > 0 {
        let front = values.drop_last();
        assert forall|i: int| 0 <= i < front.len() implies #[trigger] front[i] >= floor by {
            assert(front[i] == values[i]);
        }
        lemma_total_at_least(front, floor);
        assert(values.last() >= floor);
        assert(values.len() * floor == front.len() * floor + floor) by (nonlinear_arith)
            requires
                values.len() == front.len() + 1,
        ;
    } else {
        assert(values.len() * floor == 0) by (nonlinear_arith)
            requires
                values.len() == 0,
        ;
    }
}

/// Where no value is negative, no value exceeds the total.
pub proof fn lemma_total_covers(values: Seq<int>, index: int)
    requires
        forall|i: int| 0 <= i < values.len() ==> #[trigger] values[i] >= 0,
        0 <= index < values.len(),
    ensures
        0 <= values[index] <= total(values),
    decreases values.len(),
{
    let front = values.drop_last();
    assert forall|i: int| 0 <= i < front.len() implies #[trigger] front[i] >= 0 by {
        assert(front[i] == values[i]);
    }
    lemma_total_at_least(front, 0);
    assert(front.len() * 0 == 0) by (nonlinear_arith);
    assert(values.last() >= 0);
    if index < values.len() - 1 {
        lemma_total_covers(front, index);
        assert(front[index] == values[index]);
    }
}

/// Where no value is positive and the total is zero, every value is zero.
pub proof fn lemma_total_zero_from_above(values: Seq<int>, index: int)
    requires
        forall|i: int| 0 <= i < values.len() ==> #[trigger] values[i] <= 0,
        total(values) == 0,
        0 <= index < values.len(),
    ensures
        values[index] == 0,
{
    let flipped = Seq::new(values.len(), |i: int| 0 - values[i]);
    let both = Seq::new(values.len(), |i: int| values[i] + flipped[i]);
    lemma_total_sum(values, flipped);
    assert forall|i: int| 0 <= i < both.len() implies #[trigger] both[i] >= 0 by {}
    assert forall|i: int| 0 <= i < both.len() implies #[trigger] both[i] <= 0 by {}
    lemma_total_at_least(both, 0);
    assert(both =~= zeros(values.len()));
    lemma_total_zeros(values.len());
    assert forall|i: int| 0 <= i < flipped.len() implies #[trigger] flipped[i] >= 0 by {}
    lemma_total_covers(flipped, index);
}

/// Where no value is negative and the total is zero, every value is zero.
pub proof fn lemma_total_zero_from_below(values: Seq<int>, index: int)
    requires
        forall|i: int| 0 <= i < values.len() ==> #[trigger] values[i] >= 0,
        total(values) == 0,
        0 <= index < values.len(),
    ensures
        values[index] == 0,
{
    lemma_total_covers(values, index);
}

/// A sequence of zeros sums to zero.
pub proof fn lemma_total_zeros(count: nat)
    ensures
        total(zeros(count)) == 0,
    decreases count,
{
    if count > 0 {
        lemma_total_zeros((count - 1) as nat);
        assert(zeros(count).drop_last() =~= zeros((count - 1) as nat));
    }
}

/// One selection leaves the sum of the scores where it was: what the weights
/// add, the correction of the winner takes away.
pub proof fn lemma_step_keeps_total(weights: Seq<int>, scores: Seq<int>)
    requires
        weights.len() == scores.len(),
        scores.len() > 0,
    ensures
        total(step(weights, scores)) == total(scores),
{
    lemma_winner(scores);
    let raised = Seq::new(scores.len(), |i: int| scores[i] + weights[i]);
    lemma_total_sum(scores, weights);
    let first = winner(scores);
    lemma_total_update(raised, first, raised[first] - total(weights));
    assert(step(weights, scores) =~= raised.update(first, raised[first] - total(weights)));
}

/// Scores that sum to zero have a largest score that is not negative.
pub proof fn lemma_largest_is_not_negative(scores: Seq<int>)
    requires
        scores.len() > 0,
        total(scores) == 0,
    ensures
        scores[winner(scores)] >= 0,
{
    lemma_winner(scores);
    let first = winner(scores);
    if scores[first] < 0 {
        let flipped = Seq::new(scores.len(), |i: int| 0 - scores[i]);
        let both = Seq::new(scores.len(), |i: int| scores[i] + flipped[i]);
        lemma_total_sum(scores, flipped);
        assert(both =~= zeros(scores.len()));
        lemma_total_zeros(scores.len());
        assert forall|i: int| 0 <= i < flipped.len() implies #[trigger] flipped[i] >= 1 by {
            assert(scores[i] <= scores[first]);
        }
        lemma_total_at_least(flipped, 1);
        assert(flipped.len() * 1 == flipped.len()) by (nonlinear_arith);
    }
}

} // verus!
