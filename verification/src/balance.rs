//! Why the scores stay small: the bounds that keep a schedule inside the
//! machine's integers.

use vstd::arithmetic::div_mod::{lemma_fundamental_div_mod, lemma_mod_pos_bound};
use vstd::prelude::*;
use crate::schedule::{
    is_first_maximum, lemma_largest_is_not_negative, lemma_step_keeps_total,
    lemma_total_at_least, lemma_total_covers, lemma_total_update, lemma_total_zeros, lemma_winner,
    step, total, winner, zeros,
};

verus! {

/// Weights a selector can be built from: none is negative, and the total
/// weight, taken once for each candidate, fits a signed 64-bit integer. No
/// score of such a schedule ever leaves that range.
pub open spec fn admissible(weights: Seq<int>) -> bool {
    &&& forall|i: int| 0 <= i < weights.len() ==> #[trigger] weights[i] >= 0
    &&& weights.len() * total(weights) <= i64::MAX
}

/// What holds of the scores between two selections: they sum to zero, and
/// none lies further below zero than the total weight less its own weight.
pub open spec fn balanced(weights: Seq<int>, scores: Seq<int>) -> bool {
    &&& scores.len() == weights.len()
    &&& total(scores) == 0
    &&& forall|i: int|
        0 <= i < scores.len() ==> #[trigger] scores[i] >= weights[i] - total(weights)
}

/// The largest total weight that `count` candidates may share: a total is
/// within the limit exactly when it does not exceed the limit divided by the
/// number of candidates.
pub proof fn lemma_share(count: int, share: int, sum: int)
    requires
        count > 0,
        share == (i64::MAX as int) / count,
        sum >= 0,
    ensures
        (count * sum <= i64::MAX) <==> sum <= share,
{
    let limit = i64::MAX as int;
    lemma_fundamental_div_mod(limit, count);
    lemma_mod_pos_bound(limit, count);
    if sum <= share {
        assert(count * sum <= count * share) by (nonlinear_arith)
            requires
                count > 0,
                sum <= share,
        ;
    } else {
        assert(count * sum >= count * share + count) by (nonlinear_arith)
            requires
                count > 0,
                sum >= share + 1,
        ;
    }
}

/// A schedule nobody has selected from is balanced.
pub proof fn lemma_zeros_balanced(weights: Seq<int>)
    requires
        forall|i: int| 0 <= i < weights.len() ==> #[trigger] weights[i] >= 0,
    ensures
        balanced(weights, zeros(weights.len())),
{
    lemma_total_zeros(weights.len());
    assert forall|i: int| 0 <= i < weights.len() implies #[trigger] zeros(weights.len())[i]
        >= weights[i] - total(weights) by {
        lemma_total_covers(weights, i);
    }
}

/// A selection takes a balanced schedule to a balanced schedule.
pub proof fn lemma_step_balanced(weights: Seq<int>, scores: Seq<int>)
    requires
        forall|i: int| 0 <= i < weights.len() ==> #[trigger] weights[i] >= 0,
        balanced(weights, scores),
    ensures
        balanced(weights, step(weights, scores)),
{
    let next = step(weights, scores);
    if scores.len() > 0 {
        lemma_winner(scores);
        lemma_step_keeps_total(weights, scores);
        lemma_largest_is_not_negative(scores);
        assert forall|i: int| 0 <= i < next.len() implies #[trigger] next[i] >= weights[i]
            - total(weights) by {
            lemma_total_covers(weights, i);
            assert(scores[i] >= weights[i] - total(weights));
        }
    } else {
        assert(next =~= scores);
    }
}

/// In a balanced schedule every score lies between the total weight below
/// zero and the total weight taken once for each of the other candidates.
pub proof fn lemma_balanced_bounds(weights: Seq<int>, scores: Seq<int>, index: int)
    requires
        forall|i: int| 0 <= i < weights.len() ==> #[trigger] weights[i] >= 0,
        balanced(weights, scores),
        0 <= index < scores.len(),
    ensures
        0 <= weights[index] <= total(weights),
        -total(weights) <= scores[index],
        scores[index] + total(weights) <= scores.len() * total(weights),
{
    let sum = total(weights);
    lemma_total_covers(weights, index);
    assert(scores[index] >= weights[index] - sum);
    let rest = scores.update(index, -sum);
    lemma_total_update(scores, index, -sum);
    assert forall|i: int| 0 <= i < rest.len() implies #[trigger] rest[i] >= -sum by {
        if i != index {
            lemma_total_covers(weights, i);
            assert(scores[i] >= weights[i] - sum);
        }
    }
    lemma_total_at_least(rest, -sum);
    assert(rest.len() * (-sum) == -(scores.len() * sum)) by (nonlinear_arith)
        requires
            rest.len() == scores.len(),
    ;
}

/// The first maximum of a balanced schedule is not negative.
pub proof fn lemma_balanced_winner(weights: Seq<int>, scores: Seq<int>, index: int)
    requires
        balanced(weights, scores),
        is_first_maximum(scores, index),
    ensures
        index == winner(scores),
        scores[index] >= 0,
{
    lemma_winner(scores);
    lemma_largest_is_not_negative(scores);
}

} // verus!
