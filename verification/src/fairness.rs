//! What the schedule guarantees over many selections.

use vstd::arithmetic::div_mod::{lemma_fundamental_div_mod, lemma_mod_pos_bound};
use vstd::arithmetic::mul::lemma_mul_is_commutative;
use vstd::prelude::*;
use crate::balance::{balanced, lemma_step_balanced, lemma_zeros_balanced};
use crate::schedule::{
    advance, is_first_maximum, lemma_largest_is_not_negative, lemma_total_covers,
    lemma_total_zero_from_above, lemma_total_zero_from_below, lemma_winner, picks, step,
    times_picked, total, winner, zeros,
};

verus! {

/// Selections keep the number of scores.
pub proof fn lemma_advance_len(weights: Seq<int>, scores: Seq<int>, count: nat)
    ensures
        advance(weights, scores, count).len() == scores.len(),
    decreases count,
{
    if count > 0 {
        lemma_advance_len(weights, scores, (count - 1) as nat);
    }
}

/// Selections take a balanced schedule to a balanced schedule.
pub proof fn lemma_advance_balanced(weights: Seq<int>, scores: Seq<int>, count: nat)
    requires
        forall|i: int| 0 <= i < weights.len() ==> #[trigger] weights[i] >= 0,
        balanced(weights, scores),
    ensures
        balanced(weights, advance(weights, scores, count)),
    decreases count,
{
    if count > 0 {
        lemma_advance_balanced(weights, scores, (count - 1) as nat);
        lemma_step_balanced(weights, advance(weights, scores, (count - 1) as nat));
    }
}

/// Counting over two runs of picks put end to end adds the two counts.
pub proof fn lemma_times_picked_concat(front: Seq<int>, back: Seq<int>, index: int)
    ensures
        times_picked(front + back, index) == times_picked(front, index) + times_picked(
            back,
            index,
        ),
    decreases back.len(),
{
    if back.len() == 0 {
        assert(front + back =~= front);
    } else {
        lemma_times_picked_concat(front, back.drop_last(), index);
        assert((front + back).drop_last() =~= front + back.drop_last());
        assert((front + back).last() == back.last());
    }
}

/// Selecting `first + second` times is selecting `first` times and then,
/// from the scores reached, `second` times more.
pub proof fn lemma_advance_split(weights: Seq<int>, scores: Seq<int>, first: nat, second: nat)
    ensures
        advance(weights, scores, first + second) == advance(
            weights,
            advance(weights, scores, first),
            second,
        ),
        picks(weights, scores, first + second) == picks(weights, scores, first) + picks(
            weights,
            advance(weights, scores, first),
            second,
        ),
    decreases second,
{
    let middle = advance(weights, scores, first);
    if second == 0 {
        assert(picks(weights, scores, first) + picks(weights, middle, 0) =~= picks(
            weights,
            scores,
            first,
        ));
    } else {
        let fewer = (second - 1) as nat;
        lemma_advance_split(weights, scores, first, fewer);
        assert((first + second - 1) as nat == first + fewer);
        assert(picks(weights, scores, first + second) =~= picks(weights, scores, first) + picks(
            weights,
            middle,
            second,
        ));
    }
}

/// The books of a schedule: after any number of selections a score is what
/// it started from, plus its weight once for each selection, less the total
/// weight once for each time its index was picked.
pub proof fn lemma_account(weights: Seq<int>, scores: Seq<int>, count: nat, index: int)
    requires
        weights.len() == scores.len(),
        0 <= index < scores.len(),
    ensures
        advance(weights, scores, count).len() == scores.len(),
        advance(weights, scores, count)[index] == scores[index] + count * weights[index] - total(
            weights,
        ) * times_picked(picks(weights, scores, count), index),
    decreases count,
{
    lemma_advance_len(weights, scores, count);
    let sum = total(weights);
    if count == 0 {
        assert(count * weights[index] == 0) by (nonlinear_arith)
            requires
                count == 0,
        ;
        assert(sum * 0 == 0) by (nonlinear_arith);
    } else {
        let fewer = (count - 1) as nat;
        let reached = advance(weights, scores, fewer);
        let picked = picks(weights, scores, fewer);
        lemma_account(weights, scores, fewer, index);
        let first = winner(reached);
        assert(picked.push(first).drop_last() =~= picked);
        let times = times_picked(picked, index);
        assert(count * weights[index] == fewer * weights[index] + weights[index])
            by (nonlinear_arith)
            requires
                count == fewer + 1,
        ;
        assert(sum * (times + 1) == sum * times + sum) by (nonlinear_arith);
    }
}

/// From a fresh start and within the first cycle, no index is picked more
/// often than its weight says.
pub proof fn lemma_no_excess(weights: Seq<int>, count: nat)
    requires
        forall|i: int| 0 <= i < weights.len() ==> #[trigger] weights[i] >= 0,
        weights.len() > 0,
        weights[0] > 0,
        count <= total(weights),
    ensures
        forall|i: int|
            0 <= i < weights.len() ==> #[trigger] times_picked(
                picks(weights, zeros(weights.len()), count),
                i,
            ) <= weights[i],
    decreases count,
{
    let fresh = zeros(weights.len());
    let sum = total(weights);
    if count > 0 {
        let fewer = (count - 1) as nat;
        let reached = advance(weights, fresh, fewer);
        let picked = picks(weights, fresh, fewer);
        lemma_no_excess(weights, fewer);
        lemma_zeros_balanced(weights);
        lemma_advance_balanced(weights, fresh, fewer);
        lemma_winner(reached);
        lemma_largest_is_not_negative(reached);
        let first = winner(reached);
        assert(picked.push(first).drop_last() =~= picked);
        assert(times_picked(picked, first) <= weights[first]);
        lemma_account(weights, fresh, fewer, first);
        if times_picked(picked, first) == weights[first] {
            let weight = weights[first];
            assert(reached[first] == fewer * weight - sum * weight);
            assert(fewer * weight - sum * weight == (fewer - sum) * weight) by (nonlinear_arith);
            if weight > 0 {
                assert((fewer - sum) * weight < 0) by (nonlinear_arith)
                    requires
                        fewer - sum < 0,
                        weight > 0,
                ;
            } else {
                assert((fewer - sum) * weight == 0) by (nonlinear_arith)
                    requires
                        weight == 0,
                ;
                assert forall|i: int| 0 <= i < reached.len() implies #[trigger] reached[i]
                    <= 0 by {
                    assert(reached[i] <= reached[first]);
                }
                lemma_total_zero_from_above(reached, 0);
                if first > 0 {
                    assert(reached[0] < reached[first]);
                }
            }
            assert(false);
        }
        assert forall|i: int| 0 <= i < weights.len() implies #[trigger] times_picked(
            picks(weights, fresh, count),
            i,
        ) <= weights[i] by {
            assert(times_picked(picked, i) <= weights[i]);
        }
    }
}

/// From a fresh start, one full cycle (as many selections as the total
/// weight) picks every index exactly as often as its weight says and brings
/// every score back to zero.
pub proof fn lemma_full_cycle(weights: Seq<int>)
    requires
        forall|i: int| 0 <= i < weights.len() ==> #[trigger] weights[i] >= 0,
        weights.len() > 0,
        weights[0] > 0,
    ensures
        total(weights) > 0,
        advance(weights, zeros(weights.len()), total(weights) as nat) == zeros(weights.len()),
        forall|i: int|
            0 <= i < weights.len() ==> #[trigger] times_picked(
                picks(weights, zeros(weights.len()), total(weights) as nat),
                i,
            ) == weights[i],
{
    let fresh = zeros(weights.len());
    let sum = total(weights);
    lemma_total_covers(weights, 0);
    let cycle = sum as nat;
    let reached = advance(weights, fresh, cycle);
    let picked = picks(weights, fresh, cycle);
    lemma_no_excess(weights, cycle);
    lemma_zeros_balanced(weights);
    lemma_advance_balanced(weights, fresh, cycle);
    assert forall|i: int| 0 <= i < reached.len() implies #[trigger] reached[i] >= 0 by {
        lemma_account(weights, fresh, cycle, i);
        let times = times_picked(picked, i);
        assert(times <= weights[i]);
        assert(cycle * weights[i] - sum * times == sum * (weights[i] - times))
            by (nonlinear_arith)
            requires
                cycle == sum,
        ;
        assert(sum * (weights[i] - times) >= 0) by (nonlinear_arith)
            requires
                sum > 0,
                weights[i] - times >= 0,
        ;
    }
    lemma_advance_len(weights, fresh, cycle);
    assert forall|i: int| 0 <= i < reached.len() implies #[trigger] reached[i] == 0 by {
        lemma_total_zero_from_below(reached, i);
    }
    assert forall|i: int| 0 <= i < weights.len() implies #[trigger] times_picked(picked, i)
        == weights[i] by {
        assert(reached[i] == 0);
        lemma_account(weights, fresh, cycle, i);
        let times = times_picked(picked, i);
        assert(times <= weights[i]);
        assert(cycle * weights[i] - sum * times == sum * (weights[i] - times))
            by (nonlinear_arith)
            requires
                cycle == sum,
        ;
        assert(weights[i] - times == 0) by (nonlinear_arith)
            requires
                sum * (weights[i] - times) == 0,
                sum > 0,
        ;
    }
    assert(reached =~= fresh);
}

/// Fair shares. Take weights of which none is negative and, unless all are
/// zero, the first is positive. From a fresh start, any whole number of
/// cycles (a cycle being as many selections as the total weight) picks each
/// index exactly its weight times per cycle, and ends with every score back
/// at zero.
///
/// A first candidate of weight zero beside a positive one is picked once at
/// the very start, before any score has moved, and so gets more than its
/// share: that case is left out.
pub proof fn law_fair_shares(weights: Seq<int>, rounds: nat, index: int)
    requires
        forall|i: int| 0 <= i < weights.len() ==> #[trigger] weights[i] >= 0,
        total(weights) > 0 ==> weights[0] > 0,
        0 <= index < weights.len(),
    ensures
        rounds * total(weights) >= 0,
        advance(weights, zeros(weights.len()), (rounds * total(weights)) as nat) == zeros(
            weights.len(),
        ),
        times_picked(
            picks(weights, zeros(weights.len()), (rounds * total(weights)) as nat),
            index,
        ) == rounds * weights[index],
    decreases rounds,
{
    let fresh = zeros(weights.len());
    let sum = total(weights);
    lemma_total_covers(weights, index);
    if rounds == 0 || sum == 0 {
        assert(rounds * sum == 0) by (nonlinear_arith)
            requires
                rounds == 0 || sum == 0,
        ;
        assert(rounds * weights[index] == 0) by (nonlinear_arith)
            requires
                rounds == 0 || weights[index] == 0,
        ;
    } else {
        let fewer = (rounds - 1) as nat;
        law_fair_shares(weights, fewer, index);
        lemma_full_cycle(weights);
        let done = (fewer * sum) as nat;
        let cycle = sum as nat;
        assert(rounds * sum == fewer * sum + sum) by (nonlinear_arith)
            requires
                rounds == fewer + 1,
        ;
        assert(rounds * weights[index] == fewer * weights[index] + weights[index])
            by (nonlinear_arith)
            requires
                rounds == fewer + 1,
        ;
        assert((rounds * sum) as nat == done + cycle);
        lemma_advance_split(weights, fresh, done, cycle);
        lemma_times_picked_concat(
            picks(weights, fresh, done),
            picks(weights, fresh, cycle),
            index,
        );
    }
}

/// Smoothness. Take weights of which none is negative and the first is
/// positive. From a fresh start and after any number of selections, an index
/// has been picked its weight times for every whole cycle gone by, and at
/// most its weight times more in the cycle under way.
pub proof fn law_share_within_a_cycle(weights: Seq<int>, count: nat, index: int)
    requires
        forall|i: int| 0 <= i < weights.len() ==> #[trigger] weights[i] >= 0,
        0 <= index < weights.len(),
        weights[0] > 0,
    ensures
        total(weights) > 0,
        (count as int / total(weights)) * weights[index] <= times_picked(
            picks(weights, zeros(weights.len()), count),
            index,
        ) <= (count as int / total(weights)) * weights[index] + weights[index],
{
    let fresh = zeros(weights.len());
    let sum = total(weights);
    lemma_total_covers(weights, 0);
    let rounds = count as int / sum;
    let rest = count as int % sum;
    lemma_fundamental_div_mod(count as int, sum);
    lemma_mod_pos_bound(count as int, sum);
    lemma_mul_is_commutative(sum, rounds);
    assert(rounds >= 0) by (nonlinear_arith)
        requires
            count == rounds * sum + rest,
            0 <= rest < sum,
            count >= 0,
    ;
    let done = (rounds * sum) as nat;
    assert(rounds * sum >= 0) by (nonlinear_arith)
        requires
            rounds >= 0,
            sum > 0,
    ;
    law_fair_shares(weights, rounds as nat, index);
    lemma_advance_split(weights, fresh, done, rest as nat);
    lemma_times_picked_concat(
        picks(weights, fresh, done),
        picks(weights, fresh, rest as nat),
        index,
    );
    lemma_no_excess(weights, rest as nat);
    assert(count == done + rest as nat);
}

/// Starvation of weight zero. Where the first weight is positive, a
/// candidate of weight zero is never picked, however long the selections go on.
pub proof fn law_zero_weight_is_starved(weights: Seq<int>, count: nat, index: int)
    requires
        forall|i: int| 0 <= i < weights.len() ==> #[trigger] weights[i] >= 0,
        0 <= index < weights.len(),
        weights[0] > 0,
        weights[index] == 0,
    ensures
        times_picked(picks(weights, zeros(weights.len()), count), index) == 0,
{
    law_share_within_a_cycle(weights, count, index);
    let rounds = count as int / total(weights);
    assert(rounds * weights[index] == 0) by (nonlinear_arith)
        requires
            weights[index] == 0,
    ;
}

/// Ties go to the lower index: of two indices that hold the same score, the
/// later one is never the one picked.
pub proof fn law_tie_goes_to_lower_index(scores: Seq<int>, lower: int, upper: int)
    requires
        0 <= lower < upper < scores.len(),
        scores[lower] == scores[upper],
    ensures
        winner(scores) != upper,
        !is_first_maximum(scores, upper),
{
    lemma_winner(scores);
    if is_first_maximum(scores, upper) {
        assert(scores[lower] < scores[upper]);
    }
}

/// Exactly one index is picked from a non-empty set, and it is one of the
/// set's indices.
pub proof fn law_one_winner(scores: Seq<int>)
    requires
        scores.len() > 0,
    ensures
        0 <= winner(scores) < scores.len(),
        forall|index: int| is_first_maximum(scores, index) <==> index == winner(scores),
{
    lemma_winner(scores);
}

} // verus!
