//! The selector: a fixed set of weighted candidates and the scheduling state
//! that decides which of them is handed out next.

use dashmap::DashMap;
use vstd::prelude::*;
use crate::balance::{
    admissible, balanced, lemma_balanced_bounds, lemma_balanced_winner, lemma_share,
    lemma_step_balanced, lemma_zeros_balanced,
};
use crate::clock::unix_seconds_now;
use crate::counter::WeightedRoundRobin;
use crate::handle::Selected;
use crate::schedule::{
    is_first_maximum, lemma_total_take, lemma_total_take_bounded, lemma_winner, step, total,
    winner, zeros,
};
use crate::store::{
    counter_entries, counters_get, counters_insert, counters_new, weight_entries, weights_get,
    weights_insert, weights_new,
};

verus! {

/// The weights of a list of candidates, in order.
pub open spec fn weights_of<T>(pairs: Seq<(T, usize)>) -> Seq<int> {
    Seq::new(pairs.len(), |i: int| pairs[i].1 as int)
}

/// The values of a list of candidates, in order.
pub open spec fn values_of<T>(pairs: Seq<(T, usize)>) -> Seq<T> {
    Seq::new(pairs.len(), |i: int| pairs[i].0)
}

/// The record of a scan made at `now`: every one of `count` candidates carries that moment.
pub open spec fn stamped(count: nat, now: i64) -> Seq<int> {
    Seq::new(count, |i: int| now as int)
}

/// The score that a map of scheduling states holds for `index`: zero where
/// it holds no state for it yet.
pub open spec fn score_in(states: Map<usize, WeightedRoundRobin>, index: usize) -> int {
    if states.contains_key(index) {
        states[index].current as int
    } else {
        0
    }
}

/// The moment that a map of scheduling states holds for `index`: zero where
/// it holds no state for it yet.
pub open spec fn moment_in(states: Map<usize, WeightedRoundRobin>, index: usize) -> int {
    if states.contains_key(index) {
        states[index].last_update as int
    } else {
        0
    }
}

/// Scans one index at the moment `now`: takes its scheduling state from the
/// map, or a fresh one of the given weight where the map holds none, raises
/// the score by the weight, records the moment, and puts the state back.
/// Returns the score as it was before.
fn increment_and_get_previous(
    counters: &mut DashMap<usize, WeightedRoundRobin>,
    index: usize,
    weight: i64,
    now: i64,
) -> (previous: i64)
    requires
        counter_entries(*old(counters)).contains_key(index) ==> counter_entries(
            *old(counters),
        )[index].weight == weight,
        i64::MIN <= score_in(counter_entries(*old(counters)), index) + weight <= i64::MAX,
    ensures
        previous == score_in(counter_entries(*old(counters)), index),
        counter_entries(*final(counters)) == counter_entries(*old(counters)).insert(
            index,
            (WeightedRoundRobin { weight, current: (previous + weight) as i64, last_update: now }),
        ),
{
    let mut state = match counters_get(counters, index) {
        Some(existing) => existing,
        None => WeightedRoundRobin::new_with_weight(weight),
    };
    let previous: i64 = state.increase_current();
    state.touch(now);
    counters_insert(counters, index, state);
    previous
}

/// Corrects the index that was picked: lowers its score by the total weight.
fn correct(counters: &mut DashMap<usize, WeightedRoundRobin>, index: usize, total_weight: i64)
    requires
        counter_entries(*old(counters)).contains_key(index),
        i64::MIN <= counter_entries(*old(counters))[index].current - total_weight <= i64::MAX,
    ensures
        counter_entries(*final(counters)) == counter_entries(*old(counters)).insert(
            index,
            (WeightedRoundRobin {
                weight: counter_entries(*old(counters))[index].weight,
                current: (counter_entries(*old(counters))[index].current - total_weight) as i64,
                last_update: counter_entries(*old(counters))[index].last_update,
            }),
        ),
{
    let mut state: WeightedRoundRobin = counters_get(counters, index).unwrap();
    state.sel(total_weight);
    counters_insert(counters, index, state);
}

/// A fixed set of candidates, each with a weight, from which `select` hands
/// out one at a time so that over a full cycle each is handed out as often
/// as its weight says.
///
/// A candidate is known by its index, its place in the list the selector was
/// built from. The scheduling state of an index comes into being the first
/// time a selection scans it; until then its score counts as zero.
///
/// Selecting takes the selector by `&mut`: callers that share one between
/// threads serialize their calls, and the candidate handed out is theirs
/// alone for as long as they keep the handle.
///
/// ```text
/// let mut balancer = WeightedRoundRobinSelector::new(vec![("1", 1), ("2", 2)]);
/// for _ in 0..3 {
///     println!("{}", balancer.select().unwrap().value());   // 1, 2, 2
/// }
/// ```
pub struct WeightedRoundRobinSelector<T> {
    size: usize,
    elements: Vec<T>,
    weight_map: DashMap<usize, usize>,
    weighted_round_robin_map: DashMap<usize, WeightedRoundRobin>,
}

impl<T> WeightedRoundRobinSelector<T> {
    /// The number of candidates: zero once the set has been drained.
    pub closed spec fn len(&self) -> nat {
        self.size as nat
    }

    /// The candidates' values, by index.
    pub closed spec fn elements(&self) -> Seq<T> {
        self.elements@
    }

    /// The candidates' weights, by index.
    pub closed spec fn weights(&self) -> Seq<int> {
        Seq::new(self.size as nat, |i: int| weight_entries(self.weight_map)[i as usize] as int)
    }

    /// The candidates' scores, by index: zero for one that was never scanned.
    pub closed spec fn accumulators(&self) -> Seq<int> {
        Seq::new(
            self.size as nat,
            |i: int| score_in(counter_entries(self.weighted_round_robin_map), i as usize),
        )
    }

    /// When each candidate was last scanned, by index: zero for one that never was.
    pub closed spec fn last_updates(&self) -> Seq<int> {
        Seq::new(
            self.size as nat,
            |i: int| moment_in(counter_entries(self.weighted_round_robin_map), i as usize),
        )
    }

    /// The invariant of a selector: every index below the size has a value
    /// and a weight, every scheduling state carries the weight of its index,
    /// the weights are admissible and the scores balanced.
    pub closed spec fn wf(&self) -> bool {
        &&& self.elements@.len() == self.size
        &&& forall|i: usize|
            i < self.size ==> #[trigger] weight_entries(self.weight_map).contains_key(i)
        &&& forall|i: usize|
            i < self.size && #[trigger] counter_entries(self.weighted_round_robin_map).contains_key(
                i,
            ) ==> counter_entries(self.weighted_round_robin_map)[i].weight == weight_entries(
                self.weight_map,
            )[i]
        &&& admissible(self.weights())
        &&& balanced(self.weights(), self.accumulators())
    }

    /// Whether a selector can be built from these candidates: whether their
    /// weights are admissible.
    pub fn accepts(elements_with_weight: &Vec<(T, usize)>) -> (ok: bool)
        ensures
            ok == admissible(weights_of(elements_with_weight@)),
    {
        let ghost weights = weights_of(elements_with_weight@);
        let count: usize = elements_with_weight.len();
        if count == 0 {
            proof {
                assert(0 * total(weights) == 0) by (nonlinear_arith);
            }
            return true;
        }
        let share: u64 = (i64::MAX as u64) / (count as u64);
        let mut sum: u64 = 0;
        let mut i: usize = 0;
        proof {
            assert(weights.take(0) =~= Seq::<int>::empty());
        }
        while i < count
            invariant
                i <= count,
                count == elements_with_weight@.len(),
                count > 0,
                weights == weights_of(elements_with_weight@),
                share == (i64::MAX as int) / (count as int),
                sum == total(weights.take(i as int)),
                sum <= share,
            decreases count - i,
        {
            let weight: usize = elements_with_weight[i].1;
            proof {
                lemma_total_take(weights, i as int);
                lemma_total_take_bounded(weights, i + 1);
            }
            if weight as u64 > share - sum {
                proof {
                    lemma_share(count as int, share as int, total(weights));
                }
                return false;
            }
            sum = sum + weight as u64;
            i += 1;
        }
        proof {
            assert(weights.take(count as int) =~= weights);
            lemma_share(count as int, share as int, total(weights));
        }
        true
    }

    /// `new` where the weights are admissible, and nothing where they are not.
    pub fn try_new(elements_with_weight: Vec<(T, usize)>) -> (made: Option<
        WeightedRoundRobinSelector<T>,
    >)
        ensures
            made is Some <==> admissible(weights_of(elements_with_weight@)),
            made is Some ==> {
                &&& made.unwrap().wf()
                &&& made.unwrap().len() == elements_with_weight@.len()
                &&& made.unwrap().elements() == values_of(elements_with_weight@)
                &&& made.unwrap().weights() == weights_of(elements_with_weight@)
                &&& made.unwrap().accumulators() == zeros(elements_with_weight@.len())
                &&& made.unwrap().last_updates() == zeros(elements_with_weight@.len())
            },
    {
        if Self::accepts(&elements_with_weight) {
            Some(Self::new(elements_with_weight))
        } else {
            None
        }
    }

    /// Builds a selector from the candidates and their weights. The candidate
    /// at place `i` of the list gets index `i`. No scheduling state exists yet:
    /// every score counts as zero.
    pub fn new(elements_with_weight: Vec<(T, usize)>) -> (selector: WeightedRoundRobinSelector<T>)
        requires
            admissible(weights_of(elements_with_weight@)),
        ensures
            selector.wf(),
            selector.len() == elements_with_weight@.len(),
            selector.elements() == values_of(elements_with_weight@),
            selector.weights() == weights_of(elements_with_weight@),
            selector.accumulators() == zeros(elements_with_weight@.len()),
            selector.last_updates() == zeros(elements_with_weight@.len()),
    {
        let ghost pairs = elements_with_weight@;
        let count: usize = elements_with_weight.len();
        let mut elements: Vec<T> = Vec::new();
        let mut weight_map = weights_new();
        let mut i: usize = 0;
        for pair in it: elements_with_weight.into_iter()
            invariant
                it.seq() == pairs,
                pairs.len() == count,
                i == it.index(),
                elements@.len() == i,
                forall|j: int| 0 <= j < i ==> #[trigger] elements@[j] == pairs[j].0,
                forall|j: usize| j < i ==> #[trigger] weight_entries(weight_map).contains_key(j),
                forall|j: usize|
                    j < i ==> #[trigger] weight_entries(weight_map)[j] == pairs[j as int].1,
        {
            let (element, weight) = pair;
            elements.push(element);
            weights_insert(&mut weight_map, i, weight);
            i += 1;
        }
        let selector = WeightedRoundRobinSelector {
            size: i,
            elements,
            weight_map,
            weighted_round_robin_map: counters_new(),
        };
        proof {
            assert(selector.elements() =~= values_of(pairs));
            assert(selector.weights() =~= weights_of(pairs));
            assert(selector.accumulators() =~= zeros(pairs.len()));
            assert(selector.last_updates() =~= zeros(pairs.len()));
            lemma_zeros_balanced(selector.weights());
        }
        selector
    }

    /// One selection, with `now` as the moment recorded for every candidate
    /// scanned. Scans the candidates in index order, picks the first one that
    /// holds the largest score as it was before the scan, raises every score
    /// by its weight and lowers the picked one's by the total weight. An empty
    /// set yields nothing and is left untouched.
    pub fn select_at(&mut self, now: i64) -> (picked: Option<Selected<'_, T>>)
        requires
            old(self).wf(),
        ensures
            final(self).wf(),
            final(self).len() == old(self).len(),
            final(self).weights() == old(self).weights(),
            old(self).len() == 0 ==> picked is None && *final(self) == *old(self),
            old(self).len() > 0 ==> {
                &&& picked is Some
                &&& picked.unwrap().index == winner(old(self).accumulators())
                &&& is_first_maximum(old(self).accumulators(), picked.unwrap().index as int)
                &&& *picked.unwrap().value == old(self).elements()[picked.unwrap().index as int]
                &&& final(self).elements() == old(self).elements().update(
                    picked.unwrap().index as int,
                    *final(picked.unwrap().value),
                )
                &&& final(self).accumulators() == step(
                    old(self).weights(),
                    old(self).accumulators(),
                )
                &&& final(self).last_updates() == stamped(old(self).len(), now)
            },
    {
        let size: usize = self.size;
        if size == 0 {
            return None;
        }
        let ghost weights = self.weights();
        let ghost before = self.accumulators();
        let ghost start = counter_entries(self.weighted_round_robin_map);
        let mut total_weight: i64 = 0;
        let mut max_current: i64 = i64::MIN;
        let mut selected: usize = 0;
        proof {
            assert(weights.take(0) =~= Seq::<int>::empty());
            lemma_balanced_bounds(weights, before, 0);
            assert(1 * total(weights) <= size * total(weights)) by (nonlinear_arith)
                requires
                    size >= 1,
                    total(weights) >= 0,
            ;
        }
        let mut i: usize = 0;
        while i < size
            invariant
                i <= size,
                size > 0,
                self.size == size,
                self.elements@ == old(self).elements@,
                self.weight_map == old(self).weight_map,
                weights == self.weights(),
                weights.len() == size,
                before.len() == size,
                admissible(weights),
                balanced(weights, before),
                total(weights) <= i64::MAX,
                forall|j: usize|
                    j < size ==> #[trigger] weight_entries(self.weight_map).contains_key(j),
                forall|j: usize| j < size ==> before[j as int] == #[trigger] score_in(start, j),
                forall|j: usize|
                    j < size && #[trigger] start.contains_key(j) ==> start[j].weight
                        == weights[j as int],
                forall|j: usize|
                    j < i ==> {
                        &&& #[trigger] counter_entries(self.weighted_round_robin_map).contains_key(
                            j,
                        )
                        &&& counter_entries(self.weighted_round_robin_map)[j].weight
                            == weights[j as int]
                        &&& counter_entries(self.weighted_round_robin_map)[j].current
                            == before[j as int] + weights[j as int]
                        &&& counter_entries(self.weighted_round_robin_map)[j].last_update == now
                    },
                forall|j: usize|
                    i <= j < size ==> {
                        &&& #[trigger] counter_entries(self.weighted_round_robin_map).contains_key(
                            j,
                        ) == start.contains_key(j)
                        &&& start.contains_key(j) ==> counter_entries(
                            self.weighted_round_robin_map,
                        )[j] == start[j]
                    },
                total_weight == total(weights.take(i as int)),
                i == 0 ==> max_current == i64::MIN && selected == 0,
                i > 0 ==> is_first_maximum(before.take(i as int), selected as int) && max_current
                    == before[selected as int],
            decreases size - i,
        {
            let ghost prior = counter_entries(self.weighted_round_robin_map);
            proof {
                lemma_balanced_bounds(weights, before, i as int);
                lemma_total_take(weights, i as int);
                lemma_total_take_bounded(weights, i + 1);
                assert(weight_entries(self.weight_map).contains_key(i));
                assert(prior.contains_key(i) == start.contains_key(i));
                assert(score_in(prior, i) == score_in(start, i));
            }
            let weight_here: usize = weights_get(&self.weight_map, i).unwrap();
            let weight: i64 = weight_here as i64;
            let cur: i64 = increment_and_get_previous(
                &mut self.weighted_round_robin_map,
                i,
                weight,
                now,
            );
            proof {
                let after = counter_entries(self.weighted_round_robin_map);
                assert(cur == before[i as int]);
                assert(after.contains_key(i));
                assert(after[i].weight == weights[i as int]);
                assert(after[i].current == before[i as int] + weights[i as int]);
                assert(after[i].last_update == now);
                assert forall|j: usize| j <= i implies {
                    &&& #[trigger] after.contains_key(j)
                    &&& after[j].weight == weights[j as int]
                    &&& after[j].current == before[j as int] + weights[j as int]
                    &&& after[j].last_update == now
                } by {
                    if j < i {
                        assert(prior.contains_key(j));
                        assert(after[j] == prior[j]);
                    }
                }
                assert forall|j: usize| i < j < size implies {
                    &&& #[trigger] after.contains_key(j) == start.contains_key(j)
                    &&& start.contains_key(j) ==> after[j] == start[j]
                } by {
                    assert(prior.contains_key(j) == start.contains_key(j));
                    assert(after.contains_key(j) == prior.contains_key(j));
                    if prior.contains_key(j) {
                        assert(after[j] == prior[j]);
                    }
                }
                assert(before.take(i + 1)[i as int] == cur);
                if i > 0 {
                    assert(before.take(i as int)[selected as int] == before[selected as int]);
                    assert forall|j: int| 0 <= j < i implies #[trigger] before.take(i + 1)[j]
                        <= max_current by {
                        assert(before.take(i as int)[j] <= before.take(i as int)[selected as int]);
                    }
                    assert forall|j: int| 0 <= j < selected implies #[trigger] before.take(
                        i + 1,
                    )[j] < max_current by {
                        assert(before.take(i as int)[j] < before.take(i as int)[selected as int]);
                    }
                }
            }
            if cur > max_current {
                max_current = cur;
                selected = i;
            }
            total_weight = total_weight + weight;
            i += 1;
        }
        let ghost scanned = counter_entries(self.weighted_round_robin_map);
        proof {
            assert(before.take(size as int) =~= before);
            assert(weights.take(size as int) =~= weights);
            lemma_balanced_winner(weights, before, selected as int);
            lemma_balanced_bounds(weights, before, selected as int);
            lemma_step_balanced(weights, before);
            assert(scanned.contains_key(selected));
        }
        correct(&mut self.weighted_round_robin_map, selected, total_weight);
        proof {
            let after = counter_entries(self.weighted_round_robin_map);
            assert forall|j: usize| j < size implies {
                &&& #[trigger] after.contains_key(j)
                &&& after[j].weight == weights[j as int]
                &&& after[j].last_update == now
                &&& after[j].current == step(weights, before)[j as int]
            } by {
                assert(scanned.contains_key(j));
            }
            assert(self.weights() =~= weights);
            assert(self.accumulators() =~= step(weights, before));
            assert(self.last_updates() =~= stamped(size as nat, now));
        }
        Some(Selected { index: selected, value: &mut self.elements[selected] })
    }

    /// One selection, recorded at the present moment: `select_at` with the
    /// reading of the wall clock. Which candidate is picked and how the scores
    /// move does not depend on the clock; only the moment recorded does.
    pub fn select(&mut self) -> (picked: Option<Selected<'_, T>>)
        requires
            old(self).wf(),
        ensures
            final(self).wf(),
            final(self).len() == old(self).len(),
            final(self).weights() == old(self).weights(),
            old(self).len() == 0 ==> picked is None && *final(self) == *old(self),
            old(self).len() > 0 ==> {
                &&& picked is Some
                &&& picked.unwrap().index == winner(old(self).accumulators())
                &&& is_first_maximum(old(self).accumulators(), picked.unwrap().index as int)
                &&& *picked.unwrap().value == old(self).elements()[picked.unwrap().index as int]
                &&& final(self).elements() == old(self).elements().update(
                    picked.unwrap().index as int,
                    *final(picked.unwrap().value),
                )
                &&& final(self).accumulators() == step(
                    old(self).weights(),
                    old(self).accumulators(),
                )
                &&& exists|now: i64|
                    final(self).last_updates() == #[trigger] stamped(old(self).len(), now)
            },
    {
        let now: i64 = unix_seconds_now();
        self.select_at(now)
    }

    /// Empties the set: hands back every candidate's value, paired with its
    /// index, in index order, and leaves a set of size zero from which nothing
    /// can be selected any more. The weights are not handed back.
    pub fn drain(&mut self) -> (pairs: Vec<(T, usize)>)
        requires
            old(self).wf(),
        ensures
            final(self).wf(),
            final(self).len() == 0,
            pairs@.len() == old(self).len(),
            forall|i: int|
                0 <= i < pairs@.len() ==> #[trigger] pairs@[i] == (
                    old(self).elements()[i],
                    i as usize,
                ),
            forall|i: int, j: int|
                0 <= i < j < pairs@.len() ==> (#[trigger] pairs@[i]).1 != (#[trigger] pairs@[j]).1,
    {
        let size: usize = self.size;
        self.size = 0;
        let mut taken: Vec<T> = Vec::new();
        core::mem::swap(&mut self.elements, &mut taken);
        let ghost values = taken@;
        let mut pairs: Vec<(T, usize)> = Vec::new();
        let mut i: usize = 0;
        for element in it: taken.into_iter()
            invariant
                it.seq() == values,
                values.len() == size,
                i == it.index(),
                pairs@.len() == i,
                forall|j: int| 0 <= j < i ==> #[trigger] pairs@[j] == (values[j], j as usize),
        {
            pairs.push((element, i));
            i += 1;
        }
        proof {
            assert(self.weights() =~= Seq::<int>::empty());
            assert(self.accumulators() =~= Seq::<int>::empty());
            assert(0 * total(self.weights()) == 0) by (nonlinear_arith);
        }
        pairs
    }

    /// Tears the selector down: `drain`, and the selector is gone. Every
    /// candidate comes back once, in index order. Mind the shape of the
    /// pairs: a selector is built from values paired with their weights, and
    /// gives back values paired with their indices.
    pub fn close(self) -> (pairs: Vec<(T, usize)>)
        requires
            self.wf(),
        ensures
            pairs@.len() == self.len(),
            forall|i: int|
                0 <= i < pairs@.len() ==> #[trigger] pairs@[i] == (self.elements()[i], i as usize),
            forall|i: int, j: int|
                0 <= i < j < pairs@.len() ==> (#[trigger] pairs@[i]).1 != (#[trigger] pairs@[j]).1,
    {
        let mut selector = self;
        selector.drain()
    }

    /// The number of candidates.
    pub fn size(&self) -> (size: usize)
        ensures
            size == self.len(),
    {
        self.size
    }

    /// The value of the candidate at `index`, or nothing beyond the last index.
    pub fn get(&self, index: usize) -> (value: Option<&T>)
        requires
            self.wf(),
        ensures
            index < self.len() ==> value == Some(&self.elements()[index as int]),
            index >= self.len() ==> value is None,
    {
        if index < self.size {
            Some(&self.elements[index])
        } else {
            None
        }
    }

    /// The weight of the candidate at `index`, or nothing beyond the last index.
    pub fn weight(&self, index: usize) -> (weight: Option<usize>)
        requires
            self.wf(),
        ensures
            index < self.len() ==> weight is Some && weight.unwrap() == self.weights()[index as int],
            index >= self.len() ==> weight is None,
    {
        if index < self.size {
            proof {
                assert(weight_entries(self.weight_map).contains_key(index));
            }
            weights_get(&self.weight_map, index)
        } else {
            None
        }
    }

    /// The score of the candidate at `index`, or nothing beyond the last index.
    pub fn accumulator(&self, index: usize) -> (score: Option<i64>)
        ensures
            index < self.len() ==> score is Some && score.unwrap()
                == self.accumulators()[index as int],
            index >= self.len() ==> score is None,
    {
        if index < self.size {
            match counters_get(&self.weighted_round_robin_map, index) {
                Some(state) => Some(state.current),
                None => Some(0),
            }
        } else {
            None
        }
    }

    /// The moment the candidate at `index` was last scanned, or nothing
    /// beyond the last index.
    pub fn last_update(&self, index: usize) -> (moment: Option<i64>)
        ensures
            index < self.len() ==> moment is Some && moment.unwrap()
                == self.last_updates()[index as int],
            index >= self.len() ==> moment is None,
    {
        if index < self.size {
            match counters_get(&self.weighted_round_robin_map, index) {
                Some(state) => Some(state.last_update),
                None => Some(0),
            }
        } else {
            None
        }
    }

    /// What `wf` says to the outside: the view has one entry of each kind for
    /// every candidate, the weights are admissible and the scores balanced.
    pub proof fn lemma_wf(&self)
        requires
            self.wf(),
        ensures
            self.elements().len() == self.len(),
            self.weights().len() == self.len(),
            self.accumulators().len() == self.len(),
            self.last_updates().len() == self.len(),
            admissible(self.weights()),
            balanced(self.weights(), self.accumulators()),
    {
    }
}

} // verus!
