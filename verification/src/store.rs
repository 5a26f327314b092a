//! The maps a selector keeps its per-candidate data in.
//!
//! `DashMap` is not verified here. What this module says of it is taken on
//! trust from its source: a map from keys to values that `new` makes empty,
//! `insert` extends or overwrites at one key, and `get` reads at one key. All
//! writes go through `&mut`, so that nobody else can hold a reference into the
//! map while it changes.

use dashmap::DashMap;
use vstd::prelude::*;
use crate::counter::WeightedRoundRobin;

verus! {

/// `dashmap::DashMap`, taken as it is. The proofs see nothing inside a map
/// but what the two names below say it holds.
#[verifier::external_type_specification]
#[verifier::external_body]
#[verifier::reject_recursive_types(K)]
#[verifier::reject_recursive_types(V)]
#[verifier::reject_recursive_types(S)]
pub struct ExDashMap<K, V, S>(DashMap<K, V, S>);

/// What a map of weights holds: the weight stored under each index.
pub uninterp spec fn weight_entries(weights: DashMap<usize, usize>) -> Map<usize, usize>;

/// What a map of scheduling states holds: the state stored under each index.
pub uninterp spec fn counter_entries(counters: DashMap<usize, WeightedRoundRobin>) -> Map<
    usize,
    WeightedRoundRobin,
>;

/// `DashMap::new`, for weights: the map it returns holds nothing.
#[verifier::external_body]
pub(crate) fn weights_new() -> (fresh: DashMap<usize, usize>)
    ensures
        weight_entries(fresh).dom() == Set::<usize>::empty(),
{
    DashMap::new()
}

/// `DashMap::insert`, for weights: afterwards the map holds `weight` under
/// `index` and, under every other index, what it held before. The value that
/// was replaced, if any, is dropped.
#[verifier::external_body]
pub(crate) fn weights_insert(weights: &mut DashMap<usize, usize>, index: usize, weight: usize)
    ensures
        weight_entries(*final(weights)) == weight_entries(*old(weights)).insert(index, weight),
{
    weights.insert(index, weight);
}

/// `DashMap::get`, for weights: a copy of the weight held under `index`, or
/// nothing where the map holds none there.
#[verifier::external_body]
pub(crate) fn weights_get(weights: &DashMap<usize, usize>, index: usize) -> (found: Option<usize>)
    ensures
        found == (if weight_entries(*weights).contains_key(index) {
            Some(weight_entries(*weights)[index])
        } else {
            None
        }),
{
    weights.get(&index).map(|entry| *entry.value())
}

/// `DashMap::new`, for scheduling states: the map it returns holds nothing.
#[verifier::external_body]
pub(crate) fn counters_new() -> (fresh: DashMap<usize, WeightedRoundRobin>)
    ensures
        counter_entries(fresh).dom() == Set::<usize>::empty(),
{
    DashMap::new()
}

/// `DashMap::insert`, for scheduling states: afterwards the map holds `state`
/// under `index` and, under every other index, what it held before. The value
/// that was replaced, if any, is dropped.
#[verifier::external_body]
pub(crate) fn counters_insert(
    counters: &mut DashMap<usize, WeightedRoundRobin>,
    index: usize,
    state: WeightedRoundRobin,
)
    ensures
        counter_entries(*final(counters)) == counter_entries(*old(counters)).insert(index, state),
{
    counters.insert(index, state);
}

/// `DashMap::get`, for scheduling states: a copy of the state held under
/// `index`, or nothing where the map holds none there.
#[verifier::external_body]
pub(crate) fn counters_get(counters: &DashMap<usize, WeightedRoundRobin>, index: usize) -> (found:
    Option<WeightedRoundRobin>)
    ensures
        found == (if counter_entries(*counters).contains_key(index) {
            Some(counter_entries(*counters)[index])
        } else {
            None
        }),
{
    counters.get(&index).map(|entry| *entry.value())
}

} // verus!
