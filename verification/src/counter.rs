//! The scheduling state of a single candidate.

use vstd::prelude::*;

verus! {

/// The scheduling state of one candidate: a copy of its weight, the running
/// score that decides who is picked next, and the moment it was last scanned.
///
/// The score moves with two's-complement wrapping, so both updates are
/// defined on every value; a selector keeps its scores far from the ends of
/// the range, where wrapping never happens.
#[derive(Clone, Copy, Debug)]
pub struct WeightedRoundRobin {
    pub weight: i64,
    pub current: i64,
    pub last_update: i64,
}

impl WeightedRoundRobin {
    /// A fresh state for a candidate of the given weight: score zero, never scanned.
    pub fn new_with_weight(weight: i64) -> (fresh: WeightedRoundRobin)
        ensures
            fresh.weight == weight,
            fresh.current == 0,
            fresh.last_update == 0,
    {
        WeightedRoundRobin { weight, current: 0, last_update: 0 }
    }

    /// Adds the weight to the score and returns the score as it was before.
    pub fn increase_current(&mut self) -> (previous: i64)
        ensures
            previous == old(self).current,
            final(self).current == old(self).current.wrapping_add(old(self).weight),
            final(self).weight == old(self).weight,
            final(self).last_update == old(self).last_update,
    {
        let previous: i64 = self.current;
        self.current = previous.wrapping_add(self.weight);
        previous
    }

    /// Lowers the score by `total`, the correction applied to the candidate that was picked.
    pub fn sel(&mut self, total: i64)
        ensures
            final(self).current == old(self).current.wrapping_sub(total),
            final(self).weight == old(self).weight,
            final(self).last_update == old(self).last_update,
    {
        self.current = self.current.wrapping_sub(total);
    }

    /// Records `now` as the moment of the last scan.
    pub fn touch(&mut self, now: i64)
        ensures
            final(self).last_update == now,
            final(self).weight == old(self).weight,
            final(self).current == old(self).current,
    {
        self.last_update = now;
    }
}

} // verus!
