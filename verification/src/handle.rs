//! The handle that a selection hands out.

use vstd::prelude::*;

verus! {

/// Exclusive access to the candidate that a selection picked, for as long as
/// the handle lives. It blocks the selector it came from, not the candidate's
/// neighbours in any other structure.
pub struct Selected<'a, T> {
    /// The index of the candidate.
    pub index: usize,
    /// The candidate's value.
    pub value: &'a mut T,
}

impl<'a, T> Selected<'a, T> {
    /// The candidate's value as the handle holds it now.
    pub open spec fn held(&self) -> T {
        *self.value
    }

    /// The index of the candidate.
    pub fn key(&self) -> (index: usize)
        ensures
            index == self.index,
    {
        self.index
    }

    /// The candidate's value, to read.
    pub fn value(&self) -> (value: &T)
        ensures
            *value == self.held(),
    {
        &*self.value
    }

    /// The candidate's value, to change. What the caller leaves in it is what
    /// the selector holds for this candidate afterwards.
    pub fn value_mut(&mut self) -> (value: &mut T)
        ensures
            *value == *old(self).value,
            final(self).index == old(self).index,
            *final(self).value == *final(value),
            *final(final(self).value) == *final(old(self).value),
    {
        &mut *self.value
    }
}

} // verus!
