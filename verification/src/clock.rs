//! The wall clock.

use chrono::Local;
use vstd::prelude::*;

verus! {

/// `Local::now().timestamp()`: the seconds, by the machine's clock, since the
/// start of 1970. Nothing is claimed of the number: it changes from call to
/// call and can go backwards. chrono gives up on a clock set before 1970.
#[verifier::external_body]
pub(crate) fn unix_seconds_now() -> (now: i64) {
    Local::now().timestamp()
}

} // verus!
