//! Smooth weighted round robin over a fixed set of candidates.
//!
//! Every candidate carries a non-negative weight. Each selection scans the
//! candidates in index order, hands out the one whose running score is the
//! largest, and then lowers that score by the total weight, so that over a
//! full cycle every candidate is handed out as often as its weight says,
//! evenly interleaved with the others.
//!
//! - `schedule`: the mathematical model, on sequences of integers.
//! - `balance`: the bounds that keep the scores inside the machine's integers.
//! - `fairness`: what the model guarantees over many selections.
//! - `counter`: the scheduling state of one candidate.
//! - `store`, `clock`: the map and the clock, which are used and not verified.
//! - `handle`: what a selection hands out.
//! - `selector`: the selector itself.

pub mod balance;
pub mod clock;
pub mod counter;
pub mod fairness;
pub mod handle;
pub mod schedule;
pub mod selector;
pub mod store;

pub use counter::WeightedRoundRobin;
pub use handle::Selected;
pub use selector::WeightedRoundRobinSelector;
