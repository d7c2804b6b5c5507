//! The unit of account.

use vstd::prelude::*;

verus! {

/// One currency unit in micro-units, the unit in which every amount is
/// counted.
pub const UNIT: i64 = 1_000_000;

/// The tolerance of a settlement, in micro-units: a balance no further than
/// this from zero counts as settled.
pub const EPSILON: u64 = 1;

} // verus!
