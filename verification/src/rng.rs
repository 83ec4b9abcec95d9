//! Source of randomness for measurement.

use vstd::prelude::*;

verus! {

/// Relies on `rand::random`: one `u64` drawn uniformly from the thread-local
/// generator, standing for the real number `r / 2^64` in `[0, 1)`.  Nothing
/// can be promised of a random draw, so this contract has no `ensures`;
/// `measure` states what holds of every outcome.
#[verifier::external_body]
pub(crate) fn draw_u64() -> u64 {
    rand::random::<u64>()
}

} // verus!
