//! The two draws the game takes from the thread's random number generator.

use rand::Rng;
use vstd::prelude::*;

verus! {

/// Calls `rand::Rng::gen_range` on `rand::thread_rng()` with the half-open range
/// `low..high`. The call panics on an empty range, which `requires` rules out;
/// what it returns lies in the range. Nothing else is claimed of the value: two
/// calls with the same bounds may differ. This contract is believed, not proved.
#[verifier::external_body]
pub(crate) fn random_in(low: usize, high: usize) -> (r: usize)
    requires
        low < high,
    ensures
        low <= r < high,
{
    rand::thread_rng().gen_range(low..high)
}

/// Calls `rand::Rng::gen` on `rand::thread_rng()` for a `u32`. Nothing is
/// claimed of the value.
#[verifier::external_body]
pub(crate) fn random_u32() -> (r: u32) {
    rand::thread_rng().gen::<u32>()
}

} // verus!
