//! The one place where chance enters a run.

use rand::Rng;
use vstd::prelude::*;

verus! {

/// Draws a number from `0 .. bound`.
///
/// Trusted: calls `gen_range` of `rand` on the generator of the current
/// thread (`rand::thread_rng`). `gen_range` panics on an empty range, which
/// `bound > 0` rules out, and returns a value of the range it is given.
/// Nothing is claimed of which value comes back: two calls may differ.
#[verifier::external_body]
pub(crate) fn uniform_below(bound: u64) -> (r: u64)
    requires
        bound > 0,
    ensures
        r < bound,
{
    rand::thread_rng().gen_range(0..bound)
}

} // verus!
