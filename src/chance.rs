//! The one source of randomness: a uniformly drawn index.

use rand::Rng;
use vstd::prelude::*;

verus! {

/// Relies on `rand::thread_rng().gen_range(0..bound)` (rand 0.8): a value drawn
/// uniformly from `0..bound`. The call panics on an empty range, which the
/// precondition rules out.
#[verifier::external_body]
pub(crate) fn random_index(bound: usize) -> (r: usize)
    requires
        bound > 0,
    ensures
        r < bound,
{
    rand::thread_rng().gen_range(0..bound)
}

} // verus!
