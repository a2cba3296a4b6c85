//! Draws from the thread-local random number generator.

use vstd::prelude::*;
use rand::Rng;

verus! {

/// Relies on `rand::thread_rng().gen_range(0..=hi)`: a value drawn uniformly
/// from `0..=hi`, a range that is never empty.
#[verifier::external_body]
pub(crate) fn random_up_to(hi: usize) -> (r: usize)
    ensures
        r <= hi,
{
    rand::thread_rng().gen_range(0..=hi)
}

} // verus!
