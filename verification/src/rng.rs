//! The engine's only source of randomness: a uniformly distributed
//! integer below a given bound.

use vstd::prelude::*;

verus! {

/// Relies on rand::random_range: for a non-empty range `0..n` it returns a
/// uniformly distributed value of the range, drawn from the thread-local
/// generator, and panics only on an empty range. Nothing beyond membership
/// in the range can be promised of a random result.
#[verifier::external_body]
pub(crate) fn random_below(n: usize) -> (r: usize)
    requires
        n > 0,
    ensures
        r < n,
{
    rand::random_range(0..n)
}

} // verus!
