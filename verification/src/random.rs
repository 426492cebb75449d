//! The source of chance for expansion and rollouts.

use vstd::prelude::*;

verus! {

/// Draws an index below `bound` with `rand::random_range` on `0..bound`,
/// which samples the thread-local generator. The draw is not repeatable:
/// all that is claimed of it is that it lies in the range, which is what
/// the generator promises for a range that is not empty.
#[verifier::external_body]
pub(crate) fn random_below(bound: usize) -> (index: usize)
    requires
        bound > 0,
    ensures
        index < bound,
{
    rand::random_range(0..bound)
}

} // verus!
