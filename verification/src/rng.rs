//! Randomness, drawn from the `fastrand` crate behind a trusted boundary.

use vstd::prelude::*;

verus! {

#[verifier::external_type_specification]
#[verifier::external_body]
pub struct ExRng(fastrand::Rng);

/// Relies on `fastrand::Rng::isize`: for the non-empty range `0..bound` the
/// result lies within it. Which value comes out is left unconstrained.
#[verifier::external_body]
pub fn rng_isize_below(rng: &mut fastrand::Rng, bound: isize) -> (r: isize)
    requires
        bound > 0,
    ensures
        0 <= r < bound,
{
    rng.isize(0..bound)
}

} // verus!
