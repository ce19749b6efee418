//! The random source: the generator of the `rand` crate, and the one draw
//! that the search makes from it.

use rand::distributions::{Distribution, Uniform};
use rand::rngs::StdRng;
use vstd::prelude::*;

verus! {

/// `rand::rngs::StdRng`, the generator that callers seed and hand in. Nothing
/// is known about its state.
#[verifier::external_type_specification]
#[verifier::external_body]
pub struct ExStdRng(StdRng);

/// One draw from `rand::distributions::Uniform::from(0..bound)` with
/// `Distribution::sample`. The distribution panics on an empty range, so the
/// bound must be positive; what it returns lies in the range. Which number
/// comes is not stated: every use must hold for each of them.
#[verifier::external_body]
pub(crate) fn sample_below(rng: &mut StdRng, bound: usize) -> (drawn: usize)
    requires
        bound > 0,
    ensures
        drawn < bound,
{
    Uniform::from(0..bound).sample(rng)
}

} // verus!
