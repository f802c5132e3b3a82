//! Access to the thread-local random generator of the `rand` crate.
//!
//! Nothing is promised of a drawn value beyond its range: callers must hold
//! for every outcome.

use vstd::prelude::*;

verus! {

#[verifier::external_type_specification]
#[verifier::external_body]
pub struct ExThreadRng(rand::rngs::ThreadRng);

/// Relies on rand::rng: hands out the thread-local generator.
#[verifier::external_body]
pub(crate) fn fresh_rng() -> rand::rngs::ThreadRng {
    rand::rng()
}

/// Relies on rand::Rng::random_range on a half-open `i32` range: the sample
/// lies in `[lo, hi)`; it panics only on an empty range, which the
/// precondition rules out.
#[verifier::external_body]
pub(crate) fn random_range_i32(rng: &mut rand::rngs::ThreadRng, lo: i32, hi: i32) -> (r: i32)
    requires
        lo < hi,
    ensures
        lo <= r < hi,
{
    rand::Rng::random_range(rng, lo..hi)
}

} // verus!
