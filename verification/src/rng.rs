//! Trusted wrappers around the thread-local random number generator.
//!
//! Nothing is assumed about which number comes back beyond its range; all
//! logic that consumes a sample is verified for every value in the range.

use vstd::prelude::*;

verus! {

#[verifier::external_type_specification]
#[verifier::external_body]
pub struct ExThreadRng(rand::rngs::ThreadRng);

/// Relies on rand::thread_rng: hands out the thread-local generator.
#[verifier::external_body]
pub fn new_rng() -> rand::rngs::ThreadRng {
    rand::thread_rng()
}

/// Relies on rand::Rng::gen_range over an inclusive integer range: for
/// `lo <= hi` the range is non-empty, so the call does not panic and the
/// sample lies within the range.
#[verifier::external_body]
pub fn rng_range(rng: &mut rand::rngs::ThreadRng, lo: i64, hi: i64) -> (r: i64)
    requires
        lo <= hi,
    ensures
        lo <= r <= hi,
{
    rand::Rng::gen_range(rng, lo..=hi)
}

} // verus!
