//! Calls into the random number generator.
use vstd::prelude::*;

verus! {

/// Relies on `rand::random_range`: a uniformly drawn value of `0 .. n`; it
/// panics on an empty range, which `n > 0` rules out.
#[verifier::external_body]
pub(crate) fn random_below(n: u64) -> (r: u64)
    requires
        n > 0,
    ensures
        r < n,
{
    rand::random_range(0..n)
}

/// Relies on `rand::random::<u128>`: 128 random bits.
#[verifier::external_body]
pub(crate) fn random_bits() -> u128 {
    rand::random::<u128>()
}

} // verus!
