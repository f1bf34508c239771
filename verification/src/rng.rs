//! The engine's random source, isolated behind one small capability so that
//! everything built on top of it is verified for every value it may yield.

use vstd::prelude::*;

verus! {

/// Relies on `rand::rng` and `rand::RngExt::random_range` on the range
/// `0..n`: returns a uniformly random value of that range, and panics only
/// when the range is empty.
#[verifier::external_body]
pub(crate) fn random_index(n: usize) -> (r: usize)
    requires
        n > 0,
    ensures
        r < n,
{
    rand::RngExt::random_range(&mut rand::rng(), 0..n)
}

} // verus!
