//! Uniform random integers for initial conditions and spawning.
use rand::Rng;
use vstd::prelude::*;

verus! {

/// Relies on `rand::Rng::gen_range` over a half-open integer range with the
/// thread-local generator: the value lies in `lo .. hi`. It panics on an
/// empty range, which `requires` rules out.
#[verifier::external_body]
pub(crate) fn random_in(lo: i64, hi: i64) -> (r: i64)
    requires
        lo < hi,
    ensures
        lo <= r < hi,
{
    rand::thread_rng().gen_range(lo..hi)
}

} // verus!
