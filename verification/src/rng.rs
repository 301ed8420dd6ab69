//! The random source: a single capability drawing an integer from a
//! half-open range, used only while placing mines at construction.
use vstd::prelude::*;

verus! {

/// Relies on rand::Rng::gen_range on the half-open range `min..max` with the
/// thread-local generator: the result lies in `[min, max)`. The call panics
/// on an empty range, which `requires` rules out. Nothing is assumed about
/// which value comes back.
#[verifier::external_body]
pub fn random_range(min: usize, max: usize) -> (r: usize)
    requires
        min < max,
    ensures
        min <= r < max,
{
    let mut rng = rand::thread_rng();
    rand::Rng::gen_range(&mut rng, min..max)
}

} // verus!
