//! Random numbers from the `rand` crate. Nothing in this file is proved.

use rand::Rng;
use vstd::prelude::*;

verus! {

/// `rand::rngs::ThreadRng`, the generator that the `rand` crate keeps for each
/// thread. Nothing is known of what is inside a value of this type.
#[verifier::external_type_specification]
#[verifier::external_body]
pub struct ExThreadRng(rand::rngs::ThreadRng);

/// `rand::thread_rng` hands out the calling thread's generator. Nothing is claimed
/// of the generator it returns.
pub assume_specification[ rand::thread_rng ]() -> (rng: rand::rngs::ThreadRng);

/// `Rng::gen_range` on the range `0..n`. The call panics on an empty range, so `n`
/// must be positive; the number that comes back lies in the range. Which number it
/// is depends on chance, and nothing more is claimed of it.
#[verifier::external_body]
pub(crate) fn pick_below(rng: &mut rand::rngs::ThreadRng, n: usize) -> (k: usize)
    requires
        n > 0,
    ensures
        k < n,
{
    rng.gen_range(0..n)
}

} // verus!
