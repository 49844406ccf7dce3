//! The thread-local random source that the generators draw from.
use rand::Rng;
use vstd::prelude::*;

verus! {

#[verifier::external_type_specification]
#[verifier::external_body]
pub struct ExThreadRng(rand::rngs::ThreadRng);

/// Relies on rand::thread_rng: a handle to this thread's generator. Nothing
/// is promised of what it will produce. It panics only when the operating
/// system's entropy source fails on first use, which no argument decides.
pub assume_specification[ rand::thread_rng ]() -> rand::rngs::ThreadRng;

/// Relies on rand::Rng::gen_range over a half-open `usize` range: the value
/// drawn lies in `[low, high)`. It panics on an empty range, which `requires`
/// rules out.
#[verifier::external_body]
pub(crate) fn gen_index(rng: &mut rand::rngs::ThreadRng, low: usize, high: usize) -> (r: usize)
    requires
        low < high,
    ensures
        low <= r < high,
{
    rng.gen_range(low..high)
}

} // verus!
