//! The random source that picks where a new tile appears.
use vstd::prelude::*;
use rand::rngs::ThreadRng;
use rand::Rng;

verus! {

#[verifier::external_type_specification]
#[verifier::external_body]
pub struct ExThreadRng(ThreadRng);

/// Relies on rand::thread_rng: a handle on the generator of this thread.
#[verifier::external_body]
pub(crate) fn new_rng() -> (r: ThreadRng) {
    rand::thread_rng()
}

/// Relies on rand::Rng::gen_range over `0..n`: the value lies in the range,
/// which must not be empty.
#[verifier::external_body]
pub(crate) fn random_below(rng: &mut ThreadRng, n: usize) -> (r: usize)
    requires
        n > 0,
    ensures
        r < n,
{
    rng.gen_range(0..n)
}

} // verus!
