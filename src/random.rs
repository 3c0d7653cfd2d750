//! The random source that the generator, the carver and the hint selector draw on.

use rand::seq::SliceRandom;
use rand::Rng;
use vstd::prelude::*;

verus! {

#[verifier::external_type_specification]
#[verifier::external_body]
pub struct ExThreadRng(rand::rngs::ThreadRng);

/// Relies on rand::thread_rng: a handle to the thread's generator, seeded by the system.
#[verifier::external_body]
pub(crate) fn thread_rng() -> rand::rngs::ThreadRng {
    rand::thread_rng()
}

/// Relies on rand's SliceRandom::shuffle for slices: it only swaps elements,
/// so what comes out is a permutation of what went in.
#[verifier::external_body]
pub(crate) fn shuffle(v: &mut Vec<u8>, rng: &mut rand::rngs::ThreadRng)
    ensures
        final(v)@.to_multiset() == old(v)@.to_multiset(),
{
    v.shuffle(rng)
}

/// Relies on rand's Rng::gen_range over `0..n`: a value in that range; it
/// panics only on an empty range, which `requires` leaves out.
#[verifier::external_body]
pub(crate) fn below(rng: &mut rand::rngs::ThreadRng, n: usize) -> (r: usize)
    requires
        n > 0,
    ensures
        r < n,
{
    rng.gen_range(0..n)
}

} // verus!
