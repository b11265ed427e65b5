//! The random choices the benchmarks make, through the `rand` crate.

use vstd::prelude::*;
use rand::Rng;
use rand::seq::SliceRandom;
use rand::rngs::ThreadRng;

verus! {

#[verifier::external_type_specification]
#[verifier::external_body]
pub struct ExThreadRng(ThreadRng);

/// `rand::thread_rng`: the generator of the calling thread, seeded by the
/// system. Nothing is claimed of its state. The generator panics when the
/// system's entropy source fails (at its first use and when it reseeds),
/// which depends on the system, not on any argument.
#[verifier::external_body]
pub(crate) fn thread_rng() -> ThreadRng {
    rand::thread_rng()
}

/// `SliceRandom::shuffle` on the elements of `v`: claims only that the
/// elements come out in some order, each as often as before.
#[verifier::external_body]
pub(crate) fn shuffle(rng: &mut ThreadRng, v: &mut Vec<u64>)
    ensures
        final(v)@.to_multiset() == old(v)@.to_multiset(),
{
    v.as_mut_slice().shuffle(rng)
}

/// `Rng::gen::<bool>`: a random `bool`; nothing is claimed of which.
#[verifier::external_body]
pub(crate) fn gen_bool(rng: &mut ThreadRng) -> bool {
    rng.gen::<bool>()
}

/// `Rng::gen_range(0..bound)`: claims that the result lies in the range,
/// which must not be empty (the call panics on an empty range).
#[verifier::external_body]
pub(crate) fn gen_below(rng: &mut ThreadRng, bound: u64) -> (r: u64)
    requires
        bound > 0,
    ensures
        r < bound,
{
    rng.gen_range(0..bound)
}

} // verus!
