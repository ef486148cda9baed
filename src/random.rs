//! Randomness for the cuckoo tables: hash seeds and eviction choices.
use rand::Rng;
use vstd::prelude::*;

verus! {

/// Relies on rand::random: a `u64` drawn from the thread-local generator.
#[verifier::external_body]
pub(crate) fn random_seed() -> u64 {
    rand::random::<u64>()
}

/// Relies on rand::Rng::gen_range: a value of the half-open range
/// `0..bound`, which must not be empty.
#[verifier::external_body]
pub(crate) fn random_below(bound: usize) -> (r: usize)
    requires
        bound > 0,
    ensures
        r < bound,
{
    rand::thread_rng().gen_range(0..bound)
}

} // verus!
