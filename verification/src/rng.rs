//! The sequential random source that is threaded through every generation
//! call, so that a whole dungeon is reproducible from a single seed.

use vstd::prelude::*;

use rand::RngExt;
use rand::SeedableRng;

verus! {

#[verifier::external_type_specification]
#[verifier::external_body]
pub struct ExStdRng(rand::rngs::StdRng);

/// A seedable pseudo-random generator. The generator state is opaque;
/// the library only relies on the ranges stated by the drawing methods.
pub struct RandomSource {
    rng: rand::rngs::StdRng,
}

impl RandomSource {
    /// Relies on rand's `StdRng::seed_from_u64`: builds a generator
    /// deterministically from the given seed and never fails.
    #[verifier::external_body]
    pub fn from_seed(seed: u64) -> (r: RandomSource) {
        RandomSource { rng: rand::rngs::StdRng::seed_from_u64(seed) }
    }

    /// Relies on rand's `RngExt::random_range` over `lo..hi`: returns a
    /// value of the half-open range and panics only when the range is empty.
    #[verifier::external_body]
    pub fn next_in_range(&mut self, lo: i32, hi: i32) -> (r: i32)
        requires
            lo < hi,
        ensures
            lo <= r < hi,
    {
        self.rng.random_range(lo..hi)
    }

    /// Relies on rand's `RngExt::random::<bool>`: returns either truth
    /// value; nothing more is promised of the outcome.
    #[verifier::external_body]
    pub fn next_bool(&mut self) -> (r: bool) {
        self.rng.random::<bool>()
    }
}

} // verus!
