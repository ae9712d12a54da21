//! The injected source of randomness that every generation algorithm draws
//! from.  Seeding it explicitly makes a whole generation run reproducible.

use rand::Rng;
use rand::SeedableRng;
use vstd::prelude::*;

verus! {

#[verifier::external_type_specification]
#[verifier::external_body]
pub struct ExStdRng(rand::rngs::StdRng);

/// A stateful uniform generator, passed into each algorithm invocation
/// rather than drawn from ambient global state.
pub struct RandomSource {
    rng: rand::rngs::StdRng,
}

impl RandomSource {
    /// Relies on rand's `SeedableRng::from_entropy` for `StdRng`: a generator
    /// seeded from the operating system, for non-reproducible runs.  It
    /// aborts only when the operating system cannot supply entropy, a
    /// condition no argument controls.
    #[verifier::external_body]
    pub fn new() -> (r: RandomSource) {
        RandomSource { rng: rand::rngs::StdRng::from_entropy() }
    }

    /// Relies on rand's `SeedableRng::seed_from_u64` for `StdRng`: the same
    /// seed always yields the same generator state, so a fixed seed makes a
    /// generation run deterministic.
    #[verifier::external_body]
    pub fn from_seed(seed: u64) -> (r: RandomSource) {
        RandomSource { rng: rand::rngs::StdRng::seed_from_u64(seed) }
    }

    /// Relies on rand's `Rng::gen_range` over `0..n`: the draw lies below
    /// `n`.  Nothing further is assumed of it; to the verified callers two
    /// draws on equal arguments may differ.
    #[verifier::external_body]
    pub(crate) fn below(&mut self, n: usize) -> (r: usize)
        requires
            n > 0,
        ensures
            r < n,
    {
        self.rng.gen_range(0..n)
    }

    /// A fair coin: true or false, nothing more stated.
    pub(crate) fn coin(&mut self) -> (r: bool) {
        self.below(2) == 0
    }
}

} // verus!
