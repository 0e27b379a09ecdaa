//! A seedable pseudorandom source, backed by `rand`'s standard generator.
//!
//! Both graph construction and the annealing optimizer draw from an
//! explicit, injectable generator, so runs can be reproduced by seeding.

use vstd::prelude::*;

verus! {

#[verifier::external_type_specification]
#[verifier::external_body]
pub struct ExStdRng(rand::rngs::StdRng);

/// Relies on `rand::SeedableRng::seed_from_u64`: builds a generator from a
/// 64-bit seed; the same seed always yields the same stream.
#[verifier::external_body]
fn stdrng_from_seed(seed: u64) -> rand::rngs::StdRng {
    <rand::rngs::StdRng as rand::SeedableRng>::seed_from_u64(seed)
}

/// Relies on `rand::Rng::gen_range`: for a non-empty half-open range
/// `lo..hi` it returns a value of the range (it panics on an empty one,
/// which the precondition rules out).
#[verifier::external_body]
fn stdrng_range(rng: &mut rand::rngs::StdRng, lo: u64, hi: u64) -> (r: u64)
    requires
        lo < hi,
    ensures
        lo <= r < hi,
{
    rand::Rng::gen_range(rng, lo..hi)
}

/// An owned pseudorandom generator.  Nothing is promised about the values
/// drawn beyond their range, so every client is verified for every
/// possible stream.
pub struct Rng {
    inner: rand::rngs::StdRng,
}

impl Rng {
    /// A generator reproducing one fixed stream per seed.
    pub fn from_seed(seed: u64) -> Rng {
        Rng { inner: stdrng_from_seed(seed) }
    }

    /// A uniform draw from the half-open range `lo..hi`.
    pub fn next_in(&mut self, lo: u64, hi: u64) -> (r: u64)
        requires
            lo < hi,
        ensures
            lo <= r < hi,
    {
        stdrng_range(&mut self.inner, lo, hi)
    }
}

} // verus!
