//! The explicit source of randomness that sampling and scattering draw from.
use rand::rngs::StdRng;
use rand::{Rng, SeedableRng};
use vstd::prelude::*;

use crate::fixed::ONE;

verus! {

/// rand's standard generator, declared so that a `Sampler` can hold one.
#[verifier::external_type_specification]
#[verifier::external_body]
pub struct ExStdRng(StdRng);

/// Relies on `rand::SeedableRng::seed_from_u64` for `StdRng`: a generator
/// determined by the seed.
#[verifier::external_body]
fn std_rng_from_seed(seed: u64) -> (r: StdRng) {
    StdRng::seed_from_u64(seed)
}

/// Relies on `rand::Rng::gen_range` on an inclusive `i64` range: a value
/// between the two bounds, both included (it panics only on an empty range).
#[verifier::external_body]
fn gen_inclusive(rng: &mut StdRng, lo: i64, hi: i64) -> (r: i64)
    requires
        lo <= hi,
    ensures
        lo <= r <= hi,
{
    rng.gen_range(lo..=hi)
}

/// A random stream, handed explicitly to everything that needs chance.
pub struct Sampler {
    rng: StdRng,
}

impl Sampler {
    /// A stream fixed by `seed`: the same seed gives the same draws.
    pub fn from_seed(seed: u64) -> (r: Sampler) {
        Sampler { rng: std_rng_from_seed(seed) }
    }

    /// A value drawn from `lo..=hi`.
    pub fn between(&mut self, lo: i64, hi: i64) -> (r: i64)
        requires
            lo <= hi,
        ensures
            lo <= r <= hi,
    {
        gen_inclusive(&mut self.rng, lo, hi)
    }

    /// A fixed-point value drawn from `[0, 1]`.
    pub fn unit(&mut self) -> (r: i64)
        ensures
            0 <= r <= ONE,
    {
        self.between(0, ONE)
    }
}

} // verus!
