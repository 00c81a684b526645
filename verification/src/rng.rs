//! The library's random source: a seeded generator owned by the grid, so
//! that runs are reproducible when callers reuse a seed.

use vstd::prelude::*;

verus! {

/// The random number generator the grid owns.
///
/// Relies on `rand::rngs::StdRng` being an ordinary owned value; the library
/// never looks inside it.
#[verifier::external_type_specification]
#[verifier::external_body]
pub struct ExStdRng(rand::rngs::StdRng);

/// Relies on `rand::SeedableRng::seed_from_u64`: builds a generator whose
/// stream is determined by the seed.
#[verifier::external_body]
pub(crate) fn rng_from_seed(seed: u64) -> rand::rngs::StdRng {
    <rand::rngs::StdRng as rand::SeedableRng>::seed_from_u64(seed)
}

/// Relies on `rand::Rng::gen_range`: a value drawn from `0..n` lies below
/// `n`; the range must be non-empty or the call panics, so `n` is required
/// to be positive. Nothing more is assumed of which value comes back.
#[verifier::external_body]
pub(crate) fn rand_below(rng: &mut rand::rngs::StdRng, n: usize) -> (r: usize)
    requires
        n >= 1,
    ensures
        r < n,
{
    rand::Rng::gen_range(rng, 0..n)
}

} // verus!
