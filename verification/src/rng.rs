//! Seeded pseudo-random generation, provided by the `rand` crate behind
//! trusted wrappers. The generator state is opaque; nothing is assumed of
//! the drawn values beyond their range, so everything proved about the
//! search and carving holds for every draw.

use vstd::prelude::*;

verus! {

#[verifier::external_type_specification]
#[verifier::external_body]
pub struct ExStdRng(rand::rngs::StdRng);

/// Relies on rand::SeedableRng::seed_from_u64: builds the deterministic
/// generator for the caller-supplied seed.
#[verifier::external_body]
pub(crate) fn new_rng(seed: u64) -> rand::rngs::StdRng {
    <rand::rngs::StdRng as rand::SeedableRng>::seed_from_u64(seed)
}

/// Relies on rand::Rng::gen_range: returns a value of the given inclusive
/// range, which is never empty here, so the call does not panic.
#[verifier::external_body]
pub(crate) fn rand_index(rng: &mut rand::rngs::StdRng, upper: usize) -> (r: usize)
    ensures
        r <= upper,
{
    rand::Rng::gen_range(rng, 0..=upper)
}

} // verus!
