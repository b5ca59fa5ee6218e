//! The injected source of randomness: a seeded ChaCha20 generator.
use vstd::prelude::*;
use rand::Rng;
use rand::SeedableRng;

verus! {

#[verifier::external_type_specification]
#[verifier::external_body]
pub struct ExChaCha20Rng(rand_chacha::ChaCha20Rng);

/// Relies on `rand::Rng::gen_range` on a half-open `u64` range: the draw lies
/// in `[lo, hi)`; it panics on an empty range, which `requires` rules out.
#[verifier::external_body]
pub fn sample_range(rng: &mut rand_chacha::ChaCha20Rng, lo: u64, hi: u64) -> (r: u64)
    requires
        lo < hi,
    ensures
        lo <= r < hi,
{
    rng.gen_range(lo..hi)
}

/// Relies on `rand_core::SeedableRng::from_entropy` for ChaCha20: a generator
/// seeded from the operating system, which panics only where the system
/// cannot supply entropy.
#[verifier::external_body]
pub fn entropy_rng() -> (r: rand_chacha::ChaCha20Rng) {
    rand_chacha::ChaCha20Rng::from_entropy()
}

} // verus!
