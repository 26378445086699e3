//! The pseudo-random source of the `?` command.

use vstd::prelude::*;
use rand::rngs::SmallRng;
use rand::Rng;
use rand::SeedableRng;

verus! {

#[verifier::external_type_specification]
#[verifier::external_body]
pub struct ExSmallRng(SmallRng);

/// Relies on rand's `SeedableRng::seed_from_u64` for `SmallRng`: a fast
/// generator whose sequence depends on the seed.
#[verifier::external_body]
pub(crate) fn seeded_rng(seed: u64) -> SmallRng {
    SmallRng::seed_from_u64(seed)
}

/// Relies on rand's `Rng::gen_range`: a number drawn uniformly from `0..4`.
#[verifier::external_body]
pub(crate) fn random_index(rng: &mut SmallRng) -> (r: u32)
    ensures
        r < 4,
{
    rng.gen_range(0..4u32)
}

} // verus!
