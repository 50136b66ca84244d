//! The seeded random number generator of the `rand` crate, and the one
//! draw that the verified logic makes from it.
use vstd::prelude::*;
use rand::rngs::StdRng;
use rand::{Rng, SeedableRng};

verus! {

/// `rand::rngs::StdRng`, opaque to the proofs.
#[verifier::external_type_specification]
#[verifier::external_body]
pub struct ExStdRng(StdRng);

/// Calls `StdRng::seed_from_u64` (the `SeedableRng` default method of
/// `rand_core`): a generator seeded from `seed`. Nothing is claimed of the
/// generator's state, which the proofs do not see.
#[verifier::external_body]
pub(crate) fn seeded_rng(seed: u64) -> StdRng {
    StdRng::seed_from_u64(seed)
}

/// Calls `Rng::gen_range(0..n)` on the generator: a value drawn uniformly from
/// `0..n`. The claim is only that the value lies in that range; which value
/// comes out depends on the generator's state. `gen_range` panics on an empty
/// range, so `n` must be positive.
#[verifier::external_body]
pub(crate) fn draw_below(rng: &mut StdRng, n: u8) -> (r: u8)
    requires
        n > 0,
    ensures
        r < n,
{
    rng.gen_range(0..n)
}

} // verus!
