use vstd::prelude::*;
use rand::rngs::StdRng;
use rand::{Rng, SeedableRng};

verus! {

/// rand's standard generator, carried opaquely by the searches.
#[verifier::external_type_specification]
#[verifier::external_body]
pub struct ExStdRng(StdRng);

/// Relies on rand's `SeedableRng::seed_from_u64` for `StdRng`: a generator
/// whose stream is fixed by the seed.
#[verifier::external_body]
pub(crate) fn seeded_rng(seed: u64) -> StdRng {
    StdRng::seed_from_u64(seed)
}

/// Relies on rand's `Rng::gen_range` over `0..n`: a value inside the
/// range, which it panics on only when the range is empty.
#[verifier::external_body]
pub(crate) fn random_below(rng: &mut StdRng, n: usize) -> (r: usize)
    requires
        n > 0,
    ensures
        r < n,
{
    rng.gen_range(0..n)
}

} // verus!
