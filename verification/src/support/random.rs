//! The seeded generator every probabilistic operator draws from.
use rand::rngs::StdRng;
use rand::Rng;
use vstd::prelude::*;

verus! {

/// `rand::rngs::StdRng`, the seeded PRNG a run's fault injection goes through.
#[verifier::external_type_specification]
#[verifier::external_body]
pub struct ExStdRng(StdRng);

/// `Rng::gen_range` over the inclusive range `low..=high` of `u64`.
///
/// The crate asserts that the range is not empty and samples uniformly within
/// it; the contract states only that the draw lies in the range, since which
/// value comes out depends on the generator's state.
#[verifier::external_body]
pub(crate) fn draw_in_range(rng: &mut StdRng, low: u64, high: u64) -> (value: u64)
    requires
        low <= high,
    ensures
        low <= value <= high,
{
    rng.gen_range(low..=high)
}

} // verus!
