//! Random draws that the hierarchy builder makes, through `rand`.
use rand::rngs::StdRng;
use rand::Rng;
use vstd::prelude::*;

verus! {

#[verifier::external_type_specification]
#[verifier::external_body]
pub struct ExStdRng(StdRng);

/// Relies on rand's `Rng::gen_range` over the inclusive range `0..=2`: the
/// value drawn lies in that range, and as the range is not empty the call
/// does not panic.
#[verifier::external_body]
pub(crate) fn random_axis(rng: &mut StdRng) -> (r: usize)
    ensures
        r < 3,
{
    rng.gen_range(0..=2usize)
}

} // verus!
