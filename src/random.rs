//! The random source that construction draws from.
use vstd::prelude::*;
use rand::rngs::StdRng;
use rand::Rng;

verus! {

#[verifier::external_type_specification]
#[verifier::external_body]
pub struct ExStdRng(StdRng);

/// Relies on rand's `Rng::gen_range` over the inclusive range `0..=high`,
/// which is never empty: the value drawn lies in that range.
#[verifier::external_body]
pub(crate) fn draw_upto(rng: &mut StdRng, high: usize) -> (r: usize)
    ensures
        r <= high,
{
    rng.gen_range(0..=high)
}

} // verus!
