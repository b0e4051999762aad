//! Draws from a random number generator.

use vstd::prelude::*;
use rand::rngs::StdRng;
use rand::Rng;

verus! {

/// `rand::rngs::StdRng`: a random number generator that can be seeded.
/// Nothing is known of its state.
#[verifier::external_type_specification]
#[verifier::external_body]
pub struct ExStdRng(StdRng);

/// `Rng::gen_ratio`: true with the probability `numerator / denominator`.
/// Nothing is promised of a single draw; the call panics on a denominator of
/// zero and on a numerator above the denominator, which are left out.
#[verifier::external_body]
pub(crate) fn draw_ratio(rng: &mut StdRng, numerator: u32, denominator: u32) -> (hit: bool)
    requires
        0 < denominator,
        numerator <= denominator,
{
    rng.gen_ratio(numerator, denominator)
}

/// `Rng::gen_range` on `0..n`: a number below `n`, each with the same
/// probability. The call panics on an empty range, which is left out.
#[verifier::external_body]
pub(crate) fn draw_below(rng: &mut StdRng, n: usize) -> (r: usize)
    requires
        0 < n,
    ensures
        r < n,
{
    rng.gen_range(0..n)
}

} // verus!
