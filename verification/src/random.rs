//! The random source and the draws that the operators make from it.

use vstd::prelude::*;

verus! {

/// The seedable generator that every operator draws from.
#[verifier::external_type_specification]
#[verifier::external_body]
pub struct ExChaCha8Rng(rand_chacha::ChaCha8Rng);

/// Draws `true` with probability `numerator / denominator`.
///
/// Calls `rand::Rng::gen_ratio`. That function panics when the denominator is
/// zero or smaller than the numerator, which the precondition rules out. It
/// always answers `true` when both numbers are equal and `false` when the
/// numerator is zero; nothing else is claimed of the answer.
#[verifier::external_body]
pub(crate) fn draw_ratio(rng: &mut rand_chacha::ChaCha8Rng, numerator: u32, denominator: u32) -> (hit: bool)
    requires
        numerator <= denominator,
        denominator > 0,
    ensures
        numerator == denominator ==> hit,
        numerator == 0 ==> !hit,
{
    rand::Rng::gen_ratio(rng, numerator, denominator)
}

/// Draws a number from `low..=high`.
///
/// Calls `rand::Rng::gen_range` with a closed range, which panics when the
/// range is empty; the precondition rules that out. The answer lies in the
/// range.
#[verifier::external_body]
pub(crate) fn draw_within(rng: &mut rand_chacha::ChaCha8Rng, low: usize, high: usize) -> (n: usize)
    requires
        low <= high,
    ensures
        low <= n <= high,
{
    rand::Rng::gen_range(rng, low..=high)
}

} // verus!
