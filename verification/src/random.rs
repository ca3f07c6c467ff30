//! The random source. Everything the simulator learns from chance enters
//! through the two functions of this module; no other code touches the
//! generator.

use vstd::prelude::*;

verus! {

/// `rand::rngs::StdRng`, the generator handle that measurement and noise
/// injection draw from. Nothing is known of its state.
#[verifier::external_type_specification]
#[verifier::external_body]
pub struct ExStdRng(rand::rngs::StdRng);

/// Calls `rand::RngCore::next_u64` on the generator and returns the 64 bits
/// it produced. Nothing is claimed about the value.
#[verifier::external_body]
pub(crate) fn next_bits(rng: &mut rand::rngs::StdRng) -> (bits: u64) {
    rand::RngCore::next_u64(rng)
}

/// Calls `rand::Rng::gen_ratio`, a Bernoulli trial that succeeds with
/// probability `numerator / denominator`. The call panics unless
/// `0 < denominator` and `numerator <= denominator`. Claimed: a ratio of zero
/// never succeeds, and a ratio of one always does.
#[verifier::external_body]
pub(crate) fn bernoulli_trial(rng: &mut rand::rngs::StdRng, numerator: u32, denominator: u32) -> (hit: bool)
    requires
        0 < denominator,
        numerator <= denominator,
    ensures
        numerator == 0 ==> !hit,
        numerator == denominator ==> hit,
{
    rand::Rng::gen_ratio(rng, numerator, denominator)
}

} // verus!
