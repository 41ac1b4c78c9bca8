//! The seedable source of uniform random draws used by the rounding stage.
//! All fractions in the scheduler are fixed-point numbers over `SCALE`
//! units, one unit standing for one millionth.

use vstd::prelude::*;

verus! {

/// The fixed-point scale: probabilities and LP values range over
/// `0 ..= SCALE`.
pub const SCALE: u64 = 1_000_000;

#[verifier::external_type_specification]
#[verifier::external_body]
pub struct ExStdRng(rand::rngs::StdRng);

/// Relies on rand's `RngExt::random_range`: returns a value drawn from the
/// given non-empty range, here `0 .. SCALE`.
#[verifier::external_body]
pub(crate) fn draw_unit(rng: &mut rand::rngs::StdRng) -> (r: u64)
    ensures
        r < SCALE,
{
    rand::RngExt::random_range(rng, 0u64..SCALE)
}

} // verus!
