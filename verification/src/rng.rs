//! Access to the random source. All randomized generators draw through
//! `draw_in`, so that their logic is verified for every outcome of a draw.

use vstd::prelude::*;

verus! {

/// The standard seedable generator of the `rand` crate, carried opaquely.
#[verifier::external_type_specification]
#[verifier::external_body]
pub struct ExStdRng(rand::rngs::StdRng);

/// Relies on rand::RngExt::random_range over `lo..hi`: it panics on an empty
/// range and otherwise returns a value of the range. Nothing more is assumed
/// of the draw: callers hold for every value in `[lo, hi)`.
#[verifier::external_body]
pub(crate) fn draw_in(rng: &mut rand::rngs::StdRng, lo: usize, hi: usize) -> (r: usize)
    requires
        lo < hi,
    ensures
        lo <= r < hi,
{
    rand::RngExt::random_range(rng, lo..hi)
}

} // verus!
