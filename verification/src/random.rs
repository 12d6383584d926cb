//! The source of chance.

use rand::Rng;
use rand::RngCore;
use vstd::prelude::*;

verus! {

/// A number drawn from `0..max`.
///
/// Calls `Rng::gen_range` of the crate `rand` on the generator of the
/// thread, with the bounds `0` and `max`. The crate documents that the
/// outcome lies in the half-open range, and that it panics on an empty
/// one. Nothing else is known of the outcome.
#[verifier::external_body]
pub fn random_usize(max: usize) -> (r: usize)
    requires
        max > 0,
    ensures
        r < max,
{
    rand::thread_rng().gen_range(0, max)
}

/// Fills `buf` with bytes drawn at random.
///
/// Calls `RngCore::fill_bytes` of the crate `rand` on the generator of the
/// thread. Only the length of the buffer is known afterwards.
#[verifier::external_body]
pub fn fill_bytes(buf: &mut [u8])
    ensures
        final(buf)@.len() == old(buf)@.len(),
{
    rand::thread_rng().fill_bytes(buf)
}

/// Whether a candidate is taken into a sample: it is, unless the number
/// drawn for it exceeds the number of places that are still to be filled.
pub fn keeps(draw: usize, to_pick: usize) -> (r: bool)
    ensures
        r == (draw <= to_pick),
{
    draw <= to_pick
}

} // verus!
