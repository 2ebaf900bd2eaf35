//! Randomness, drawn through the `rand` crate.
//!
//! Nothing here is proved: each function states what is taken on trust of
//! the call that it makes.

use rand::rngs::{OsRng, StdRng};
use rand::{Rng, RngCore, SeedableRng};
use vstd::prelude::*;

verus! {

/// The standard generator of `rand`. Its state is opaque to the verifier.
#[verifier::external_type_specification]
#[verifier::external_body]
pub struct ExStdRng(StdRng);

/// Calls `StdRng::from_rng` on `OsRng`: a generator seeded by the operating
/// system, or nothing where the system has no entropy to give. Nothing is
/// claimed of the generator.
#[verifier::external_body]
pub(crate) fn entropy_rng() -> Option<StdRng> {
    StdRng::from_rng(OsRng).ok()
}

/// Calls `RngCore::fill_bytes` on the generator for 32 bytes. Nothing is
/// claimed of the bytes.
#[verifier::external_body]
pub(crate) fn rng_bytes(rng: &mut StdRng) -> [u8; 32] {
    let mut bytes = [0u8; 32];
    rng.fill_bytes(&mut bytes);
    bytes
}

/// Calls `Rng::gen_range` on the generator for the range from zero up to
/// `bound`, which must not be empty. Claimed: the number drawn lies in the range.
#[verifier::external_body]
pub(crate) fn rng_index(rng: &mut StdRng, bound: usize) -> (i: usize)
    requires
        bound > 0,
    ensures
        i < bound,
{
    rng.gen_range(0..bound)
}

} // verus!
