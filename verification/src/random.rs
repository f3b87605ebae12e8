//! The source of random bits.

use vstd::prelude::*;

verus! {

/// `rand::rngs::StdRng`, the generator that the caller seeds. It is handed
/// on to `next_bits` as it is; nothing of its state is read here.
#[verifier::external_type_specification]
#[verifier::external_body]
pub struct ExStdRng(rand::rngs::StdRng);

/// Calls `rand::RngCore::next_u32` on the generator. Nothing is claimed of
/// the 32 bits that come back.
#[verifier::external_body]
pub(crate) fn next_bits(rng: &mut rand::rngs::StdRng) -> (bits: u32) {
    rand::RngCore::next_u32(rng)
}

} // verus!
