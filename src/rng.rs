//! The pseudo-random generator that fills the region and picks the offset
//! touched in each round.
use rand_core::{RngCore, SeedableRng};
use rand_xorshift::XorShiftRng;
use vstd::prelude::*;

verus! {

#[verifier::external_type_specification]
#[verifier::external_body]
pub struct ExXorShiftRng(XorShiftRng);

/// Relies on `SeedableRng::seed_from_u64` of `rand_xorshift::XorShiftRng`:
/// a generator whose state is derived from `seed`.
#[verifier::external_body]
pub(crate) fn seeded(seed: u64) -> XorShiftRng {
    <XorShiftRng as SeedableRng>::seed_from_u64(seed)
}

/// Relies on `RngCore::next_u64` of `rand_xorshift::XorShiftRng`: the next
/// pseudo-random 64-bit value, which advances the generator.
#[verifier::external_body]
pub(crate) fn next_u64(rng: &mut XorShiftRng) -> u64 {
    rng.next_u64()
}

/// Relies on `RngCore::fill_bytes` of `rand_xorshift::XorShiftRng`: every
/// byte of `dest` is overwritten with pseudo-random data; its length stays.
#[verifier::external_body]
pub(crate) fn fill_bytes(rng: &mut XorShiftRng, dest: &mut [u8])
    ensures
        final(dest)@.len() == old(dest)@.len(),
{
    rng.fill_bytes(dest)
}

} // verus!
