//! The pseudo-random number generator behind tree construction and the
//! random colour walk: a xoshiro128++ stream, used through a small set of
//! trusted declarations.
//!
//! The generator's draws are opaque to the proofs: every contract here
//! states only what holds of any outcome, never which outcome comes.

use vstd::prelude::*;

use rand::Rng;
use rand_xoshiro::Xoshiro128PlusPlus;

verus! {

#[verifier::external_type_specification]
#[verifier::external_body]
pub struct ExXoshiro(Xoshiro128PlusPlus);

/// Relies on `Xoshiro128PlusPlus::seed_from_u64`, which expands the seed
/// through SplitMix64 into the generator's initial state.
#[verifier::external_body]
pub fn seed_rng(seed: u64) -> Xoshiro128PlusPlus {
    rand_xoshiro::rand_core::SeedableRng::seed_from_u64(seed)
}

/// Relies on the derived `Clone` of `Xoshiro128PlusPlus`, which copies the
/// generator's state.
#[verifier::external_body]
pub fn clone_rng(rng: &Xoshiro128PlusPlus) -> (r: Xoshiro128PlusPlus)
    ensures
        r == *rng,
{
    rng.clone()
}

/// The generator state `jump` steps a state to: a pure function of the
/// four state words, advancing as far as 2^64 draws would.
pub uninterp spec fn jump_of(s: Xoshiro128PlusPlus) -> Xoshiro128PlusPlus;

/// The generator state `long_jump` steps a state to: a pure function of
/// the four state words, advancing as far as 2^96 draws would.
pub uninterp spec fn long_jump_of(s: Xoshiro128PlusPlus) -> Xoshiro128PlusPlus;

/// Relies on `Xoshiro128PlusPlus::jump`, which advances the state as far
/// as 2^64 draws would, giving a non-overlapping substream; the new
/// state is a pure function of the old one.
#[verifier::external_body]
pub fn jump_rng(rng: &mut Xoshiro128PlusPlus)
    ensures
        *final(rng) == jump_of(*old(rng)),
{
    rng.jump()
}

/// Relies on `Xoshiro128PlusPlus::long_jump`, which advances the state
/// as far as 2^96 draws would, giving a non-overlapping substream; the
/// new state is a pure function of the old one.
#[verifier::external_body]
pub fn long_jump_rng(rng: &mut Xoshiro128PlusPlus)
    ensures
        *final(rng) == long_jump_of(*old(rng)),
{
    rng.long_jump()
}

/// Relies on `Rng::gen_range` over a half-open `u8` range: the draw lies
/// in the range, and only an empty range would panic.
#[verifier::external_body]
pub fn rand_range_u8(rng: &mut Xoshiro128PlusPlus, min: u8, max: u8) -> (r: u8)
    requires
        min < max,
    ensures
        min <= r < max,
{
    rng.gen_range(min..max)
}

/// Relies on `Rng::gen_range` over `0..len`: the draw is a valid index,
/// and only an empty range would panic.
#[verifier::external_body]
pub fn rand_index(rng: &mut Xoshiro128PlusPlus, len: usize) -> (r: usize)
    requires
        len > 0,
    ensures
        r < len,
{
    rng.gen_range(0..len)
}

} // verus!
