//! A small deterministic pseudo-random generator.
//!
//! Every pseudo-random choice of the solver is drawn from a generator that is
//! seeded explicitly, so that a run can be repeated exactly.
use vstd::prelude::*;

verus! {

/// Multiplier of the 64-bit linear congruential generator.
pub const LCG_MULTIPLIER: u64 = 6364136223846793005;

/// Increment of the 64-bit linear congruential generator.
pub const LCG_INCREMENT: u64 = 1442695040888963407;

/// The state that follows `state`.
pub open spec fn next_state(state: u64) -> u64 {
    state.wrapping_mul(LCG_MULTIPLIER).wrapping_add(LCG_INCREMENT)
}

/// The 32 bits that a generator in state `state` hands out: the upper half of the state.
pub open spec fn output_bits(state: u64) -> u64 {
    state / 0x1_0000_0000
}

/// The state of a generator after `draws` draws of 32 bits, starting from `state`.
pub open spec fn advance(state: u64, draws: nat) -> u64
    decreases draws,
{
    if draws == 0 {
        state
    } else {
        next_state(advance(state, (draws - 1) as nat))
    }
}

/// The 64-bit value made of two successive draws, first draw in the upper half.
pub open spec fn wide_value(state: u64) -> u64 {
    (output_bits(next_state(state)) * 0x1_0000_0000 + output_bits(next_state(next_state(state)))) as u64
}

/// The state in which a generator seeded with `seed` starts.
pub open spec fn seeded(seed: u64) -> u64 {
    next_state(seed)
}

/// A linear congruential generator over 64-bit states.
#[derive(Debug)]
pub struct Rng {
    state: u64,
}

impl View for Rng {
    type V = u64;

    closed spec fn view(&self) -> u64 {
        self.state
    }
}

impl Rng {
    /// A generator seeded with `seed`.
    pub fn new(seed: u64) -> (r: Rng)
        ensures
            r@ == seeded(seed),
    {
        Rng { state: seed.wrapping_mul(LCG_MULTIPLIER).wrapping_add(LCG_INCREMENT) }
    }

    /// Draws 32 pseudo-random bits.
    pub fn next_u32(&mut self) -> (r: u32)
        ensures
            final(self)@ == next_state(old(self)@),
            r == output_bits(final(self)@),
    {
        self.state = self.state.wrapping_mul(LCG_MULTIPLIER).wrapping_add(LCG_INCREMENT);
        (self.state / 0x1_0000_0000) as u32
    }

    /// Draws 64 pseudo-random bits, as two draws of 32.
    pub fn next_u64(&mut self) -> (r: u64)
        ensures
            final(self)@ == advance(old(self)@, 2),
            r == wide_value(old(self)@),
    {
        let hi: u32 = self.next_u32();
        let lo: u32 = self.next_u32();
        proof {
            reveal_with_fuel(advance, 3);
        }
        (hi as u64) * 0x1_0000_0000 + (lo as u64)
    }

    /// Draws an index below `bound`.
    pub fn next_below(&mut self, bound: usize) -> (r: usize)
        requires
            bound > 0,
        ensures
            final(self)@ == advance(old(self)@, 2),
            r == wide_value(old(self)@) % (bound as u64),
            r < bound,
    {
        let wide: u64 = self.next_u64();
        (wide % (bound as u64)) as usize
    }
}

} // verus!
