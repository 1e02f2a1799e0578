//! A fixed-seed PRNG based on the wyrand algorithm.
//!
//! The focus is to provide a fast implementation that is usable in const
//! context, but not to be cryptographically secure by any means.
use vstd::prelude::*;

verus! {

/// What each step adds to the state.
pub const WYRAND_INCREMENT: u64 = 0xa0761d6478bd642f;

/// What the state is mixed with before the multiplication.
pub const WYRAND_MIX: u64 = 0xe7037ed1a0b428db;

/// The state after one more step.
pub open spec fn next_state(seed: u64) -> u64 {
    ((seed + WYRAND_INCREMENT) % 0x1_0000_0000_0000_0000) as u64
}

/// The number that a step which reaches the state `seed` gives: the 128-bit
/// product of the state and the state mixed with a constant, its high half
/// xor-ed onto its low half.
pub open spec fn wyrand_output(seed: u64) -> u64 {
    let t: int = seed as int * (seed ^ WYRAND_MIX) as int;
    ((t / 0x1_0000_0000_0000_0000) as u64 ^ (t % 0x1_0000_0000_0000_0000) as u64) as u64
}

/// A tiny and fast pseudo-random number generator based on wyrand.
///
/// This must be initialized to a fixed seed which will be the
/// base for random number generation.
#[derive(Clone, Debug)]
pub struct Rng {
    seed: u64,
}

impl Rng {
    /// The current state.
    pub closed spec fn state(&self) -> u64 {
        self.seed
    }

    /// Creates a new RNG given an initial seed.
    pub fn new(seed: u64) -> (r: Self)
        ensures
            r.state() == seed,
    {
        Self { seed }
    }

    /// Generates a pseudo-random [`u64`] value and alters the
    /// internal state.
    ///
    /// This method may be called repeatedly on the same [`Rng`]
    /// instance to produce several random numbers.
    pub fn generate(&mut self) -> (r: u64)
        ensures
            final(self).state() == next_state(old(self).state()),
            r == wyrand_output(final(self).state()),
    {
        self.seed = self.seed.wrapping_add(WYRAND_INCREMENT);
        let a: u128 = self.seed as u128;
        let b: u128 = (self.seed ^ WYRAND_MIX) as u128;
        proof {
            assert(a * b <= 0xffff_ffff_ffff_ffff * 0xffff_ffff_ffff_ffff) by (nonlinear_arith)
                requires
                    a <= 0xffff_ffff_ffff_ffff,
                    b <= 0xffff_ffff_ffff_ffff,
            ;
        }
        let t: u128 = a * b;
        let hi: u128 = t >> 64u32;
        let r = (hi ^ t) as u64;
        proof {
            assert(hi == t / 0x1_0000_0000_0000_0000) by (bit_vector)
                requires
                    hi == t >> 64u32,
            ;
            assert((hi ^ t) as u64 == (hi as u64 ^ t as u64)) by (bit_vector);
            assert(t as u64 == (t % 0x1_0000_0000_0000_0000) as u64) by (bit_vector);
        }
        r
    }
}

} // verus!
