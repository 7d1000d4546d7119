use vstd::prelude::*;

verus! {

/// The step that the generator's state advances by on each draw.
pub const GOLDEN_GAMMA: u64 = 0x9E37_79B9_7F4A_7C15;

/// The output mixing of a SplitMix64 generator for a given state.
pub open spec fn mix64(z: u64) -> u64 {
    let a = (z ^ (z >> 30u64)).wrapping_mul(0xBF58_476D_1CE4_E5B9u64);
    let b = (a ^ (a >> 27u64)).wrapping_mul(0x94D0_49BB_1331_11EBu64);
    b ^ (b >> 31u64)
}

/// A seeded SplitMix64 pseudo-random generator: the same seed always gives
/// the same sequence of numbers.
pub struct SeededRng {
    seed: u32,
    state: u64,
}

impl SeededRng {
    pub closed spec fn spec_seed(&self) -> u32 {
        self.seed
    }

    pub closed spec fn spec_state(&self) -> u64 {
        self.state
    }

    /// A generator at the start of the sequence for `seed`.
    pub fn new(seed: u32) -> (r: Self)
        ensures
            r.spec_seed() == seed,
            r.spec_state() == seed as u64,
    {
        SeededRng { seed, state: seed as u64 }
    }

    /// The next number of the sequence.
    pub fn next_u64(&mut self) -> (r: u64)
        ensures
            final(self).spec_seed() == old(self).spec_seed(),
            final(self).spec_state() == old(self).spec_state().wrapping_add(GOLDEN_GAMMA),
            r == mix64(final(self).spec_state()),
    {
        self.state = self.state.wrapping_add(GOLDEN_GAMMA);
        let z = self.state;
        let a = (z ^ (z >> 30u64)).wrapping_mul(0xBF58_476D_1CE4_E5B9u64);
        let b = (a ^ (a >> 27u64)).wrapping_mul(0x94D0_49BB_1331_11EBu64);
        b ^ (b >> 31u64)
    }

    /// Goes back to the start of the sequence for the seed.
    pub fn reset(&mut self)
        ensures
            final(self).spec_seed() == old(self).spec_seed(),
            final(self).spec_state() == old(self).spec_seed() as u64,
    {
        self.state = self.seed as u64;
    }
}

} // verus!
