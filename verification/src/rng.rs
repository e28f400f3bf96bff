//! Deterministic pseudo-random source: a 128-bit permuted congruential
//! generator with 64-bit output. Every randomized simulator decision (delay
//! draws, drop and duplicate coins, clock-skew assignment, scenario-level
//! choices) routes through one seeded stream, so a run is a pure function of
//! its seed.

use vstd::prelude::*;

verus! {

/// Multiplier of the underlying 128-bit linear congruential step.
pub const PCG_MUL: u128 = 0x2360ed051fc65da44385df649fccf645;

/// Increment of the underlying 128-bit linear congruential step.
pub const PCG_INC: u128 = 0x5851f42d4c957f2d14057b7ef767814f;

/// One congruential step of the generator state.
pub open spec fn rng_step(s: u128) -> u128 {
    vstd::wrapping::u128_specs::wrapping_add(
        vstd::wrapping::u128_specs::wrapping_mul(s, PCG_MUL),
        PCG_INC,
    )
}

/// Right rotation of a 64-bit word by `r` positions, `r < 64`.
pub open spec fn rotr64(x: u64, r: u64) -> u64 {
    if r == 0 {
        x
    } else {
        (x >> r) | (x << ((64 - r) as u64))
    }
}

/// The 64-bit output drawn from a generator state: xor of the two state
/// halves, rotated by the top six state bits.
pub open spec fn rng_output(s: u128) -> u64 {
    rotr64((((s >> 64) ^ s) & 0xffff_ffff_ffff_ffff) as u64, (s >> 122) as u64)
}

/// The state reached from a 64-bit seed: the seed is folded into the stream
/// increment and diffused by two steps.
pub open spec fn rng_seeded(seed: u64) -> u128 {
    rng_step(rng_step(vstd::wrapping::u128_specs::wrapping_add(PCG_INC, seed as u128)))
}

/// Deterministic pseudo-random generator. The simulator engine owns a single
/// value of this type; nodes must derive their own randomness only from seeds
/// passed in at construction.
pub struct SimRng {
    pub state: u128,
}

impl SimRng {
    /// Seeds the generator; equal seeds give equal streams.
    pub fn with_seed(seed: u64) -> (r: SimRng)
        ensures
            r.state == rng_seeded(seed),
    {
        let s0: u128 = PCG_INC.wrapping_add(seed as u128);
        let s1: u128 = s0.wrapping_mul(PCG_MUL).wrapping_add(PCG_INC);
        let s2: u128 = s1.wrapping_mul(PCG_MUL).wrapping_add(PCG_INC);
        SimRng { state: s2 }
    }

    /// Draws the next 64-bit word and advances the state by one step.
    pub fn next_u64(&mut self) -> (r: u64)
        ensures
            final(self).state == rng_step(old(self).state),
            r == rng_output(final(self).state),
    {
        let s: u128 = self.state.wrapping_mul(PCG_MUL).wrapping_add(PCG_INC);
        self.state = s;
        let xored: u64 = (((s >> 64u128) ^ s) & 0xffff_ffff_ffff_ffffu128) as u64;
        let rot: u64 = (s >> 122u128) as u64;
        proof {
            assert((s >> 122u128) < 64u128) by (bit_vector);
        }
        if rot == 0 {
            xored
        } else {
            (xored >> rot) | (xored << (64 - rot))
        }
    }

    /// Draws a value uniformly below `n`.
    pub fn next_below(&mut self, n: u64) -> (r: u64)
        requires
            n > 0,
        ensures
            final(self).state == rng_step(old(self).state),
            r == rng_output(rng_step(old(self).state)) % n,
            r < n,
    {
        let w = self.next_u64();
        w % n
    }

    /// Draws a value uniformly in the half-open range `[lo, hi)`.
    pub fn gen_range(&mut self, lo: u64, hi: u64) -> (r: u64)
        requires
            lo < hi,
        ensures
            final(self).state == rng_step(old(self).state),
            r == lo + rng_output(rng_step(old(self).state)) % ((hi - lo) as u64),
            lo <= r < hi,
    {
        let w = self.next_below(hi - lo);
        lo + w
    }

    /// Draws a coin that is true with probability `ppm` parts per million.
    pub fn coin_ppm(&mut self, ppm: u64) -> (r: bool)
        ensures
            final(self).state == rng_step(old(self).state),
            r == (rng_output(rng_step(old(self).state)) % 1_000_000 < ppm),
    {
        let w = self.next_below(1_000_000);
        w < ppm
    }
}

} // verus!
