//! A seedable xorshift pseudorandom generator.
//!
//! The optimizer draws its perturbations from this 128-bit xorshift
//! generator.  The whole behaviour is pinned to a spec-level mirror of the
//! four shift-and-xor lines, so a run is an exact function of the seed and
//! every result is reproducible across processes and machines.

use vstd::prelude::*;

verus! {

/// Generator state: four 32-bit words, never all zero.
pub struct XorShift {
    pub x: u32,
    pub y: u32,
    pub z: u32,
    pub w: u32,
}

/// The next state after one xorshift round.
pub open spec fn next_state_spec(s: (u32, u32, u32, u32)) -> (u32, u32, u32, u32) {
    let t = s.0 ^ (s.0 << 11);
    (s.1, s.2, s.3, s.3 ^ (s.3 >> 19) ^ (t ^ (t >> 8)))
}

/// The word produced by one xorshift round.
pub open spec fn next_word_spec(s: (u32, u32, u32, u32)) -> u32 {
    next_state_spec(s).3
}

/// A draw in `[-(range as int), range as int]` made from one word.
pub open spec fn draw_spec(word: u32, range: u32) -> int {
    (word as int) % (2 * (range as int) + 1) - (range as int)
}

impl XorShift {
    pub open spec fn view(&self) -> (u32, u32, u32, u32) {
        (self.x, self.y, self.z, self.w)
    }

    /// The fixed default seed, for deterministic replay without a chosen seed.
    pub fn new_unseeded() -> (r: XorShift)
        ensures
            r@ == (0x193a6754u32, 0xa8a7d469u32, 0x97830e05u32, 0x113ba7bbu32),
    {
        XorShift { x: 0x193a6754, y: 0xa8a7d469, z: 0x97830e05, w: 0x113ba7bb }
    }

    /// A caller-chosen seed; a zero seed is replaced so the state is nonzero.
    pub fn from_seed(seed: u32) -> (r: XorShift)
        ensures
            r@ == (if seed == 0 { 0x193a6754u32 } else { seed }, 0xa8a7d469u32, 0x97830e05u32, 0x113ba7bbu32),
    {
        let s: u32 = if seed == 0 { 0x193a6754 } else { seed };
        XorShift { x: s, y: 0xa8a7d469, z: 0x97830e05, w: 0x113ba7bb }
    }

    /// One round: returns the next word and advances the state.
    pub fn next_word(&mut self) -> (r: u32)
        ensures
            final (self)@ == next_state_spec(old(self)@),
            r == next_word_spec(old(self)@),
    {
        let t: u32 = self.x ^ (self.x << 11u32);
        self.x = self.y;
        self.y = self.z;
        self.z = self.w;
        self.w = self.w ^ (self.w >> 19u32) ^ (t ^ (t >> 8u32));
        self.w
    }

    /// An integer from the symmetric range `[-range, range]`, zero included.
    ///
    /// The word is reduced modulo the range size, so the draw is uniform up
    /// to the negligible remainder of 2^32 by that size.
    pub fn draw(&mut self, range: u32) -> (r: i64)
        requires
            1 <= range <= 1000,
        ensures
            final (self)@ == next_state_spec(old(self)@),
            r as int == draw_spec(next_word_spec(old(self)@), range),
            -(range as int) <= r as int <= range as int,
    {
        let word: u32 = self.next_word();
        let m: u32 = 2 * range + 1;
        let rem: u32 = word % m;
        (rem as i64) - (range as i64)
    }
}

} // verus!
