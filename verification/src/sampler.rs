//! The source of random numbers.
//!
//! A `Sampler` is a xorshift generator with four words of state (Marsaglia,
//! "Xorshift RNGs", 2003). Its stream is a function of its state, so a render
//! that starts from a chosen seed can be repeated; a sampler made by
//! `from_entropy` starts from words that the operating system supplies.

use vstd::prelude::*;
use crate::scalar::Scalar;

verus! {

/// A xorshift generator.
#[derive(Clone, Copy, Debug, PartialEq, Eq, Structural)]
pub struct Sampler {
    pub x: u32,
    pub y: u32,
    pub z: u32,
    pub w: u32,
}

/// Asks `rand::random::<u32>()` for a word from the thread-local generator
/// that `rand` seeds from the operating system. Nothing is claimed of the
/// word. `rand` panics when it finds no source of entropy at all.
#[verifier::external_body]
fn entropy_word() -> (word: u32) {
    rand::random::<u32>()
}

impl Sampler {
    /// Whether some word of the state is not zero. From the state of four
    /// zeros the generator would give zeros for ever.
    pub open spec fn usable(self) -> bool {
        self.x != 0 || self.y != 0 || self.z != 0 || self.w != 0
    }

    /// The word that the next step gives.
    pub open spec fn output(self) -> u32 {
        let t = self.x ^ (self.x << 11);
        self.w ^ (self.w >> 19) ^ (t ^ (t >> 8))
    }

    /// The state after one step.
    pub open spec fn advanced(self) -> Sampler {
        Sampler { x: self.y, y: self.z, z: self.w, w: self.output() }
    }

    /// The state after `n` steps.
    pub open spec fn skipped(self, n: nat) -> Sampler
        decreases n,
    {
        if n == 0 {
            self
        } else {
            self.advanced().skipped((n - 1) as nat)
        }
    }

    /// The state made of four words; four zeros, from which the generator
    /// would never leave, give a fixed state instead.
    pub open spec fn of_words(a: u32, b: u32, c: u32, d: u32) -> Sampler {
        if a == 0 && b == 0 && c == 0 && d == 0 {
            Sampler { x: 0x193a_6754, y: 0xa8a7_d469, z: 0x9783_0e05, w: 0x113b_a7bb }
        } else {
            Sampler { x: a, y: b, z: c, w: d }
        }
    }

    /// The state that `seeded` starts from: the two halves of `seed` and of
    /// `stream`, stepped eight times so that every word of the state
    /// depends on both.
    pub open spec fn start(seed: u64, stream: u64) -> Sampler {
        Sampler::of_words(
            (seed % 0x1_0000_0000) as u32,
            (seed / 0x1_0000_0000) as u32,
            (stream % 0x1_0000_0000) as u32,
            (stream / 0x1_0000_0000) as u32,
        ).skipped(8)
    }

    /// A sampler with the given state.
    pub fn from_words(a: u32, b: u32, c: u32, d: u32) -> (s: Sampler)
        ensures
            s == Sampler::of_words(a, b, c, d),
            s.usable(),
    {
        if a == 0 && b == 0 && c == 0 && d == 0 {
            Sampler { x: 0x193a_6754, y: 0xa8a7_d469, z: 0x9783_0e05, w: 0x113b_a7bb }
        } else {
            Sampler { x: a, y: b, z: c, w: d }
        }
    }

    /// The sampler for one stream of a seeded run. The same seed and stream
    /// give the same sampler.
    pub fn seeded(seed: u64, stream: u64) -> (s: Sampler)
        ensures
            s == Sampler::start(seed, stream),
            s.usable(),
    {
        let mut s: Sampler = Sampler::from_words(
            (seed % 0x1_0000_0000) as u32,
            (seed / 0x1_0000_0000) as u32,
            (stream % 0x1_0000_0000) as u32,
            (stream / 0x1_0000_0000) as u32,
        );
        let ghost first = s;
        let mut i: u32 = 0;
        while i < 8
            invariant
                i <= 8,
                s.usable(),
                s.skipped((8 - i) as nat) == first.skipped(8),
            decreases 8 - i,
        {
            let _ = s.next_word();
            i = i + 1;
        }
        s
    }

    /// A sampler that starts from four words of the operating system's
    /// entropy.
    pub fn from_entropy() -> (s: Sampler)
        ensures
            s.usable(),
    {
        let a: u32 = entropy_word();
        let b: u32 = entropy_word();
        let c: u32 = entropy_word();
        let d: u32 = entropy_word();
        Sampler::from_words(a, b, c, d)
    }

    /// Steps the generator and gives the next word.
    pub fn next_word(&mut self) -> (word: u32)
        ensures
            word == old(self).output(),
            *final(self) == old(self).advanced(),
            old(self).usable() ==> final(self).usable(),
    {
        proof {
            lemma_step_keeps_usable(*self);
        }
        let t: u32 = self.x ^ (self.x << 11);
        let word: u32 = self.w ^ (self.w >> 19) ^ (t ^ (t >> 8));
        self.x = self.y;
        self.y = self.z;
        self.z = self.w;
        self.w = word;
        word
    }

    /// Steps the generator and gives a number in `[0, 1)`: the low
    /// twenty-three bits of the next word over 2^23.
    pub fn next_unit(&mut self) -> (r: Scalar)
        ensures
            r == Scalar::unit_fraction(old(self).output()),
            *final(self) == old(self).advanced(),
            old(self).usable() ==> final(self).usable(),
            r.is_finite(),
            !r.is_negative(),
            r.below(crate::scalar::one()),
    {
        let word: u32 = self.next_word();
        Scalar::from_word(word)
    }
}

/// A step never leads into the state of four zeros.
pub proof fn lemma_step_keeps_usable(s: Sampler)
    ensures
        s.usable() ==> s.advanced().usable(),
{
    let x = s.x;
    assert(x != 0 ==> 0u32 ^ (0u32 >> 19) ^ ((x ^ (x << 11)) ^ ((x ^ (x << 11)) >> 8)) != 0)
        by (bit_vector);
}

} // verus!
