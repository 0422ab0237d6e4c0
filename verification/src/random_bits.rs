//! A source of a few random bits at a time.
//!
//! A 64-bit word from the random source is cached, and requests for a few
//! bits are served from the cache while it lasts, which saves most calls of
//! the random source where only one to ten bits are needed at a time.

use crate::rng::random_u64;
use rand::Rng;
use vstd::prelude::*;

verus! {

/// A cache of random bits: the `num_available` lowest bits of `random_bits`
/// have not been handed out yet.
pub struct RandomBitsSource {
    pub random_bits: u64,
    pub num_available: usize,
}

/// A source of single random bits.
pub type FairCoin = RandomBitsSource;

/// The `num_bits` lowest bits of `word`, for `num_bits` below 64.
pub open spec fn low_bits(word: u64, num_bits: usize) -> u64 {
    word & (((1u64 << (num_bits as u64)) - 1) as u64)
}

impl RandomBitsSource {
    /// At most 64 bits are cached.
    pub open spec fn wf(&self) -> bool {
        self.num_available <= 64
    }

    /// The cache after its `num_bits` lowest bits have been handed out.
    pub open spec fn after_serving(self, num_bits: usize) -> Self {
        RandomBitsSource {
            random_bits: self.random_bits >> (num_bits as u64),
            num_available: (self.num_available - num_bits) as usize,
        }
    }

    /// The cache after a request for `num_bits` bits, more than it held, was
    /// served from the fresh word `word`: the rest of `word` is put on top of
    /// the bits that were cached, as far as there is room.
    pub open spec fn after_topping_up(self, word: u64, num_bits: usize) -> Self {
        RandomBitsSource {
            random_bits: self.random_bits | ((word >> (num_bits as u64)) << (
            self.num_available as u64)),
            num_available: if self.num_available + 64 - num_bits <= 64 {
                (self.num_available + 64 - num_bits) as usize
            } else {
                64
            },
        }
    }

    /// The cache filled with the fresh word `word`.
    pub open spec fn refilled(word: u64) -> Self {
        RandomBitsSource { random_bits: word, num_available: 64 }
    }

    /// What [`Self::gen_bits`] returns and leaves behind where it had to draw
    /// the word `word`.
    pub open spec fn gen_bits_drawing(self, word: u64, num_bits: usize) -> (Self, u64) {
        if num_bits == 64 {
            (self, word)
        } else {
            (self.after_topping_up(word, num_bits), low_bits(word, num_bits))
        }
    }

    /// What [`Self::gen_const_bits`] returns and leaves behind where it had to
    /// draw the word `word`.
    pub open spec fn gen_const_bits_drawing(word: u64, num_bits: usize) -> (Self, u64) {
        (Self::refilled(word).after_serving(num_bits), low_bits(word, num_bits))
    }

    /// An empty cache.
    pub fn new() -> (source: Self)
        ensures
            source.random_bits == 0,
            source.num_available == 0,
            source.wf(),
    {
        RandomBitsSource { random_bits: 0, num_available: 0 }
    }

    /// Produces `num_bits <= 64` random bits and returns them in the `num_bits`
    /// lowest positions of the result. A request that the cache can serve is
    /// served from it. Any other draws a word from `rng`, returns its lowest
    /// bits and adds the rest of it to the cache.
    pub fn gen_bits<R: Rng>(&mut self, rng: &mut R, num_bits: usize) -> (bits: u64)
        requires
            old(self).wf(),
            num_bits <= 64,
        ensures
            final(self).wf(),
            num_bits < 64 ==> bits < (1u64 << (num_bits as u64)),
            num_bits <= old(self).num_available && num_bits < 64 ==> {
                &&& bits == low_bits(old(self).random_bits, num_bits)
                &&& *final(self) == old(self).after_serving(num_bits)
            },
            num_bits > old(self).num_available || num_bits == 64 ==> exists|word: u64|
                #[trigger] old(self).gen_bits_drawing(word, num_bits) == (*final(self), bits),
    {
        if num_bits == 64 {
            let word = random_u64(rng);
            assert(old(self).gen_bits_drawing(word, num_bits) == (*self, word));
            return word;
        }
        let width: u64 = num_bits as u64;
        assert((1u64 << width) >= 1) by (bit_vector)
            requires
                width < 64,
        ;
        let mask: u64 = (1u64 << width) - 1;
        let random: u64 = if num_bits > self.num_available {
            let word = random_u64(rng);
            let shift: u64 = self.num_available as u64;
            self.random_bits = self.random_bits | ((word >> width) << shift);
            self.num_available =
            if self.num_available + 64 - num_bits <= 64 {
                self.num_available + 64 - num_bits
            } else {
                64
            };
            assert(old(self).gen_bits_drawing(word, num_bits) == (*self, word & mask));
            word
        } else {
            let cached = self.random_bits;
            self.random_bits = self.random_bits >> width;
            self.num_available = self.num_available - num_bits;
            cached
        };
        assert(random & mask < (1u64 << width)) by (bit_vector)
            requires
                width < 64,
                mask == ((1u64 << width) - 1) as u64,
        ;
        random & mask
    }

    /// Produces `N <= 32` random bits and returns them in the `N` lowest
    /// positions of the result. Where the cache holds fewer than `N` bits, it
    /// is thrown away and filled with a fresh word first.
    pub fn gen_const_bits<const N: usize, R: Rng>(&mut self, rng: &mut R) -> (bits: u32)
        requires
            old(self).wf(),
            N <= 32,
        ensures
            final(self).wf(),
            (bits as u64) < (1u64 << (N as u64)),
            N <= old(self).num_available ==> {
                &&& bits == low_bits(old(self).random_bits, N)
                &&& *final(self) == old(self).after_serving(N)
            },
            N > old(self).num_available ==> exists|word: u64|
                #[trigger] Self::gen_const_bits_drawing(word, N) == (*final(self), bits as u64),
    {
        let ghost mut drawn: u64 = 0;
        if self.num_available < N {
            let word = random_u64(rng);
            self.random_bits = word;
            self.num_available = 64;
            proof {
                drawn = word;
            }
        }
        let width: u64 = N as u64;
        assert((1u64 << width) >= 1) by (bit_vector)
            requires
                width <= 32,
        ;
        let mask: u64 = (1u64 << width) - 1;
        let cached: u64 = self.random_bits;
        let random: u64 = cached & mask;
        assert(random < (1u64 << width) && random <= 0xffff_ffff) by (bit_vector)
            requires
                width <= 32,
                mask == ((1u64 << width) - 1) as u64,
                random == cached & mask,
        ;
        self.random_bits = self.random_bits >> width;
        self.num_available = self.num_available - N;
        proof {
            if N > old(self).num_available {
                assert(Self::gen_const_bits_drawing(drawn, N) == (*self, random));
            }
        }
        random as u32
    }

    /// A fair coin flip: `true` where the next random bit is zero.
    pub fn gen_bool<R: Rng>(&mut self, rng: &mut R) -> (flip: bool)
        requires
            old(self).wf(),
        ensures
            final(self).wf(),
            1 <= old(self).num_available ==> {
                &&& flip == (low_bits(old(self).random_bits, 1) == 0)
                &&& *final(self) == old(self).after_serving(1)
            },
            old(self).num_available == 0 ==> exists|word: u64|
                #[trigger] Self::gen_const_bits_drawing(word, 1) == (
                    *final(self),
                    if flip {
                        0u64
                    } else {
                        1u64
                    },
                ),
    {
        let bit = self.gen_const_bits::<1, R>(rng);
        assert(1u64 << 1u64 == 2) by (bit_vector);
        bit == 0
    }
}

impl Default for RandomBitsSource {
    fn default() -> (source: Self)
        ensures
            source.random_bits == 0,
            source.num_available == 0,
    {
        RandomBitsSource { random_bits: 0, num_available: 0 }
    }
}

} // verus!
