//! Unbiased sampling of an index below a bound, by Lemire's method of a
//! widening multiplication and an occasional rejection.
//!
//! A random word `x` of `w` bits is multiplied by the bound `ub`. The high
//! word of the product is a value below `ub`; it is uniformly distributed over
//! the words whose low word is at least `(2^w - ub) mod ub`, and the other
//! words are rejected and drawn anew.

use rand::Rng;
use vstd::prelude::*;

pub mod impl_u32;
pub mod impl_u64;

verus! {

/// The largest bound for which the 32-bit sampler is used. Above it the
/// 32-bit sampler rejects too often and the 64-bit sampler is faster.
pub const U32_MAX_UPPER_BOUND: u32 = 0x0fff_ffff;

/// How often a sampler draws again after a rejected word before it settles
/// for the word at hand. A word is rejected with probability below one half,
/// so the limit is out of reach of any working random source; it only keeps a
/// source that is stuck from stalling the caller.
pub const REDRAW_LIMIT: u32 = 0x1_0000;

/// Draws an index from `0..exclusive_ub` uniformly at random, with the
/// 32-bit sampler for a bound up to [`U32_MAX_UPPER_BOUND`] and with the
/// 64-bit sampler for a larger one.
pub fn gen_index<R: Rng>(rng: &mut R, exclusive_ub: usize) -> (index: usize)
    requires
        exclusive_ub > 0,
    ensures
        index < exclusive_ub,
        exclusive_ub <= U32_MAX_UPPER_BOUND ==> exists|words: Seq<u32>| #[trigger]
            impl_u32::is_drawing(words, exclusive_ub as u32) && index == impl_u32::product_high(
                words.last(),
                exclusive_ub as u32,
            ),
        exclusive_ub > U32_MAX_UPPER_BOUND ==> exists|words: Seq<u64>| #[trigger]
            impl_u64::is_drawing(words, exclusive_ub as u64) && index == impl_u64::product_high(
                words.last(),
                exclusive_ub as u64,
            ),
{
    if exclusive_ub <= U32_MAX_UPPER_BOUND as usize {
        impl_u32::gen_index(rng, exclusive_ub as u32) as usize
    } else {
        impl_u64::gen_index(rng, exclusive_ub as u64) as usize
    }
}

} // verus!
