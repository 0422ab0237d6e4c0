//! The two calls through which the library reads its random source.

use rand::Rng;
use vstd::prelude::*;

verus! {

/// Draws the next 32-bit word from `rng` by `rand::Rng::gen`. The word is
/// whatever the generator hands out: nothing is claimed of its value.
#[verifier::external_body]
pub(crate) fn random_u32<R: Rng>(rng: &mut R) -> (word: u32) {
    rng.gen()
}

/// Draws the next 64-bit word from `rng` by `rand::Rng::gen`. The word is
/// whatever the generator hands out: nothing is claimed of its value.
#[verifier::external_body]
pub(crate) fn random_u64<R: Rng>(rng: &mut R) -> (word: u64) {
    rng.gen()
}

} // verus!
