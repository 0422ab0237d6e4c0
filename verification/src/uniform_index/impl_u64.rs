//! The sampler on 64-bit words.

use crate::rng::random_u64;
use crate::uniform_index::REDRAW_LIMIT;
use rand::Rng;
use vstd::prelude::*;

verus! {

/// The low word of the 128-bit product of two 64-bit words.
pub open spec fn product_low(a: u64, b: u64) -> int {
    (a as int * b as int) % 0x1_0000_0000_0000_0000
}

/// The high word of the 128-bit product of two 64-bit words.
pub open spec fn product_high(a: u64, b: u64) -> int {
    (a as int * b as int) / 0x1_0000_0000_0000_0000
}

/// The number of low words that are rejected for the bound `ub`:
/// `(2^64 - ub) mod ub`.
pub open spec fn rejection_threshold(ub: u64) -> int {
    (0x1_0000_0000_0000_0000 - ub as int) % (ub as int)
}

/// Whether the random word `word` is accepted for the bound `ub`.
pub open spec fn accepts(word: u64, ub: u64) -> bool {
    product_low(word, ub) >= rejection_threshold(ub)
}

/// Whether `words` can be the words that are drawn for one index below
/// `ub`, in the order in which they are drawn: every word but the last is
/// rejected, and the last is accepted, unless it is the last that the limit
/// on drawing again allows.
pub open spec fn is_drawing(words: Seq<u64>, ub: u64) -> bool {
    &&& 1 <= words.len() <= REDRAW_LIMIT + 1
    &&& forall|i: int| 0 <= i < words.len() - 1 ==> !accepts(#[trigger] words[i], ub)
    &&& (accepts(words.last(), ub) || words.len() == REDRAW_LIMIT + 1)
}

/// The high word of a product with `ub` is below `ub`.
pub proof fn lemma_product_high_below(word: u64, ub: u64)
    requires
        ub > 0,
    ensures
        0 <= product_high(word, ub) < ub,
{
    assert(0 <= (word as int * ub as int) / 0x1_0000_0000_0000_0000 < ub as int) by (nonlinear_arith)
        requires
            0 <= word as int,
            (word as int) < 0x1_0000_0000_0000_0000,
            0 < ub as int,
    ;
}

/// A word whose low product word reaches the bound is accepted, whatever the
/// threshold: the threshold lies below the bound.
pub proof fn lemma_threshold_below(ub: u64)
    requires
        ub > 0,
    ensures
        0 <= rejection_threshold(ub) < ub,
{
}

/// The full product of two words: its low word, then its high word.
pub fn wide_multiply(a: u64, b: u64) -> (product: (u64, u64))
    ensures
        product.0 == product_low(a, b),
        product.1 == product_high(a, b),
{
    assert(0 <= a as int * b as int <= 0xffff_ffff_ffff_ffff * 0xffff_ffff_ffff_ffff) by (nonlinear_arith)
        requires
            0 <= a as int <= 0xffff_ffff_ffff_ffff,
            0 <= b as int <= 0xffff_ffff_ffff_ffff,
    ;
    let wide: u128 = (a as u128) * (b as u128);
    let low: u64 = #[verifier::truncate] (wide as u64);
    let shifted: u128 = wide >> 64;
    assert(low == wide % 0x1_0000_0000_0000_0000 && shifted == wide / 0x1_0000_0000_0000_0000) by (bit_vector)
        requires
            low == wide as u64,
            shifted == wide >> 64,
    ;
    let high: u64 = shifted as u64;
    (low, high)
}

/// Draws an index from `0..exclusive_ub` uniformly at random.
pub fn gen_index<R: Rng>(rng: &mut R, exclusive_ub: u64) -> (index: u64)
    requires
        exclusive_ub > 0,
    ensures
        index < exclusive_ub,
        exists|words: Seq<u64>| #[trigger]
            is_drawing(words, exclusive_ub) && index == product_high(words.last(), exclusive_ub),
{
    let initial = random_u64(rng);
    gen_index_impl(rng, initial, exclusive_ub)
}

/// Draws an index from `0..exclusive_ub` uniformly at random, where the first
/// random word, `initial`, has been drawn by the caller. Further words are
/// drawn from `rng` while the word at hand is rejected.
pub fn gen_index_impl<R: Rng>(rng: &mut R, initial: u64, exclusive_ub: u64) -> (index: u64)
    requires
        exclusive_ub > 0,
    ensures
        index < exclusive_ub,
        accepts(initial, exclusive_ub) ==> index == product_high(initial, exclusive_ub),
        exists|words: Seq<u64>| #[trigger]
            is_drawing(words, exclusive_ub) && words[0] == initial && index == product_high(
                words.last(),
                exclusive_ub,
            ),
{
    let (mut low, mut high) = wide_multiply(initial, exclusive_ub);
    let ghost mut words: Seq<u64> = seq![initial];
    proof {
        lemma_product_high_below(initial, exclusive_ub);
        lemma_threshold_below(exclusive_ub);
    }
    if low >= exclusive_ub {
        assert(is_drawing(words, exclusive_ub));
        return high;
    }
    let threshold = (u64::MAX - exclusive_ub + 1) % exclusive_ub;
    let mut redraws: u32 = 0;
    while low < threshold && redraws < REDRAW_LIMIT
        invariant
            exclusive_ub > 0,
            high < exclusive_ub,
            threshold == rejection_threshold(exclusive_ub),
            redraws > 0 ==> !accepts(initial, exclusive_ub),
            redraws == 0 ==> low == product_low(initial, exclusive_ub) && high == product_high(
                initial,
                exclusive_ub,
            ),
            words.len() == redraws + 1,
            redraws <= REDRAW_LIMIT,
            words[0] == initial,
            low == product_low(words.last(), exclusive_ub),
            high == product_high(words.last(), exclusive_ub),
            forall|i: int| 0 <= i < words.len() - 1 ==> !accepts(#[trigger] words[i], exclusive_ub),
        decreases REDRAW_LIMIT - redraws,
    {
        let ghost drawn = words;
        let word = random_u64(rng);
        proof {
            words = drawn.push(word);
            assert forall|i: int| 0 <= i < words.len() - 1 implies !accepts(
                #[trigger] words[i],
                exclusive_ub,
            ) by {
                if i < drawn.len() - 1 {
                    assert(words[i] == drawn[i]);
                } else {
                    assert(words[i] == drawn.last());
                }
            }
        }
        let product = wide_multiply(word, exclusive_ub);
        proof {
            lemma_product_high_below(word, exclusive_ub);
        }
        low = product.0;
        high = product.1;
        redraws = redraws + 1;
    }
    proof {
        assert(is_drawing(words, exclusive_ub));
    }
    high
}

} // verus!
