//! The sampler on 32-bit words.

use crate::rng::{random_u32, random_u64};
use crate::uniform_index::REDRAW_LIMIT;
use rand::Rng;
use vstd::prelude::*;

verus! {

/// The low word of the 64-bit product of two 32-bit words.
pub open spec fn product_low(a: u32, b: u32) -> int {
    (a as int * b as int) % 0x1_0000_0000
}

/// The high word of the 64-bit product of two 32-bit words.
pub open spec fn product_high(a: u32, b: u32) -> int {
    (a as int * b as int) / 0x1_0000_0000
}

/// The number of low words that are rejected for the bound `ub`:
/// `(2^32 - ub) mod ub`.
pub open spec fn rejection_threshold(ub: u32) -> int {
    (0x1_0000_0000 - ub as int) % (ub as int)
}

/// Whether the random word `word` is accepted for the bound `ub`.
pub open spec fn accepts(word: u32, ub: u32) -> bool {
    product_low(word, ub) >= rejection_threshold(ub)
}

/// Whether `words` can be the words that are drawn for one index below
/// `ub`, in the order in which they are drawn: every word but the last is
/// rejected, and the last is accepted, unless it is the last that the limit
/// on drawing again allows.
pub open spec fn is_drawing(words: Seq<u32>, ub: u32) -> bool {
    &&& 1 <= words.len() <= REDRAW_LIMIT + 1
    &&& forall|i: int| 0 <= i < words.len() - 1 ==> !accepts(#[trigger] words[i], ub)
    &&& (accepts(words.last(), ub) || words.len() == REDRAW_LIMIT + 1)
}

/// The high word of a product with `ub` is below `ub`.
pub proof fn lemma_product_high_below(word: u32, ub: u32)
    requires
        ub > 0,
    ensures
        0 <= product_high(word, ub) < ub,
{
    assert(0 <= (word as int * ub as int) / 0x1_0000_0000 < ub as int) by (nonlinear_arith)
        requires
            0 <= word as int,
            (word as int) < 0x1_0000_0000,
            0 < ub as int,
    ;
}

/// A word whose low product word reaches the bound is accepted, whatever the
/// threshold: the threshold lies below the bound.
pub proof fn lemma_threshold_below(ub: u32)
    requires
        ub > 0,
    ensures
        0 <= rejection_threshold(ub) < ub,
{
}

/// The full product of two words: its low word, then its high word.
pub fn wide_multiply(a: u32, b: u32) -> (product: (u32, u32))
    ensures
        product.0 == product_low(a, b),
        product.1 == product_high(a, b),
{
    assert(0 <= a as int * b as int <= 0xffff_ffff * 0xffff_ffff) by (nonlinear_arith)
        requires
            0 <= a as int <= 0xffff_ffff,
            0 <= b as int <= 0xffff_ffff,
    ;
    let wide: u64 = (a as u64) * (b as u64);
    let low: u32 = #[verifier::truncate] (wide as u32);
    let shifted: u64 = wide >> 32;
    assert(low == wide % 0x1_0000_0000 && shifted == wide / 0x1_0000_0000) by (bit_vector)
        requires
            low == wide as u32,
            shifted == wide >> 32,
    ;
    let high: u32 = shifted as u32;
    (low, high)
}

/// Draws an index from `0..exclusive_ub` uniformly at random.
pub fn gen_index<R: Rng>(rng: &mut R, exclusive_ub: u32) -> (index: u32)
    requires
        exclusive_ub > 0,
    ensures
        index < exclusive_ub,
        exists|words: Seq<u32>| #[trigger]
            is_drawing(words, exclusive_ub) && index == product_high(words.last(), exclusive_ub),
{
    let initial = random_u32(rng);
    gen_index_impl(rng, initial, exclusive_ub)
}

/// Draws an index from `0..exclusive_ub` uniformly at random, where the first
/// random word, `initial`, has been drawn by the caller. Further words are
/// drawn from `rng` while the word at hand is rejected.
pub fn gen_index_impl<R: Rng>(rng: &mut R, initial: u32, exclusive_ub: u32) -> (index: u32)
    requires
        exclusive_ub > 0,
    ensures
        index < exclusive_ub,
        accepts(initial, exclusive_ub) ==> index == product_high(initial, exclusive_ub),
        exists|words: Seq<u32>| #[trigger]
            is_drawing(words, exclusive_ub) && words[0] == initial && index == product_high(
                words.last(),
                exclusive_ub,
            ),
{
    let (mut low, mut high) = wide_multiply(initial, exclusive_ub);
    let ghost mut words: Seq<u32> = seq![initial];
    proof {
        lemma_product_high_below(initial, exclusive_ub);
        lemma_threshold_below(exclusive_ub);
    }
    if low >= exclusive_ub {
        assert(is_drawing(words, exclusive_ub));
        return high;
    }
    let threshold = (u32::MAX - exclusive_ub + 1) % exclusive_ub;
    let mut redraws: u32 = 0;
    while low < threshold && redraws < REDRAW_LIMIT
        invariant
            exclusive_ub > 0,
            high < exclusive_ub,
            threshold == rejection_threshold(exclusive_ub),
            redraws > 0 ==> !accepts(initial, exclusive_ub),
            redraws == 0 ==> low == product_low(initial, exclusive_ub) && high == product_high(
                initial,
                exclusive_ub,
            ),
            words.len() == redraws + 1,
            redraws <= REDRAW_LIMIT,
            words[0] == initial,
            low == product_low(words.last(), exclusive_ub),
            high == product_high(words.last(), exclusive_ub),
            forall|i: int| 0 <= i < words.len() - 1 ==> !accepts(#[trigger] words[i], exclusive_ub),
        decreases REDRAW_LIMIT - redraws,
    {
        let ghost drawn = words;
        let word = random_u32(rng);
        proof {
            words = drawn.push(word);
            assert forall|i: int| 0 <= i < words.len() - 1 implies !accepts(
                #[trigger] words[i],
                exclusive_ub,
            ) by {
                if i < drawn.len() - 1 {
                    assert(words[i] == drawn[i]);
                } else {
                    assert(words[i] == drawn.last());
                }
            }
        }
        let product = wide_multiply(word, exclusive_ub);
        proof {
            lemma_product_high_below(word, exclusive_ub);
        }
        low = product.0;
        high = product.1;
        redraws = redraws + 1;
    }
    proof {
        assert(is_drawing(words, exclusive_ub));
    }
    high
}

/// Draws two indices at once, the first from `0..exclusive_ub.0` and the
/// second from `0..exclusive_ub.1`, from the two halves of one 64-bit word.
/// Where either half is not accepted right away, both fall back to
/// [`gen_index_impl`].
pub fn gen_index_pair<R: Rng>(rng: &mut R, exclusive_ub: (u32, u32)) -> (pair: (u32, u32))
    requires
        exclusive_ub.0 > 0,
        exclusive_ub.1 > 0,
    ensures
        pair.0 < exclusive_ub.0,
        pair.1 < exclusive_ub.1,
        exists|first: Seq<u32>, second: Seq<u32>|
            {
                &&& #[trigger] is_drawing(first, exclusive_ub.0)
                &&& #[trigger] is_drawing(second, exclusive_ub.1)
                &&& pair.0 == product_high(first.last(), exclusive_ub.0)
                &&& pair.1 == product_high(second.last(), exclusive_ub.1)
            },
{
    let word = random_u64(rng);
    let r0: u32 = #[verifier::truncate] (word as u32);
    let r1: u32 = #[verifier::truncate] ((word >> 32) as u32);
    let (lo0, hi0) = wide_multiply(r0, exclusive_ub.0);
    let (lo1, hi1) = wide_multiply(r1, exclusive_ub.1);
    if lo0 < exclusive_ub.0 || lo1 < exclusive_ub.1 {
        let first = gen_index_impl(rng, r0, exclusive_ub.0);
        let second = gen_index_impl(rng, r1, exclusive_ub.1);
        (first, second)
    } else {
        proof {
            lemma_product_high_below(r0, exclusive_ub.0);
            lemma_product_high_below(r1, exclusive_ub.1);
            lemma_threshold_below(exclusive_ub.0);
            lemma_threshold_below(exclusive_ub.1);
            assert(is_drawing(seq![r0], exclusive_ub.0));
            assert(is_drawing(seq![r1], exclusive_ub.1));
        }
        (hi0, hi1)
    }
}

} // verus!
