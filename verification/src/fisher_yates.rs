//! Fisher-Yates shuffles: the base case of the scatter shuffle.
//!
//! For `i` from the last position down to the second, an index `j` is drawn
//! from `0..=i` and the elements at `i` and `j` are exchanged.

use crate::slices::{permutes, swapped};
use crate::uniform_index::U32_MAX_UPPER_BOUND;
use rand::Rng;
use vstd::prelude::*;

pub mod naive;
pub mod noncontiguous;
pub mod with_prefetch;
pub mod with_prefetch_alt;
pub mod with_unsafe_algos;

verus! {

/// `s` after, for every position from the last down to `from`, the element
/// at the position has changed places with the element at the partner that
/// `partners` gives the position.
pub open spec fn swapped_down<T>(s: Seq<T>, partners: Seq<int>, from: int) -> Seq<T>
    decreases s.len() - from,
{
    if 0 <= from < s.len() {
        swapped(swapped_down(s, partners, from + 1), from, partners[from])
    } else {
        s
    }
}

/// Partners for the positions of a sequence of `len` elements: each lies at
/// the position itself or before it.
pub open spec fn are_partners(partners: Seq<int>, len: int) -> bool {
    &&& partners.len() == len
    &&& forall|i: int| 0 <= i < len ==> 0 <= #[trigger] partners[i] <= i
}

/// `after` is what Fisher-Yates makes of `before` for some draw of the
/// partners: from the last position down to the second, every position has
/// changed places with a position that is the same or lies before it.
pub open spec fn is_fisher_yates<T>(before: Seq<T>, after: Seq<T>) -> bool {
    exists|partners: Seq<int>| #[trigger]
        are_partners(partners, before.len() as int) && after == swapped_down(before, partners, 1)
}

/// Exchanges from a position down keep the length, and depend on the
/// partners from that position on only.
pub proof fn lemma_swapped_down<T>(s: Seq<T>, partners: Seq<int>, others: Seq<int>, from: int)
    requires
        are_partners(partners, s.len() as int),
        are_partners(others, s.len() as int),
        forall|i: int| from <= i < s.len() ==> partners[i] == others[i],
    ensures
        swapped_down(s, partners, from).len() == s.len(),
        swapped_down(s, partners, from) == swapped_down(s, others, from),
    decreases s.len() - from,
{
    if 0 <= from < s.len() {
        lemma_swapped_down(s, partners, others, from + 1);
    }
}

/// Rearranges `data` into a uniformly random order by Fisher-Yates. Short
/// slices are handled with 32-bit indices, longer ones with 64-bit indices.
pub fn fisher_yates<R: Rng, T>(rng: &mut R, data: &mut [T])
    ensures
        permutes(old(data)@, final(data)@),
        is_fisher_yates(old(data)@, final(data)@),
{
    if data.len() < U32_MAX_UPPER_BOUND as usize {
        with_unsafe_algos::fisher_yates_u32(rng, data);
    } else {
        with_prefetch::fisher_yates(rng, data);
    }
}

} // verus!
