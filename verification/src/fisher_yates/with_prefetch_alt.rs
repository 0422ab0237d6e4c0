//! The unrolled form. It works from the front of the slice, eight positions
//! to a round, and draws the indices for two positions from one 64-bit word.

use crate::fisher_yates::{is_fisher_yates, naive};
use crate::slices::{lemma_replace_part_multiset, permutes, subslice_mut, swap_elements, swapped};
use crate::uniform_index::impl_u32::gen_index_pair;
use rand::Rng;
use vstd::prelude::*;

verus! {

/// The number of positions that one round settles.
pub const ELEMS_PER_ROUND: usize = 8;

/// `s` after the position `first` has changed places with the position `i0`
/// places behind it, and then the position `first + 1` with the position `i1`
/// places behind that.
pub open spec fn pair_settled<T>(s: Seq<T>, first: int, i0: int, i1: int) -> Seq<T> {
    swapped(swapped(s, first, first + i0), first + 1, first + 1 + i1)
}

/// `s` after, for every position below `upto` in rising order, the element at
/// the position has changed places with the element at the partner that
/// `partners` gives the position.
pub open spec fn swapped_up<T>(s: Seq<T>, partners: Seq<int>, upto: int) -> Seq<T>
    decreases upto,
{
    if 0 < upto <= s.len() {
        swapped(swapped_up(s, partners, upto - 1), upto - 1, partners[upto - 1])
    } else {
        s
    }
}

/// Partners for the positions of a sequence of `len` elements of which each
/// lies at the position itself or behind it.
pub open spec fn are_later_partners(partners: Seq<int>, len: int) -> bool {
    &&& partners.len() == len
    &&& forall|i: int| 0 <= i < len ==> i <= #[trigger] partners[i] < len
}

/// The number of positions at the front of a slice of `len` elements that
/// are settled in rounds: rounds are made while 16 positions are left at
/// least.
pub open spec fn unrolled_len(len: int) -> int {
    if len < 16 {
        0
    } else {
        8 * ((len - 16) / 8 + 1)
    }
}

/// `after` is what the unrolled form makes of `before` for some draw of the
/// partners: from the front, every position that is settled in rounds has
/// changed places with a position that is the same or lies behind it, and
/// the rest of the slice has been dealt with by Fisher-Yates.
pub open spec fn is_unrolled_fisher_yates<T>(before: Seq<T>, after: Seq<T>) -> bool {
    exists|partners: Seq<int>| #[trigger]
        are_later_partners(partners, before.len() as int) && {
            let base = unrolled_len(before.len() as int);
            let settled = swapped_up(before, partners, base);
            &&& after.len() == before.len()
            &&& after.subrange(0, base) == settled.subrange(0, base)
            &&& is_fisher_yates(
                settled.subrange(base, before.len() as int),
                after.subrange(base, before.len() as int),
            )
        }
}

/// Exchanges from the front up keep the length, and depend on the partners
/// of the positions that are dealt with only.
pub proof fn lemma_swapped_up<T>(s: Seq<T>, partners: Seq<int>, others: Seq<int>, upto: int)
    requires
        are_later_partners(partners, s.len() as int),
        are_later_partners(others, s.len() as int),
        forall|i: int| 0 <= i < upto ==> partners[i] == others[i],
    ensures
        swapped_up(s, partners, upto).len() == s.len(),
        swapped_up(s, partners, upto) == swapped_up(s, others, upto),
    decreases upto,
{
    if 0 < upto <= s.len() {
        lemma_swapped_up(s, partners, others, upto - 1);
    }
}

/// Settling one more pair of positions extends what is settled by two
/// positions. Returns the partners with those of the pair put in.
proof fn lemma_pair_settled<T>(
    s: Seq<T>,
    partners: Seq<int>,
    first: int,
    i0: int,
    i1: int,
) -> (extended: Seq<int>)
    requires
        are_later_partners(partners, s.len() as int),
        0 <= first,
        first + 2 <= s.len(),
        0 <= i0 < s.len() - first,
        0 <= i1 < s.len() - first - 1,
    ensures
        are_later_partners(extended, s.len() as int),
        swapped_up(s, extended, first + 2) == pair_settled(
            swapped_up(s, partners, first),
            first,
            i0,
            i1,
        ),
{
    let one = partners.update(first, first + i0);
    let two = one.update(first + 1, first + 1 + i1);
    lemma_swapped_up(s, one, partners, first);
    lemma_swapped_up(s, two, one, first + 1);
    lemma_swapped_up(s, two, partners, first);
    two
}

/// What one call of [`settle_pair`] adds to what is settled. Returns the
/// partners with those of the pair put in.
proof fn lemma_round_step<T>(
    origin: Seq<T>,
    partners: Seq<int>,
    before: Seq<T>,
    after: Seq<T>,
    first: int,
) -> (extended: Seq<int>)
    requires
        are_later_partners(partners, origin.len() as int),
        0 <= first,
        first + 2 <= origin.len(),
        before == swapped_up(origin, partners, first),
        exists|i0: int, i1: int|
            {
                &&& 0 <= i0 < origin.len() - first
                &&& 0 <= i1 < origin.len() - first - 1
                &&& after == #[trigger] pair_settled(before, first, i0, i1)
            },
    ensures
        are_later_partners(extended, origin.len() as int),
        after == swapped_up(origin, extended, first + 2),
{
    let (i0, i1) = choose|i0: int, i1: int|
        {
            &&& 0 <= i0 < origin.len() - first
            &&& 0 <= i1 < origin.len() - first - 1
            &&& after == #[trigger] pair_settled(before, first, i0, i1)
        };
    lemma_pair_settled(origin, partners, first, i0, i1)
}

/// Settles the positions `base + offset` and `base + offset + 1` of a slice
/// whose positions before `base` are settled: each gets an element drawn
/// uniformly from itself and the positions behind it.
fn settle_pair<R: Rng, T>(rng: &mut R, data: &mut [T], base: usize, offset: usize)
    requires
        old(data)@.len() <= u32::MAX,
        base + offset + 2 <= old(data)@.len(),
    ensures
        permutes(old(data)@, final(data)@),
        exists|i0: int, i1: int|
            {
                &&& 0 <= i0 < old(data)@.len() - (base + offset)
                &&& 0 <= i1 < old(data)@.len() - (base + offset) - 1
                &&& final(data)@ == #[trigger] pair_settled(old(data)@, base + offset, i0, i1)
            },
{
    let first = base + offset;
    let left: u32 = (data.len() - first) as u32;
    let (i0, i1) = gen_index_pair(rng, (left, left - 1));
    swap_elements(data, first, first + i0 as usize);
    swap_elements(data, first + 1, first + 1 + i1 as usize);
    proof {
        assert(data@ == pair_settled(old(data)@, first as int, i0 as int, i1 as int));
    }
}

/// Rearranges `data` into a uniformly random order, drawing 32-bit indices.
/// The length of the slice must fit 32 bits.
pub fn fisher_yates_u32<R: Rng, T>(rng: &mut R, data: &mut [T])
    requires
        old(data)@.len() <= u32::MAX,
    ensures
        permutes(old(data)@, final(data)@),
        is_unrolled_fisher_yates(old(data)@, final(data)@),
{
    let n = data.len();
    let ghost mut partners: Seq<int> = Seq::new(n as nat, |k: int| k);
    let mut base: usize = 0;
    while n - base >= 2 * ELEMS_PER_ROUND
        invariant
            n == data@.len(),
            n == old(data)@.len(),
            n <= u32::MAX,
            base <= n,
            base % 8 == 0,
            base == 0 || n - base >= 8,
            permutes(old(data)@, data@),
            are_later_partners(partners, n as int),
            data@ == swapped_up(old(data)@, partners, base as int),
        decreases n - base,
    {
        let ghost before = data@;
        settle_pair(rng, data, base, 0);
        proof {
            partners = lemma_round_step(old(data)@, partners, before, data@, base + 0);
        }
        let ghost before = data@;
        settle_pair(rng, data, base, 2);
        proof {
            partners = lemma_round_step(old(data)@, partners, before, data@, base + 2);
        }
        let ghost before = data@;
        settle_pair(rng, data, base, 4);
        proof {
            partners = lemma_round_step(old(data)@, partners, before, data@, base + 4);
        }
        let ghost before = data@;
        settle_pair(rng, data, base, 6);
        proof {
            partners = lemma_round_step(old(data)@, partners, before, data@, base + 6);
        }
        base = base + ELEMS_PER_ROUND;
    }
    let ghost settled = data@;
    let rest = subslice_mut(data, base, n);
    naive::fisher_yates(rng, rest);
    proof {
        lemma_replace_part_multiset(settled, base as int, n as int, final(rest)@);
        assert(settled.subrange(n as int, n as int) =~= Seq::<T>::empty());
        assert(base == unrolled_len(n as int));
        assert(data@.subrange(0, base as int) =~= settled.subrange(0, base as int));
        assert(data@.subrange(base as int, n as int) =~= final(rest)@);
        assert(are_later_partners(partners, old(data)@.len() as int));
    }
}

} // verus!
