//! The pipelined form. The indices are drawn a fixed number of steps before
//! they are used and wait in a ring buffer, so that the element an index
//! points at can be on its way into the cache while earlier exchanges are
//! made.

use crate::fisher_yates::naive;
use crate::fisher_yates::{are_partners, is_fisher_yates, lemma_swapped_down, swapped_down};
use crate::prefetch::prefetch_write_data;
use crate::slices::{permutes, swap_elements};
use crate::uniform_index::{impl_u32, impl_u64, U32_MAX_UPPER_BOUND};
use rand::Rng;
use vstd::prelude::*;

verus! {

/// The number of steps that an index is drawn ahead of its use.
pub const DEFAULT_PREFETCH_WIDTH: usize = 16;

/// Rearranges `data` into a uniformly random order, with 32-bit indices where
/// the slice is short enough for them.
pub fn fisher_yates<R: Rng, T>(rng: &mut R, data: &mut [T])
    ensures
        permutes(old(data)@, final(data)@),
        is_fisher_yates(old(data)@, final(data)@),
{
    if data.len() < U32_MAX_UPPER_BOUND as usize {
        fisher_yates_u32(rng, data);
    } else {
        fisher_yates_u64(rng, data);
    }
}

/// Rearranges `data` into a uniformly random order, drawing 32-bit indices.
/// The length of the slice must fit 32 bits.
pub fn fisher_yates_u32<R: Rng, T>(rng: &mut R, data: &mut [T])
    requires
        old(data)@.len() <= u32::MAX,
    ensures
        permutes(old(data)@, final(data)@),
        is_fisher_yates(old(data)@, final(data)@),
{
    fisher_yates_impl::<DEFAULT_PREFETCH_WIDTH, R, T>(rng, false, data);
}

/// Rearranges `data` into a uniformly random order, drawing 64-bit indices.
pub fn fisher_yates_u64<R: Rng, T>(rng: &mut R, data: &mut [T])
    ensures
        permutes(old(data)@, final(data)@),
        is_fisher_yates(old(data)@, final(data)@),
{
    fisher_yates_impl::<DEFAULT_PREFETCH_WIDTH, R, T>(rng, true, data);
}

/// Draws an index from `0..exclusive_ub` with the 64-bit sampler where `wide`
/// is set and with the 32-bit sampler where it is not.
fn draw_index<R: Rng>(rng: &mut R, wide: bool, exclusive_ub: usize) -> (index: usize)
    requires
        exclusive_ub > 0,
        !wide ==> exclusive_ub <= u32::MAX,
    ensures
        index < exclusive_ub,
        wide ==> exists|words: Seq<u64>| #[trigger]
            impl_u64::is_drawing(words, exclusive_ub as u64) && index == impl_u64::product_high(
                words.last(),
                exclusive_ub as u64,
            ),
        !wide ==> exists|words: Seq<u32>| #[trigger]
            impl_u32::is_drawing(words, exclusive_ub as u32) && index == impl_u32::product_high(
                words.last(),
                exclusive_ub as u32,
            ),
{
    if wide {
        impl_u64::gen_index(rng, exclusive_ub as u64) as usize
    } else {
        impl_u32::gen_index(rng, exclusive_ub as u32) as usize
    }
}

/// How many steps after the slot `next` the slot `s` of a ring buffer of `n`
/// slots has its turn, where the slots take turns in a circle.
pub open spec fn turns_until(s: int, next: int, n: int) -> int {
    if s >= next {
        s - next
    } else {
        s + n - next
    }
}

/// The slot that has its turn after the slot `idx` of a ring buffer of `N`
/// slots.
pub fn next_slot<const N: usize>(idx: usize) -> (next: usize)
    requires
        idx < N,
    ensures
        next < N,
        next == if idx + 1 == N {
            0
        } else {
            idx + 1
        },
{
    if idx + 1 == N {
        0
    } else {
        idx + 1
    }
}

/// Fisher-Yates with a pipeline of `N` indices.
///
/// The pipeline is primed with the indices for the last `N` positions. Then,
/// from the last position down, each step draws the index for the position
/// `N` places further down, puts it into the ring buffer in place of the
/// index for the position at hand, and makes the exchange for that position.
/// The last `N` steps draw nothing and use up what is in the ring buffer.
/// A slice of at most `2 * N` elements is left to the plain form.
///
/// The slot whose turn comes `k` steps from now holds an index for the
/// position `k` places before the one at hand: every position changes places
/// with itself or a position before it.
pub fn fisher_yates_impl<const N: usize, R: Rng, T>(rng: &mut R, wide: bool, data: &mut [T])
    requires
        !wide ==> old(data)@.len() <= u32::MAX,
    ensures
        permutes(old(data)@, final(data)@),
        is_fisher_yates(old(data)@, final(data)@),
{
    let n = data.len();
    if N == 0 || n / 2 < N || n == 2 * N {
        naive::fisher_yates(rng, data);
        return ;
    }
    let mut ring_buf = [0usize; N];
    let mut ring_buf_idx: usize = 0;

    let mut i: usize = n;
    while i > n - N
        invariant
            0 < N,
            2 * N < n,
            n == data@.len(),
            !wide ==> n <= u32::MAX,
            n - N <= i <= n,
            ring_buf_idx == if n - i == N {
                0
            } else {
                n - i
            },
            forall|s: int| 0 <= s < n - i ==> #[trigger] ring_buf@[s] + s <= n - 1,
            data@ == old(data)@,
        decreases i,
    {
        i = i - 1;
        let fresh = draw_index(rng, wide, i + 1);
        prefetch_write_data(&data[fresh]);
        ring_buf[ring_buf_idx] = fresh;
        ring_buf_idx = next_slot::<N>(ring_buf_idx);
    }

    let ghost mut partners: Seq<int> = Seq::new(n as nat, |k: int| k);
    let mut i: usize = n;
    while i > N + 1
        invariant
            0 < N,
            2 * N < n,
            n == data@.len(),
            !wide ==> n <= u32::MAX,
            N + 1 <= i <= n,
            ring_buf_idx < N,
            forall|s: int|
                0 <= s < N ==> #[trigger] ring_buf@[s] + turns_until(s, ring_buf_idx as int, N as int)
                    <= i - 1,
            permutes(old(data)@, data@),
            n == old(data)@.len(),
            are_partners(partners, n as int),
            data@ == swapped_down(old(data)@, partners, i as int),
        decreases i,
    {
        i = i - 1;
        let fresh = draw_index(rng, wide, i - N + 1);
        prefetch_write_data(&data[fresh]);
        let j = ring_buf[ring_buf_idx];
        ring_buf[ring_buf_idx] = fresh;
        ring_buf_idx = next_slot::<N>(ring_buf_idx);
        assert(j <= i);
        proof {
            let drawn = partners.update(i as int, j as int);
            lemma_swapped_down(old(data)@, drawn, partners, i + 1);
            partners = drawn;
        }
        swap_elements(data, i, j);
    }

    let mut i: usize = N + 1;
    while i > 1
        invariant
            0 < N,
            2 * N < n,
            n == data@.len(),
            1 <= i <= N + 1,
            ring_buf_idx < N,
            forall|s: int|
                0 <= s < N && turns_until(s, ring_buf_idx as int, N as int) < i - 1
                    ==> #[trigger] ring_buf@[s] + turns_until(s, ring_buf_idx as int, N as int)
                    <= i - 1,
            permutes(old(data)@, data@),
            n == old(data)@.len(),
            are_partners(partners, n as int),
            data@ == swapped_down(old(data)@, partners, i as int),
        decreases i,
    {
        i = i - 1;
        let j = ring_buf[ring_buf_idx];
        ring_buf[ring_buf_idx] = 0;
        ring_buf_idx = next_slot::<N>(ring_buf_idx);
        assert(j <= i);
        proof {
            let drawn = partners.update(i as int, j as int);
            lemma_swapped_down(old(data)@, drawn, partners, i + 1);
            partners = drawn;
        }
        swap_elements(data, i, j);
    }
    proof {
        assert(are_partners(partners, old(data)@.len() as int));
    }
}

} // verus!
