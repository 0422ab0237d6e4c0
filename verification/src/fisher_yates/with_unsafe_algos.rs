//! The pipelined form on 32-bit indices, which also draws the random words
//! for two indices at once.

use crate::fisher_yates::naive;
use crate::fisher_yates::{are_partners, is_fisher_yates, lemma_swapped_down, swapped_down};
use crate::fisher_yates::with_prefetch::{next_slot, turns_until};
use crate::prefetch::prefetch_write_data;
use crate::rng::{random_u32, random_u64};
use crate::slices::{permutes, swap_elements};
use crate::uniform_index::impl_u32::gen_index_impl;
use rand::Rng;
use vstd::prelude::*;

verus! {

/// The number of steps that an index is drawn ahead of its use.
pub const DEFAULT_PREFETCH_WIDTH: usize = 16;

/// Rearranges `data` into a uniformly random order, drawing 32-bit indices.
/// The length of the slice must lie below `u32::MAX`.
pub fn fisher_yates_u32<R: Rng, T>(rng: &mut R, data: &mut [T])
    requires
        old(data)@.len() < u32::MAX,
    ensures
        permutes(old(data)@, final(data)@),
        is_fisher_yates(old(data)@, final(data)@),
{
    fisher_yates_impl::<R, T, DEFAULT_PREFETCH_WIDTH>(rng, data)
}

/// Fisher-Yates with a pipeline of `PREFETCH_WIDTH` indices, as in
/// [`crate::fisher_yates::with_prefetch::fisher_yates_impl`]. The first random
/// word of each index in the main part is one half of a 64-bit word, which is
/// drawn at every other step. Every position changes places with itself or a
/// position before it.
pub fn fisher_yates_impl<R: Rng, T, const PREFETCH_WIDTH: usize>(rng: &mut R, data: &mut [T])
    requires
        old(data)@.len() < u32::MAX,
    ensures
        permutes(old(data)@, final(data)@),
        is_fisher_yates(old(data)@, final(data)@),
{
    let n = data.len();
    if PREFETCH_WIDTH == 0 || n / 2 < PREFETCH_WIDTH || n == 2 * PREFETCH_WIDTH {
        naive::fisher_yates(rng, data);
        return;
    }
    let mut ring_buf = [0usize; PREFETCH_WIDTH];
    let mut ring_buf_idx: usize = 0;

    let mut i: usize = n;
    while i > n - PREFETCH_WIDTH
        invariant
            0 < PREFETCH_WIDTH,
            2 * PREFETCH_WIDTH < n,
            n == data@.len(),
            n < u32::MAX,
            n - PREFETCH_WIDTH <= i <= n,
            ring_buf_idx == if n - i == PREFETCH_WIDTH {
                0
            } else {
                n - i
            },
            forall|s: int| 0 <= s < n - i ==> #[trigger] ring_buf@[s] + s <= n - 1,
            data@ == old(data)@,
        decreases i,
    {
        i = i - 1;
        let initial = random_u32(rng);
        let fresh = gen_index_impl(rng, initial, (i + 1) as u32) as usize;
        prefetch_write_data(&data[fresh]);
        ring_buf[ring_buf_idx] = fresh;
        ring_buf_idx = next_slot::<PREFETCH_WIDTH>(ring_buf_idx);
    }

    let mut init: u64 = random_u64(rng);
    let ghost mut partners: Seq<int> = Seq::new(n as nat, |k: int| k);
    let mut i: usize = n;
    while i > PREFETCH_WIDTH + 1
        invariant
            0 < PREFETCH_WIDTH,
            2 * PREFETCH_WIDTH < n,
            n == data@.len(),
            n < u32::MAX,
            PREFETCH_WIDTH + 1 <= i <= n,
            ring_buf_idx < PREFETCH_WIDTH,
            forall|s: int|
                0 <= s < PREFETCH_WIDTH ==> #[trigger] ring_buf@[s] + turns_until(
                    s,
                    ring_buf_idx as int,
                    PREFETCH_WIDTH as int,
                ) <= i - 1,
            permutes(old(data)@, data@),
            n == old(data)@.len(),
            are_partners(partners, n as int),
            data@ == swapped_down(old(data)@, partners, i as int),
        decreases i,
    {
        i = i - 1;
        if i % 2 == 0 {
            init = random_u64(rng);
        } else {
            init = init >> 32;
        }
        let initial: u32 = #[verifier::truncate] (init as u32);
        let fresh = gen_index_impl(rng, initial, (i - PREFETCH_WIDTH + 1) as u32) as usize;
        prefetch_write_data(&data[fresh]);
        let j = ring_buf[ring_buf_idx];
        ring_buf[ring_buf_idx] = fresh;
        ring_buf_idx = next_slot::<PREFETCH_WIDTH>(ring_buf_idx);
        assert(j <= i);
        proof {
            let drawn = partners.update(i as int, j as int);
            lemma_swapped_down(old(data)@, drawn, partners, i + 1);
            partners = drawn;
        }
        swap_elements(data, i, j);
    }

    let mut i: usize = PREFETCH_WIDTH + 1;
    while i > 1
        invariant
            0 < PREFETCH_WIDTH,
            2 * PREFETCH_WIDTH < n,
            n == data@.len(),
            1 <= i <= PREFETCH_WIDTH + 1,
            ring_buf_idx < PREFETCH_WIDTH,
            forall|s: int|
                0 <= s < PREFETCH_WIDTH && turns_until(
                    s,
                    ring_buf_idx as int,
                    PREFETCH_WIDTH as int,
                ) < i - 1 ==> #[trigger] ring_buf@[s] + turns_until(
                    s,
                    ring_buf_idx as int,
                    PREFETCH_WIDTH as int,
                ) <= i - 1,
            permutes(old(data)@, data@),
            n == old(data)@.len(),
            are_partners(partners, n as int),
            data@ == swapped_down(old(data)@, partners, i as int),
        decreases i,
    {
        i = i - 1;
        let j = ring_buf[ring_buf_idx];
        ring_buf[ring_buf_idx] = 0;
        ring_buf_idx = next_slot::<PREFETCH_WIDTH>(ring_buf_idx);
        assert(j <= i);
        proof {
            let drawn = partners.update(i as int, j as int);
            lemma_swapped_down(old(data)@, drawn, partners, i + 1);
            partners = drawn;
        }
        swap_elements(data, i, j);
    }
    proof {
        assert(are_partners(partners, old(data)@.len() as int));
    }
}

} // verus!
