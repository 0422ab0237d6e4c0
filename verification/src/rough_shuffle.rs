//! The rough shuffle: the pass that routes the elements of a row of blocks to
//! random blocks.
//!
//! Every step takes an element that has not been dealt with, picks one of the
//! blocks uniformly at random, and puts the element on the first free position
//! of that block, which is then processed. The pass stops as soon as one
//! block is fully processed. What has not been dealt with by then is left in
//! the stashes of the blocks.

use crate::blocked::block::Block;
use crate::blocked::blocks::{adjacent_at, all_fit, same_spans, tiles};
use crate::slices::permutes;
use rand::Rng;
use vstd::prelude::*;

pub mod naive;
pub mod stashed;
pub mod with_unsafe_algos;

verus! {

/// A number of blocks for the rough shuffle, as a type.
pub struct NumberOfBuckets<const N: usize> {}

/// The numbers of blocks that the rough shuffle takes: the powers of two from
/// 2 to 1024, each with its logarithm.
pub trait IsPowerOfTwo {
    const N: usize;

    const LOG2: usize;
}

impl IsPowerOfTwo for NumberOfBuckets<2> {
    const N: usize = 2;

    const LOG2: usize = 1;
}

impl IsPowerOfTwo for NumberOfBuckets<4> {
    const N: usize = 4;

    const LOG2: usize = 2;
}

impl IsPowerOfTwo for NumberOfBuckets<8> {
    const N: usize = 8;

    const LOG2: usize = 3;
}

impl IsPowerOfTwo for NumberOfBuckets<16> {
    const N: usize = 16;

    const LOG2: usize = 4;
}

impl IsPowerOfTwo for NumberOfBuckets<32> {
    const N: usize = 32;

    const LOG2: usize = 5;
}

impl IsPowerOfTwo for NumberOfBuckets<64> {
    const N: usize = 64;

    const LOG2: usize = 6;
}

impl IsPowerOfTwo for NumberOfBuckets<128> {
    const N: usize = 128;

    const LOG2: usize = 7;
}

impl IsPowerOfTwo for NumberOfBuckets<256> {
    const N: usize = 256;

    const LOG2: usize = 8;
}

impl IsPowerOfTwo for NumberOfBuckets<512> {
    const N: usize = 512;

    const LOG2: usize = 9;
}

impl IsPowerOfTwo for NumberOfBuckets<1024> {
    const N: usize = 1024;

    const LOG2: usize = 10;
}

/// Whether a rough shuffle can work on `n` blocks: `n` is a power of two from
/// 2 to 1024.
pub open spec fn is_number_of_blocks(n: int) -> bool {
    n == 2 || n == 4 || n == 8 || n == 16 || n == 32 || n == 64 || n == 128 || n == 256 || n
        == 512 || n == 1024
}

/// What every rough shuffle does to a row of blocks and to the slice that they
/// lie in. The blocks stay where they are and stay well formed, and none of
/// them loses a processed position; the slice keeps its elements; and what
/// lay outside the stashes stays in its place.
pub open spec fn rough_shuffled<T>(
    blocks_before: Seq<Block>,
    blocks_after: Seq<Block>,
    before: Seq<T>,
    after: Seq<T>,
) -> bool {
    &&& same_spans(blocks_before, blocks_after)
    &&& forall|i: int|
        0 <= i < blocks_after.len() ==> {
            &&& (#[trigger] blocks_after[i]).wf()
            &&& blocks_before[i].num_processed <= blocks_after[i].num_processed
        }
    &&& permutes(before, after)
    &&& forall|p: int|
        0 <= p < before.len() && !in_some_stash(blocks_before, p) ==> #[trigger] after[p]
            == before[p]
}

/// Whether the position `p` belongs to the stash of one of the blocks.
pub open spec fn in_some_stash(blocks: Seq<Block>, p: int) -> bool {
    exists|i: int| 0 <= i < blocks.len() && in_stash_of(blocks, i, p)
}

/// Whether the position `p` belongs to the stash of block `i`.
pub open spec fn in_stash_of(blocks: Seq<Block>, i: int, p: int) -> bool {
    blocks[i].split() <= p < blocks[i].span.end
}

/// Whether one of the blocks is fully processed.
pub open spec fn some_fully_processed(blocks: Seq<Block>) -> bool {
    exists|i: int| 0 <= i < blocks.len() && is_full_at(blocks, i)
}

/// Whether block `i` is fully processed.
pub open spec fn is_full_at(blocks: Seq<Block>, i: int) -> bool {
    blocks[i].stash_size() == 0
}

/// What a rough shuffle keeps of a row of blocks that lie side by side and
/// cover the positions `lo..hi` of a slice: the blocks still lie side by side
/// and cover `lo..hi`, no boundary has moved, and the processed prefix and the
/// stash of every block make up the block between them.
pub proof fn lemma_rough_shuffle_keeps_blocks<T>(
    blocks_before: Seq<Block>,
    blocks_after: Seq<Block>,
    before: Seq<T>,
    after: Seq<T>,
    lo: int,
    hi: int,
)
    requires
        tiles(blocks_before, lo, hi),
        0 <= lo,
        hi <= before.len(),
        rough_shuffled(blocks_before, blocks_after, before, after),
    ensures
        tiles(blocks_after, lo, hi),
        forall|i: int|
            0 <= i < blocks_after.len() ==> {
                &&& (#[trigger] blocks_after[i]).span == blocks_before[i].span
                &&& blocks_after[i].span.start <= blocks_after[i].split() <= blocks_after[i].span.end
                &&& blocks_after[i].processed(after) + blocks_after[i].stash(after)
                    == blocks_after[i].contents(after)
            },
{
    assert forall|i: int| 0 <= i < blocks_after.len() - 1 implies #[trigger] adjacent_at(
        blocks_after,
        i,
    ) by {
        assert(adjacent_at(blocks_before, i));
        assert(blocks_after[i].span == blocks_before[i].span);
        assert(blocks_after[i + 1].span == blocks_before[i + 1].span);
    }
    assert(blocks_after[0].span == blocks_before[0].span);
    assert(blocks_after[blocks_after.len() - 1].span == blocks_before[blocks_before.len()
        - 1].span);
    assert forall|i: int| 0 <= i < blocks_after.len() implies {
        &&& (#[trigger] blocks_after[i]).span == blocks_before[i].span
        &&& blocks_after[i].span.start <= blocks_after[i].split() <= blocks_after[i].span.end
        &&& blocks_after[i].processed(after) + blocks_after[i].stash(after)
            == blocks_after[i].contents(after)
    } by {
        assert(blocks_after[i].wf());
        crate::blocked::blocks::lemma_tiles_within(blocks_before, lo, hi, i);
        assert(blocks_after[i].processed(after) + blocks_after[i].stash(after)
            =~= blocks_after[i].contents(after));
    }
}

/// A rough shuffle after a rough shuffle is a rough shuffle.
pub proof fn lemma_rough_shuffled_twice<T>(
    blocks0: Seq<Block>,
    blocks1: Seq<Block>,
    blocks2: Seq<Block>,
    data0: Seq<T>,
    data1: Seq<T>,
    data2: Seq<T>,
)
    requires
        rough_shuffled(blocks0, blocks1, data0, data1),
        rough_shuffled(blocks1, blocks2, data1, data2),
    ensures
        rough_shuffled(blocks0, blocks2, data0, data2),
{
    assert forall|i: int| 0 <= i < blocks0.len() implies (#[trigger] blocks2[i]).span
        == blocks0[i].span by {
        assert(blocks1[i].span == blocks0[i].span);
    }
    assert forall|i: int| 0 <= i < blocks2.len() implies {
        &&& (#[trigger] blocks2[i]).wf()
        &&& blocks0[i].num_processed <= blocks2[i].num_processed
    } by {
        assert(blocks1[i].wf());
    }
    assert forall|p: int| 0 <= p < data0.len() && !in_some_stash(blocks0, p) implies #[trigger] data2[p]
        == data0[p] by {
        if in_some_stash(blocks1, p) {
            let i = choose|i: int| 0 <= i < blocks1.len() && in_stash_of(blocks1, i, p);
            assert(blocks1[i].span == blocks0[i].span);
            assert(blocks1[i].wf());
            assert(in_stash_of(blocks0, i, p));
        }
        assert(data1[p] == data0[p]);
    }
}

/// The rounds that can be planned ahead, and then single steps until a block
/// is fully processed.
fn planned_then_stepwise<R: Rng, T, const LOG_N: usize, const SWAPS: usize>(
    rng: &mut R,
    buckets: &mut [Block],
    data: &mut [T],
)
    requires
        1 <= LOG_N <= 10,
        1 <= SWAPS <= 64,
        SWAPS * LOG_N <= 64,
        old(buckets)@.len() == (1u64 << (LOG_N as u64)),
        all_fit(old(buckets)@, old(data)@.len() as int),
    ensures
        rough_shuffled(old(buckets)@, final(buckets)@, old(data)@, final(data)@),
        some_fully_processed(final(buckets)@),
{
    with_unsafe_algos::rough_shuffle::<R, T, LOG_N, SWAPS>(rng, buckets, data);
    let ghost blocks1 = buckets@;
    let ghost data1 = data@;
    proof {
        assert forall|i: int| 0 <= i < blocks1.len() implies (#[trigger] blocks1[i]).fits(
            data1.len() as int,
        ) by {
            assert(old(buckets)@[i].fits(old(data)@.len() as int));
            assert(blocks1[i].span == old(buckets)@[i].span);
        }
    }
    naive::rough_shuffle::<R, T, LOG_N>(rng, buckets, data);
    proof {
        lemma_rough_shuffled_twice(old(buckets)@, blocks1, buckets@, old(data)@, data1, data@);
    }
}

/// Runs a rough shuffle over the blocks `buckets` of `data` until one of them
/// is fully processed. The number of blocks must be a power of two from 2 to
/// 1024. A round of the part that is planned ahead has as many steps as 32
/// random bits can pick blocks for, twice.
pub fn rough_shuffle<R: Rng, T>(rng: &mut R, buckets: &mut [Block], data: &mut [T])
    requires
        is_number_of_blocks(old(buckets)@.len() as int),
        all_fit(old(buckets)@, old(data)@.len() as int),
    ensures
        rough_shuffled(old(buckets)@, final(buckets)@, old(data)@, final(data)@),
        some_fully_processed(final(buckets)@),
{
    let num_buckets = buckets.len();
    if num_buckets == 2 {
        assert((1u64 << 1u64) == 2) by (bit_vector);
        planned_then_stepwise::<R, T, 1, 32>(rng, buckets, data);
    } else if num_buckets == 4 {
        assert((1u64 << 2u64) == 4) by (bit_vector);
        planned_then_stepwise::<R, T, 2, 16>(rng, buckets, data);
    } else if num_buckets == 8 {
        assert((1u64 << 3u64) == 8) by (bit_vector);
        planned_then_stepwise::<R, T, 3, 10>(rng, buckets, data);
    } else if num_buckets == 16 {
        assert((1u64 << 4u64) == 16) by (bit_vector);
        planned_then_stepwise::<R, T, 4, 8>(rng, buckets, data);
    } else if num_buckets == 32 {
        assert((1u64 << 5u64) == 32) by (bit_vector);
        planned_then_stepwise::<R, T, 5, 6>(rng, buckets, data);
    } else if num_buckets == 64 {
        assert((1u64 << 6u64) == 64) by (bit_vector);
        planned_then_stepwise::<R, T, 6, 5>(rng, buckets, data);
    } else if num_buckets == 128 {
        assert((1u64 << 7u64) == 128) by (bit_vector);
        planned_then_stepwise::<R, T, 7, 4>(rng, buckets, data);
    } else if num_buckets == 256 {
        assert((1u64 << 8u64) == 256) by (bit_vector);
        planned_then_stepwise::<R, T, 8, 4>(rng, buckets, data);
    } else if num_buckets == 512 {
        assert((1u64 << 9u64) == 512) by (bit_vector);
        planned_then_stepwise::<R, T, 9, 3>(rng, buckets, data);
    } else {
        assert((1u64 << 10u64) == 1024) by (bit_vector);
        planned_then_stepwise::<R, T, 10, 3>(rng, buckets, data);
    }
}

} // verus!
