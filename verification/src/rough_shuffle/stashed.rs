//! The rough shuffle with a free position. One position of one block is set
//! aside, the element on it travels, and every step puts the travelling
//! element on the first free position of a block picked at random, from where
//! the next element travels on. It ends when a block is picked that has no
//! free position, and the element that travels then goes to the position set
//! aside.

use crate::blocked::block::Block;
use crate::blocked::blocks::{all_fit, lemma_total_stash_bounds, lemma_totals_update, total_stash};
use crate::random_bits::RandomBitsSource;
use crate::rough_shuffle::naive::find_fully_processed;
use crate::rough_shuffle::{in_stash_of, is_full_at, rough_shuffled, some_fully_processed};
use crate::slices::swap_elements;
use crate::uniform_index::gen_index;
use rand::Rng;
use vstd::prelude::*;

verus! {

/// Whether the stash of block `i` holds one position at most.
pub open spec fn is_nearly_full_at(blocks: Seq<Block>, i: int) -> bool {
    blocks[i].stash_size() <= 1
}

/// Whether the stash of one of the blocks holds one position at most.
pub open spec fn some_nearly_full(blocks: Seq<Block>) -> bool {
    exists|i: int| 0 <= i < blocks.len() && is_nearly_full_at(blocks, i)
}

/// Runs a rough shuffle with a free position over `2^LOG_NUM_BLOCKS` blocks,
/// until a block is picked that is fully processed; the position set aside
/// is given back to its block then, which may be that block. Nothing is done
/// where a block is fully processed from the start.
pub fn rough_shuffle<R: Rng, T, const LOG_NUM_BLOCKS: usize>(
    rng: &mut R,
    blocks: &mut [Block],
    data: &mut [T],
)
    requires
        1 <= LOG_NUM_BLOCKS <= 10,
        old(blocks)@.len() == (1u64 << (LOG_NUM_BLOCKS as u64)),
        all_fit(old(blocks)@, old(data)@.len() as int),
    ensures
        rough_shuffled(old(blocks)@, final(blocks)@, old(data)@, final(data)@),
        some_nearly_full(final(blocks)@),
        some_fully_processed(old(blocks)@) ==> final(blocks)@ == old(blocks)@ && final(data)@
            == old(data)@,
{
    proof {
        assert forall|i: int| 0 <= i < blocks@.len() implies (#[trigger] blocks@[i]).wf() by {
            assert(blocks@[i].fits(data@.len() as int));
        }
    }
    match find_fully_processed(blocks) {
        Some(full) => {
            proof {
                assert(is_full_at(blocks@, full as int));
                assert(is_nearly_full_at(blocks@, full as int));
            }
        },
        None => {
            rough_shuffle_stashed_impl::<R, T, LOG_NUM_BLOCKS>(rng, blocks, data);
        },
    }
}

/// The last position of a block drawn at random is set aside, and is given
/// back to the block at the end.
fn rough_shuffle_stashed_impl<R: Rng, T, const LOG_NUM_BLOCKS: usize>(
    rng: &mut R,
    blocks: &mut [Block],
    data: &mut [T],
)
    requires
        1 <= LOG_NUM_BLOCKS <= 10,
        old(blocks)@.len() == (1u64 << (LOG_NUM_BLOCKS as u64)),
        all_fit(old(blocks)@, old(data)@.len() as int),
        forall|k: int| 0 <= k < old(blocks)@.len() ==> !is_full_at(old(blocks)@, k),
    ensures
        rough_shuffled(old(blocks)@, final(blocks)@, old(data)@, final(data)@),
        some_nearly_full(final(blocks)@),
{
    let num_blocks = blocks.len();
    let width: u64 = LOG_NUM_BLOCKS as u64;
    assert((1u64 << width) >= 2) by (bit_vector)
        requires
            1 <= width <= 10,
    ;
    let mut rbs = RandomBitsSource::new();

    let initial_doner = gen_index(rng, num_blocks);
    let mut doner = blocks[initial_doner];
    proof {
        assert(old(blocks)@[initial_doner as int].fits(data@.len() as int));
        assert(!is_full_at(old(blocks)@, initial_doner as int));
    }
    let stashed_element = match doner.pop() {
        Some(slot) => slot,
        None => { return ; },
    };
    blocks[initial_doner] = doner;
    proof {
        assert(in_stash_of(old(blocks)@, initial_doner as int, stashed_element as int));
    }

    let ghost mut full_at: int = 0;
    loop
        invariant
            1 <= LOG_NUM_BLOCKS <= 10,
            num_blocks == blocks@.len(),
            num_blocks == old(blocks)@.len(),
            num_blocks == (1u64 << (LOG_NUM_BLOCKS as u64)),
            initial_doner < num_blocks,
            rbs.wf(),
            data@.len() == old(data)@.len(),
            stashed_element < data@.len(),
            in_stash_of(old(blocks)@, initial_doner as int, stashed_element as int),
            all_fit(old(blocks)@, old(data)@.len() as int),
            crate::slices::permutes(old(data)@, data@),
            forall|p: int|
                0 <= p < old(data)@.len() && !crate::rough_shuffle::in_some_stash(
                    old(blocks)@,
                    p,
                ) ==> #[trigger] data@[p] == old(data)@[p],
            forall|i: int|
                0 <= i < num_blocks ==> {
                    &&& (#[trigger] blocks@[i]).wf()
                    &&& blocks@[i].span.start == old(blocks)@[i].span.start
                    &&& old(blocks)@[i].num_processed <= blocks@[i].num_processed
                    &&& i != initial_doner ==> blocks@[i].span.end == old(blocks)@[i].span.end
                },
            blocks@[initial_doner as int].span.end == stashed_element,
            stashed_element + 1 == old(blocks)@[initial_doner as int].span.end,
        ensures
            0 <= full_at < num_blocks,
            is_full_at(blocks@, full_at),
        decreases total_stash(blocks@),
    {
        let ghost row = blocks@;
        let drawn = rbs.gen_const_bits::<LOG_NUM_BLOCKS, R>(rng) as usize;
        let mut block = blocks[drawn];
        proof {
            assert(row[drawn as int].wf());
            assert(old(blocks)@[drawn as int].fits(old(data)@.len() as int));
        }
        match block.first_unprocessed() {
            Some(elem) => {
                proof {
                    assert(in_stash_of(old(blocks)@, drawn as int, elem as int));
                }
                swap_elements(data, stashed_element, elem);
                block.process_element();
                blocks[drawn] = block;
                proof {
                    lemma_totals_update(row, drawn as int, block);
                    assert forall|i: int| 0 <= i < row.len() implies (#[trigger] row[i]).wf() by {}
                    lemma_total_stash_bounds(row, drawn as int);
                }
            },
            None => {
                proof {
                    full_at = drawn as int;
                }
                break ;
            },
        }
    }

    let mut doner = blocks[initial_doner];
    proof {
        assert(blocks@[initial_doner as int].wf());
    }
    doner.push(stashed_element);
    blocks[initial_doner] = doner;
    proof {
        assert forall|i: int| 0 <= i < num_blocks implies (#[trigger] blocks@[i]).span == old(
            blocks,
        )@[i].span by {}
        assert(is_nearly_full_at(blocks@, full_at));
    }
}

} // verus!
