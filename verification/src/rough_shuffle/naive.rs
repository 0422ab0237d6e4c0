//! The rough shuffle that checks after every step whether a block has become
//! full.

use crate::blocked::block::Block;
use crate::blocked::blocks::{all_fit, lemma_total_stash_bounds, lemma_totals_update, total_stash};
use crate::random_bits::RandomBitsSource;
use crate::rough_shuffle::{in_stash_of, is_full_at, rough_shuffled, some_fully_processed};
use crate::slices::{permutes, swap_elements, swapped};
use rand::Rng;
use vstd::prelude::*;

verus! {

/// The position of the first block that is fully processed, if there is one.
pub fn find_fully_processed(blocks: &[Block]) -> (found: Option<usize>)
    requires
        forall|i: int| 0 <= i < blocks@.len() ==> (#[trigger] blocks@[i]).wf(),
    ensures
        match found {
            Some(i) => i < blocks@.len() && is_full_at(blocks@, i as int) && forall|k: int|
                0 <= k < i ==> !is_full_at(blocks@, k),
            None => forall|k: int| 0 <= k < blocks@.len() ==> !is_full_at(blocks@, k),
        },
{
    let mut i: usize = 0;
    while i < blocks.len()
        invariant
            i <= blocks@.len(),
            forall|k: int| 0 <= k < blocks@.len() ==> (#[trigger] blocks@[k]).wf(),
            forall|k: int| 0 <= k < i ==> !is_full_at(blocks@, k),
        decreases blocks@.len() - i,
    {
        if blocks[i].is_fully_processed() {
            return Some(i);
        }
        i = i + 1;
    }
    None
}

/// Runs a rough shuffle over `2^LOG_NUM_BUCKETS` blocks until one of them is
/// fully processed. Nothing is done where one is so from the start.
///
/// The first block is the active one: the element on its first free position
/// is the one to be placed next. Each step draws the number of a block. For
/// any but the last number, the element changes places with the one on the
/// first free position of the block after the one drawn, and that position is
/// processed. For the last number, the element stays where it is, its position
/// is processed, and the next element of the active block is taken up.
pub fn rough_shuffle<R: Rng, T, const LOG_NUM_BUCKETS: usize>(
    rng: &mut R,
    buckets: &mut [Block],
    data: &mut [T],
)
    requires
        1 <= LOG_NUM_BUCKETS <= 10,
        old(buckets)@.len() == (1u64 << (LOG_NUM_BUCKETS as u64)),
        all_fit(old(buckets)@, old(data)@.len() as int),
    ensures
        rough_shuffled(old(buckets)@, final(buckets)@, old(data)@, final(data)@),
        some_fully_processed(final(buckets)@),
{
    proof {
        assert forall|i: int| 0 <= i < buckets@.len() implies (#[trigger] buckets@[i]).wf() by {
            assert(buckets@[i].fits(data@.len() as int));
        }
    }
    match find_fully_processed(buckets) {
        Some(_) => {},
        None => {
            rough_shuffle_impl::<R, T, LOG_NUM_BUCKETS>(rng, buckets, data);
        },
    }
}

/// The block that gains a processed position in a step in which the number
/// `drawn` is drawn, among `num_buckets` blocks: the block after the one
/// drawn, and the first block for the last number.
pub open spec fn target_of(drawn: int, num_buckets: int) -> int {
    if drawn < num_buckets - 1 {
        drawn + 1
    } else {
        0
    }
}

/// One step of the rough shuffle, for the number `drawn`. For any number but
/// the last, the element on the first free position of the first block
/// changes places with the one on the first free position of the block after
/// the one drawn. For the last number no element moves. The first free
/// position of the block that [`target_of`] names is processed then. Returns
/// whether that block has become fully processed.
pub fn rough_shuffle_step<T>(buckets: &mut [Block], data: &mut [T], drawn: usize) -> (full: bool)
    requires
        drawn < old(buckets)@.len(),
        all_fit(old(buckets)@, old(data)@.len() as int),
        forall|k: int| 0 <= k < old(buckets)@.len() ==> !is_full_at(old(buckets)@, k),
    ensures
        ({
            let target = target_of(drawn as int, old(buckets)@.len() as int);
            let from = old(buckets)@[0].split();
            let to = old(buckets)@[target].split();
            &&& final(data)@ == if target != 0 {
                swapped(old(data)@, from, to)
            } else {
                old(data)@
            }
            &&& final(buckets)@ == old(buckets)@.update(
                target,
                Block {
                    span: old(buckets)@[target].span,
                    num_processed: (old(buckets)@[target].num_processed + 1) as usize,
                },
            )
            &&& full == is_full_at(final(buckets)@, target)
        }),
        permutes(old(data)@, final(data)@),
{
    let num_buckets = buckets.len();
    let active = buckets[0];
    let target: usize = if drawn < num_buckets - 1 {
        drawn + 1
    } else {
        0
    };
    let mut partner = buckets[target];
    proof {
        assert(buckets@[0].fits(data@.len() as int));
        assert(buckets@[target as int].fits(data@.len() as int));
        assert(!is_full_at(buckets@, 0));
        assert(!is_full_at(buckets@, target as int));
    }
    if target != 0 {
        swap_elements(
            data,
            active.span.start + active.num_processed,
            partner.span.start + partner.num_processed,
        );
    }
    let next = partner.process_element();
    buckets[target] = partner;
    next.is_none()
}

fn rough_shuffle_impl<R: Rng, T, const LOG_NUM_BUCKETS: usize>(
    rng: &mut R,
    buckets: &mut [Block],
    data: &mut [T],
)
    requires
        1 <= LOG_NUM_BUCKETS <= 10,
        old(buckets)@.len() == (1u64 << (LOG_NUM_BUCKETS as u64)),
        all_fit(old(buckets)@, old(data)@.len() as int),
        forall|k: int| 0 <= k < old(buckets)@.len() ==> !is_full_at(old(buckets)@, k),
    ensures
        rough_shuffled(old(buckets)@, final(buckets)@, old(data)@, final(data)@),
        some_fully_processed(final(buckets)@),
{
    let num_buckets = buckets.len();
    let mut rbs = RandomBitsSource::new();
    let width: u64 = LOG_NUM_BUCKETS as u64;
    assert((1u64 << width) >= 2) by (bit_vector)
        requires
            1 <= width <= 10,
    ;
    loop
        invariant_except_break
            forall|k: int| 0 <= k < buckets@.len() ==> !is_full_at(buckets@, k),
        invariant
            1 <= LOG_NUM_BUCKETS <= 10,
            num_buckets >= 2,
            num_buckets == buckets@.len(),
            num_buckets == (1u64 << (LOG_NUM_BUCKETS as u64)),
            rbs.wf(),
            all_fit(buckets@, data@.len() as int),
            rough_shuffled(old(buckets)@, buckets@, old(data)@, data@),
        ensures
            rough_shuffled(old(buckets)@, buckets@, old(data)@, data@),
            some_fully_processed(buckets@),
        decreases total_stash(buckets@),
    {
        let ghost row = buckets@;
        let ghost before = data@;
        let drawn = rbs.gen_const_bits::<LOG_NUM_BUCKETS, R>(rng) as usize;
        let ghost target = target_of(drawn as int, num_buckets as int);
        proof {
            assert(row[0].fits(data@.len() as int));
            assert(row[target].fits(data@.len() as int));
            assert(!is_full_at(row, 0));
            assert(!is_full_at(row, target));
            assert(old(buckets)@[0].span == row[0].span);
            assert(old(buckets)@[target].span == row[target].span);
            assert(in_stash_of(old(buckets)@, 0, row[0].split()));
            assert(in_stash_of(old(buckets)@, target, row[target].split()));
        }
        let full = rough_shuffle_step(buckets, data, drawn);
        proof {
            lemma_totals_update(row, target, buckets@[target]);
            lemma_total_stash_bounds(row, target);
            assert forall|i: int| 0 <= i < buckets@.len() implies (#[trigger] buckets@[i]).fits(
                data@.len() as int,
            ) by {
                assert(row[i].fits(before.len() as int));
            }
            assert forall|i: int| 0 <= i < buckets@.len() implies (#[trigger] buckets@[i]).span
                == old(buckets)@[i].span by {
                assert(row[i].span == old(buckets)@[i].span);
            }
            assert forall|i: int| 0 <= i < buckets@.len() implies {
                &&& (#[trigger] buckets@[i]).wf()
                &&& old(buckets)@[i].num_processed <= buckets@[i].num_processed
            } by {
                assert(row[i].wf());
            }
        }
        if full {
            proof {
                assert(is_full_at(buckets@, target));
            }
            break ;
        }
        proof {
            assert forall|k: int| 0 <= k < buckets@.len() implies !is_full_at(buckets@, k) by {
                assert(!is_full_at(row, k));
            }
        }
    }
}

} // verus!
