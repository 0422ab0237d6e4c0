//! The scatter shuffle on one thread, and the steps that it shares with the
//! scatter shuffle on several.

use crate::blocked::block::Block;
use crate::blocked::blocks::{
    adjacent_at, blocks_as_mut_slice, boundary, lemma_tiles_ordered, lemma_tiles_total,
    lemma_tiles_within, lemma_total_stash_bounds, same_spans, split_slice_into_blocks, tiles,
    total_processed, total_stash,
};
use crate::fisher_yates::is_fisher_yates;
use crate::blocked::slicing::Span;
use crate::fisher_yates::noncontiguous::{in_range_at, in_some_range, noncontiguous_fisher_yates};
use crate::rough_shuffle::{
    in_some_stash, in_stash_of, is_number_of_blocks, rough_shuffle, rough_shuffled,
    some_fully_processed,
};
use crate::scatter_shuffle::{Configuration, SeqConfiguration, NUM_BUCKETS};
use crate::slices::{
    lemma_ranges_swapped_multiset, lemma_replace_part_multiset, permutes, ranges_swapped,
    swap_ranges,
};
use crate::uniform_index::gen_index;
use rand::Rng;
use std::marker::PhantomData;
use vstd::math::{max, min};
use vstd::prelude::*;

verus! {

/// The number of positions of the stashes of the blocks from block `i` on.
pub open spec fn stash_from(blocks: Seq<Block>, i: int) -> int
    decreases blocks.len() - i,
{
    if 0 <= i < blocks.len() {
        blocks[i].stash_size() + stash_from(blocks, i + 1)
    } else {
        0
    }
}

/// The position of element `t` of the stash of block `i`.
pub open spec fn slot(blocks: Seq<Block>, i: int, t: int) -> int {
    blocks[i].split() + t
}

/// The position that element `t` of the stash of block `i` has while the
/// stashes are gathered at the back of the last block: there the stashes lie
/// one behind the other, in the order of their blocks.
pub open spec fn twin(blocks: Seq<Block>, i: int, t: int) -> int {
    blocks.last().span.end - stash_from(blocks, i) + t
}

/// `data` after the stashes of the blocks from block `from` on, but for the
/// last block, have changed places with the positions that [`twin`] gives
/// them.
pub open spec fn compacted<T>(blocks: Seq<Block>, data: Seq<T>, from: int) -> Seq<T>
    decreases blocks.len() - from,
{
    if 0 <= from < blocks.len() - 1 {
        ranges_swapped(
            compacted(blocks, data, from + 1),
            slot(blocks, from, 0),
            twin(blocks, from, 0),
            blocks[from].stash_size(),
        )
    } else {
        data
    }
}

/// The elements of the stashes were rearranged among the positions of the
/// stashes, and nothing else has changed.
pub open spec fn stashes_shuffled<T>(blocks: Seq<Block>, before: Seq<T>, after: Seq<T>) -> bool {
    &&& permutes(before, after)
    &&& forall|p: int|
        0 <= p < before.len() && !in_some_stash(blocks, p) ==> #[trigger] after[p] == before[p]
}

/// The stashes from a block on hold no more positions than the stashes from
/// an earlier block on.
pub proof fn lemma_stash_from_monotone(blocks: Seq<Block>, i: int, j: int)
    requires
        forall|k: int| 0 <= k < blocks.len() ==> (#[trigger] blocks[k]).wf(),
        0 <= i <= j <= blocks.len(),
    ensures
        0 <= stash_from(blocks, j) <= stash_from(blocks, i),
    decreases blocks.len() - i,
{
    if i < blocks.len() {
        assert(blocks[i].wf());
        if i < j {
            lemma_stash_from_monotone(blocks, i + 1, j);
        } else {
            lemma_stash_from_monotone(blocks, i + 1, i + 1);
        }
    }
}

/// Counting the stashes from a block on does not depend on where the row is
/// taken to end behind them.
proof fn lemma_stash_from_drop_last(blocks: Seq<Block>, i: int)
    requires
        0 <= i < blocks.len(),
    ensures
        stash_from(blocks, i) == stash_from(blocks.drop_last(), i) + blocks.last().stash_size(),
    decreases blocks.len() - i,
{
    if i < blocks.len() - 1 {
        lemma_stash_from_drop_last(blocks, i + 1);
    } else {
        assert(stash_from(blocks, i + 1) == 0);
        assert(stash_from(blocks.drop_last(), i) == 0);
    }
}

/// The stashes from the first block on are all stashes.
pub proof fn lemma_stash_from_total(blocks: Seq<Block>)
    ensures
        stash_from(blocks, 0) == total_stash(blocks),
    decreases blocks.len(),
{
    if blocks.len() > 0 {
        lemma_stash_from_drop_last(blocks, 0);
        lemma_stash_from_total(blocks.drop_last());
    }
}

/// Where the stashes fit the last block together, the stash of a block
/// before the last and the positions that [`twin`] gives it lie inside the
/// slice and apart: the first before the last block, the second inside its
/// processed prefix.
pub proof fn lemma_twin_apart(blocks: Seq<Block>, lo: int, hi: int, i: int)
    requires
        tiles(blocks, lo, hi),
        stash_from(blocks, 0) <= blocks.last().span.size(),
        0 <= i < blocks.len() - 1,
    ensures
        lo <= blocks[i].split() <= blocks[i].span.end <= blocks.last().span.start,
        blocks.last().span.start <= twin(blocks, i, 0),
        twin(blocks, i, 0) + blocks[i].stash_size() == twin(blocks, i + 1, 0),
        twin(blocks, i + 1, 0) <= blocks.last().split(),
        0 <= blocks[i].stash_size(),
        blocks.last().split() <= hi,
{
    let n = blocks.len() as int;
    assert(blocks[i].wf());
    assert(blocks[n - 1].wf());
    lemma_tiles_ordered(blocks, lo, hi, i, n - 1);
    lemma_stash_from_monotone(blocks, 0, i);
    lemma_stash_from_monotone(blocks, i + 1, n - 1);
    lemma_stash_from_monotone(blocks, n, n);
    assert(stash_from(blocks, n - 1) == blocks[n - 1].stash_size() + stash_from(blocks, n));
}

/// Gathering the stashes keeps the elements of the slice.
pub proof fn lemma_compacted_permutes<T>(
    blocks: Seq<Block>,
    lo: int,
    hi: int,
    data: Seq<T>,
    from: int,
)
    requires
        tiles(blocks, lo, hi),
        0 <= lo,
        hi <= data.len(),
        stash_from(blocks, 0) <= blocks.last().span.size(),
        0 <= from,
    ensures
        permutes(data, compacted(blocks, data, from)),
    decreases blocks.len() - from,
{
    if from < blocks.len() - 1 {
        lemma_compacted_permutes(blocks, lo, hi, data, from + 1);
        lemma_twin_apart(blocks, lo, hi, from);
        lemma_ranges_swapped_multiset(
            compacted(blocks, data, from + 1),
            slot(blocks, from, 0),
            twin(blocks, from, 0),
            blocks[from].stash_size(),
        );
    }
}

/// What gathering the stashes does, position by position: element `t` of the
/// stash of block `k` changes places with the element at its twin position,
/// and every other element stays.
pub proof fn lemma_compacted_elements<T>(
    blocks: Seq<Block>,
    lo: int,
    hi: int,
    data: Seq<T>,
    from: int,
)
    requires
        tiles(blocks, lo, hi),
        0 <= lo,
        hi <= data.len(),
        stash_from(blocks, 0) <= blocks.last().span.size(),
        0 <= from,
    ensures
        compacted(blocks, data, from).len() == data.len(),
        forall|k: int, t: int|
            from <= k < blocks.len() - 1 && 0 <= t < blocks[k].stash_size() ==> {
                &&& compacted(blocks, data, from)[#[trigger] slot(blocks, k, t)] == data[twin(
                    blocks,
                    k,
                    t,
                )]
                &&& compacted(blocks, data, from)[twin(blocks, k, t)] == data[slot(blocks, k, t)]
            },
        forall|p: int|
            0 <= p < data.len() && !(exists|k: int|
                from <= k < blocks.len() - 1 && in_stash_of(blocks, k, p)) && !(twin(
                blocks,
                from,
                0,
            ) <= p < blocks.last().split()) ==> #[trigger] compacted(blocks, data, from)[p]
                == data[p],
    decreases blocks.len() - from,
{
    let n = blocks.len() as int;
    if from < n - 1 {
        lemma_compacted_elements(blocks, lo, hi, data, from + 1);
        lemma_compacted_permutes(blocks, lo, hi, data, from + 1);
        lemma_twin_apart(blocks, lo, hi, from);
        let inner = compacted(blocks, data, from + 1);
        let outer = compacted(blocks, data, from);
        let a = slot(blocks, from, 0);
        let b = twin(blocks, from, 0);
        let size = blocks[from].stash_size();
        assert forall|k: int, t: int|
            from <= k < n - 1 && 0 <= t < blocks[k].stash_size() implies {
            &&& outer[#[trigger] slot(blocks, k, t)] == data[twin(blocks, k, t)]
            &&& outer[twin(blocks, k, t)] == data[slot(blocks, k, t)]
        } by {
            lemma_twin_apart(blocks, lo, hi, k);
            if k == from {
                assert(!in_stash_before_last(blocks, from + 1, slot(blocks, k, t))) by {
                    if in_stash_before_last(blocks, from + 1, slot(blocks, k, t)) {
                        let w = choose|w: int|
                            from + 1 <= w < n - 1 && in_stash_of(blocks, w, slot(blocks, k, t));
                        lemma_tiles_ordered(blocks, lo, hi, k, w);
                        assert(blocks[w].wf());
                    }
                }
                assert(!in_stash_before_last(blocks, from + 1, twin(blocks, k, t))) by {
                    if in_stash_before_last(blocks, from + 1, twin(blocks, k, t)) {
                        let w = choose|w: int|
                            from + 1 <= w < n - 1 && in_stash_of(blocks, w, twin(blocks, k, t));
                        lemma_twin_apart(blocks, lo, hi, w);
                    }
                }
                assert(inner[slot(blocks, k, t)] == data[slot(blocks, k, t)]);
                assert(inner[twin(blocks, k, t)] == data[twin(blocks, k, t)]);
            } else {
                lemma_tiles_ordered(blocks, lo, hi, from, k);
                lemma_stash_from_monotone(blocks, from + 1, k);
                assert(blocks[k].wf());
                assert(inner[slot(blocks, k, t)] == data[twin(blocks, k, t)]);
                assert(inner[twin(blocks, k, t)] == data[slot(blocks, k, t)]);
            }
        }
        assert forall|p: int|
            0 <= p < data.len() && !(exists|k: int|
                from <= k < n - 1 && in_stash_of(blocks, k, p)) && !(twin(blocks, from, 0) <= p
                < blocks.last().split()) implies #[trigger] outer[p] == data[p] by {
            assert(!in_stash_of(blocks, from, p));
            assert(!in_stash_before_last(blocks, from + 1, p)) by {
                if in_stash_before_last(blocks, from + 1, p) {
                    let w = choose|w: int| from + 1 <= w < n - 1 && in_stash_of(blocks, w, p);
                    assert(from <= w < n - 1 && in_stash_of(blocks, w, p));
                }
            }
            assert(inner[p] == data[p]);
        }
    } else {
        assert forall|k: int, t: int|
            from <= k < n - 1 && 0 <= t < blocks[k].stash_size() implies {
            &&& compacted(blocks, data, from)[#[trigger] slot(blocks, k, t)] == data[twin(
                blocks,
                k,
                t,
            )]
            &&& compacted(blocks, data, from)[twin(blocks, k, t)] == data[slot(blocks, k, t)]
        } by {}
    }
}

/// Whether the position `p` belongs to the stash of a block from block `from`
/// on, the last block apart.
pub open spec fn in_stash_before_last(blocks: Seq<Block>, from: int, p: int) -> bool {
    exists|k: int| from <= k < blocks.len() - 1 && in_stash_of(blocks, k, p)
}

/// Every position of the processed prefix of the last block that the
/// gathered stashes take up is the twin position of an element of a stash.
pub proof fn lemma_twins_cover(blocks: Seq<Block>, lo: int, hi: int, from: int, p: int)
    requires
        tiles(blocks, lo, hi),
        stash_from(blocks, 0) <= blocks.last().span.size(),
        0 <= from <= blocks.len() - 1,
        twin(blocks, from, 0) <= p < blocks.last().split(),
    ensures
        exists|k: int, t: int|
            from <= k < blocks.len() - 1 && 0 <= t < blocks[k].stash_size() && p == #[trigger] twin(
                blocks,
                k,
                t,
            ),
    decreases blocks.len() - from,
{
    let n = blocks.len() as int;
    if from == n - 1 {
        assert(blocks[n - 1].wf());
        lemma_stash_from_monotone(blocks, n, n);
        assert(stash_from(blocks, n - 1) == blocks[n - 1].stash_size() + stash_from(blocks, n));
        assert(false);
    } else {
        lemma_twin_apart(blocks, lo, hi, from);
        if p < twin(blocks, from + 1, 0) {
            let t = p - twin(blocks, from, 0);
            assert(p == twin(blocks, from, t));
        } else {
            lemma_twins_cover(blocks, lo, hi, from + 1, p);
        }
    }
}

/// Gathering the stashes, changing only what lies at the back of the last
/// block where the stashes are gathered, and gathering once more puts every
/// element outside the stashes back where it was.
pub proof fn lemma_compacted_back<T>(
    blocks: Seq<Block>,
    lo: int,
    hi: int,
    data0: Seq<T>,
    data2: Seq<T>,
)
    requires
        tiles(blocks, lo, hi),
        0 <= lo,
        hi <= data0.len(),
        stash_from(blocks, 0) <= blocks.last().span.size(),
        data2.len() == data0.len(),
        forall|p: int|
            0 <= p < data0.len() && !(hi - stash_from(blocks, 0) <= p < hi) ==> #[trigger] data2[p]
                == compacted(blocks, data0, 0)[p],
    ensures
        forall|p: int|
            0 <= p < data0.len() && !in_some_stash(blocks, p) ==> #[trigger] compacted(
                blocks,
                data2,
                0,
            )[p] == data0[p],
{
    let n = blocks.len() as int;
    let data1 = compacted(blocks, data0, 0);
    let data3 = compacted(blocks, data2, 0);
    lemma_compacted_elements(blocks, lo, hi, data0, 0);
    lemma_compacted_elements(blocks, lo, hi, data2, 0);
    assert(blocks[n - 1].wf());
    assert forall|p: int| 0 <= p < data0.len() && !in_some_stash(blocks, p) implies #[trigger] data3[p]
        == data0[p] by {
        assert(!in_stash_of(blocks, n - 1, p));
        assert(!in_stash_before_last(blocks, 0, p)) by {
            if in_stash_before_last(blocks, 0, p) {
                let w = choose|w: int| 0 <= w < n - 1 && in_stash_of(blocks, w, p);
                assert(in_stash_of(blocks, w, p));
            }
        }
        if twin(blocks, 0, 0) <= p < blocks.last().split() {
            lemma_twins_cover(blocks, lo, hi, 0, p);
            let (k, t) = choose|k: int, t: int|
                0 <= k < n - 1 && 0 <= t < blocks[k].stash_size() && p == #[trigger] twin(
                    blocks,
                    k,
                    t,
                );
            lemma_twin_apart(blocks, lo, hi, k);
            lemma_stash_from_monotone(blocks, 0, k);
            let q = slot(blocks, k, t);
            assert(data3[twin(blocks, k, t)] == data2[q]);
            assert(data2[q] == data1[q]);
            assert(data1[q] == data0[twin(blocks, k, t)]);
        } else {
            assert(data3[p] == data2[p]);
            assert(data2[p] == data1[p]);
            assert(data1[p] == data0[p]);
        }
    }
}

/// Gathers the stashes of all blocks at the back of the last block, which
/// must have room for them: the stash of every other block changes places
/// with processed elements of the last block, so that the stashes come to lie
/// one behind the other, in the order of their blocks, and end where the last
/// block ends. The blocks are left as they are, so a second call takes every
/// element back to where it was. Returns the number of elements of the
/// stashes.
pub fn compact_ranges<T>(buckets: &[Block], data: &mut [T]) -> (num_accepted: usize)
    requires
        tiles(
            buckets@,
            buckets@[0].span.start as int,
            buckets@[buckets@.len() - 1].span.end as int,
        ),
        buckets@[buckets@.len() - 1].span.end <= old(data)@.len(),
        total_stash(buckets@) <= buckets@[buckets@.len() - 1].span.size(),
    ensures
        num_accepted == total_stash(buckets@),
        final(data)@ == compacted(buckets@, old(data)@, 0),
        permutes(old(data)@, final(data)@),
{
    let ghost row = buckets@;
    let ghost lo = row[0].span.start as int;
    let ghost hi = row.last().span.end as int;
    let n = buckets.len();
    let acceptor = buckets[n - 1];
    proof {
        lemma_stash_from_total(row);
        assert(row[n - 1].wf());
        lemma_stash_from_monotone(row, n as int, n as int);
        assert(stash_from(row, n - 1) == row[n - 1].stash_size() + stash_from(row, n as int));
    }
    let mut num_accepted = acceptor.num_unprocessed();
    let mut i: usize = n - 1;
    while i > 0
        invariant
            row == buckets@,
            n == row.len(),
            i <= n - 1,
            acceptor == row[n - 1],
            lo == row[0].span.start,
            hi == row.last().span.end,
            tiles(row, lo, hi),
            hi <= data@.len(),
            data@.len() == old(data)@.len(),
            stash_from(row, 0) <= row.last().span.size(),
            num_accepted == stash_from(row, i as int),
            data@ == compacted(row, old(data)@, i as int),
        decreases i,
    {
        i = i - 1;
        let bucket = buckets[i];
        proof {
            assert(row[i as int].wf());
            lemma_twin_apart(row, lo, hi, i as int);
            lemma_tiles_within(row, lo, hi, i as int);
        }
        let to_accept = bucket.num_unprocessed();
        if to_accept > 0 {
            swap_ranges(
                data,
                bucket.span.start + bucket.num_processed,
                acceptor.span.end - num_accepted - to_accept,
                to_accept,
            );
        } else {
            proof {
                assert(ranges_swapped(data@, slot(row, i as int, 0), twin(row, i as int, 0), 0)
                    =~= data@);
            }
        }
        num_accepted = num_accepted + to_accept;
    }
    proof {
        lemma_compacted_permutes(row, lo, hi, old(data)@, 0);
    }
    num_accepted
}

/// The sum of the first `i` target lengths.
pub open spec fn targets_sum(targets: Seq<usize>, i: int) -> int
    decreases i,
{
    if i <= 0 {
        0
    } else {
        targets_sum(targets, i - 1) + targets[i - 1]
    }
}

/// Every block has the number of processed positions that it had, and holds
/// as processed the elements that it held as processed.
pub open spec fn processed_kept<T>(
    blocks_before: Seq<Block>,
    blocks_after: Seq<Block>,
    before: Seq<T>,
    after: Seq<T>,
) -> bool {
    &&& blocks_after.len() == blocks_before.len()
    &&& forall|i: int|
        0 <= i < blocks_before.len() ==> {
            &&& (#[trigger] blocks_after[i]).num_processed == blocks_before[i].num_processed
            &&& blocks_after[i].processed(after).to_multiset() == blocks_before[i].processed(
                before,
            ).to_multiset()
        }
}

/// Target lengths for a row of blocks that covers `lo..hi`: one for every
/// block, none below the number of processed positions of its block, and
/// `hi - lo` together.
pub open spec fn targets_fit(blocks: Seq<Block>, targets: Seq<usize>, lo: int, hi: int) -> bool {
    &&& targets.len() == blocks.len()
    &&& forall|i: int| 0 <= i < blocks.len() ==> (#[trigger] blocks[i]).num_processed <= targets[i]
    &&& targets_sum(targets, blocks.len() as int) == hi - lo
}

/// Target lengths that give every block its processed positions and hand
/// out, among all blocks, as many positions more as the stashes hold add up
/// to the length of the range that the blocks cover.
pub proof fn lemma_targets_fit(blocks: Seq<Block>, targets: Seq<usize>, lo: int, hi: int)
    requires
        tiles(blocks, lo, hi),
        targets.len() == blocks.len(),
        forall|i: int| 0 <= i < blocks.len() ==> (#[trigger] blocks[i]).num_processed <= targets[i],
        targets_sum(targets, blocks.len() as int) == total_processed(blocks) + total_stash(blocks),
    ensures
        targets_sum(targets, blocks.len() as int) == hi - lo,
        targets_fit(blocks, targets, lo, hi),
{
    lemma_tiles_total(blocks, lo, hi);
}

/// The sums of target lengths do not fall.
pub proof fn lemma_targets_sum_monotone(targets: Seq<usize>, i: int, j: int)
    requires
        0 <= i <= j,
    ensures
        0 <= targets_sum(targets, i) <= targets_sum(targets, j),
    decreases j,
{
    if i < j {
        lemma_targets_sum_monotone(targets, i, j - 1);
    } else if i > 0 {
        lemma_targets_sum_monotone(targets, i - 1, i - 1);
    }
}

/// What a step of a sweep that moves the boundary between the blocks `i` and
/// `i + 1` keeps: the row still covers `lo..hi`, and the blocks apart from
/// these two hold on their positions what they held.
proof fn lemma_boundary_moved<T>(
    row: Seq<Block>,
    lo: int,
    hi: int,
    i: int,
    left: Block,
    right: Block,
    before: Seq<T>,
    a: int,
    b: int,
    m: int,
)
    requires
        tiles(row, lo, hi),
        0 <= lo,
        hi <= before.len(),
        0 <= i < row.len() - 1,
        left.wf(),
        right.wf(),
        left.adjoins(&right),
        left.span.start == row[i].span.start,
        right.span.end == row[i + 1].span.end,
        0 <= m,
        row[i].span.start <= a,
        a + m <= row[i + 1].span.end,
        row[i].span.start <= b,
        b + m <= row[i + 1].span.end,
    ensures
        tiles(row.update(i, left).update(i + 1, right), lo, hi),
        forall|k: int|
            0 <= k < row.len() && k != i && k != i + 1 ==> (#[trigger] row[k]).processed(
                ranges_swapped(before, a, b, m),
            ) == row[k].processed(before),
{
    let after = row.update(i, left).update(i + 1, right);
    assert forall|k: int| 0 <= k < after.len() implies (#[trigger] after[k]).wf() by {
        assert(row[k].wf());
    }
    assert forall|k: int| 0 <= k < after.len() - 1 implies #[trigger] adjacent_at(after, k) by {
        assert(adjacent_at(row, k));
    }
    assert forall|k: int| 0 <= k < row.len() && k != i && k != i + 1 implies (#[trigger] row[k]).processed(
        ranges_swapped(before, a, b, m),
    ) == row[k].processed(before) by {
        assert(row[k].wf());
        lemma_tiles_within(row, lo, hi, k);
        if k < i {
            lemma_tiles_ordered(row, lo, hi, k, i);
        } else {
            lemma_tiles_ordered(row, lo, hi, i + 1, k);
        }
        assert(row[k].processed(ranges_swapped(before, a, b, m)) =~= row[k].processed(before));
    }
}

/// The sweep from the left: a block that reaches further to the right than
/// the target lengths up to and with its own allow hands the excess of its
/// stash over to the block that follows it. After the sweep the block `i`,
/// for every `i` but the last, ends at `lo` plus the sum of the first `i + 1`
/// target lengths, or where it ended before where that was further to the
/// left.
pub fn shrink_sweep_to_right<T>(buckets: &mut [Block], target_lengths: &[usize], data: &mut [T])
    requires
        old(buckets)@.len() > 0,
        tiles(
            old(buckets)@,
            old(buckets)@[0].span.start as int,
            old(buckets)@[old(buckets)@.len() - 1].span.end as int,
        ),
        old(buckets)@[old(buckets)@.len() - 1].span.end <= old(data)@.len(),
        targets_fit(
            old(buckets)@,
            target_lengths@,
            old(buckets)@[0].span.start as int,
            old(buckets)@[old(buckets)@.len() - 1].span.end as int,
        ),
    ensures
        tiles(
            final(buckets)@,
            old(buckets)@[0].span.start as int,
            old(buckets)@[old(buckets)@.len() - 1].span.end as int,
        ),
        processed_kept(old(buckets)@, final(buckets)@, old(data)@, final(data)@),
        permutes(old(data)@, final(data)@),
        forall|i: int|
            0 <= i < old(buckets)@.len() - 1 ==> (#[trigger] final(buckets)@[i]).span.end == min(
                old(buckets)@[i].span.end as int,
                old(buckets)@[0].span.start + targets_sum(target_lengths@, i + 1),
            ),
{
    let ghost row0 = buckets@;
    let ghost lo = row0[0].span.start as int;
    let ghost hi = row0.last().span.end as int;
    let ghost targets = target_lengths@;
    let n = buckets.len();
    let mut growth_needed_left: usize = 0;
    let mut i: usize = 0;
    while i < n - 1
        invariant
            n == row0.len(),
            n == buckets@.len(),
            n > 0,
            i <= n - 1,
            targets == target_lengths@,
            lo == row0[0].span.start,
            hi == row0.last().span.end,
            tiles(row0, lo, hi),
            tiles(buckets@, lo, hi),
            hi <= data@.len(),
            targets_fit(row0, targets, lo, hi),
            processed_kept(row0, buckets@, old(data)@, data@),
            permutes(old(data)@, data@),
            growth_needed_left == lo + targets_sum(targets, i as int) - buckets@[i as int].span.start,
            buckets@[i as int].span.end == row0[i as int].span.end,
            forall|k: int| i < k < n ==> #[trigger] buckets@[k] == row0[k],
            forall|k: int|
                0 <= k < i ==> (#[trigger] buckets@[k]).span.end == min(
                    row0[k].span.end as int,
                    lo + targets_sum(targets, k + 1),
                ),
        decreases n - 1 - i,
    {
        let ghost row = buckets@;
        let ghost before = data@;
        let target_length = target_lengths[i];
        let mut this_bucket = buckets[i];
        let mut next_bucket = buckets[i + 1];
        proof {
            lemma_targets_sum_monotone(targets, i + 1, n as int);
            lemma_tiles_within(row, lo, hi, i as int);
            lemma_tiles_within(row, lo, hi, i + 1);
            assert(adjacent_at(row, i as int));
            assert(row[i as int].wf());
            assert(row[i + 1].wf());
            assert(row0[i as int].num_processed <= targets[i as int]);
            assert(row[i as int].num_processed == row0[i as int].num_processed);
        }
        let target_with_reservation = target_length + growth_needed_left;
        if this_bucket.len() > target_with_reservation {
            let num_to_move = this_bucket.len() - target_with_reservation;
            this_bucket.shrink_to_right(&mut next_bucket, data, num_to_move);
            proof {
                let moved = min(row[i + 1].num_processed as int, num_to_move as int);
                lemma_boundary_moved(
                    row,
                    lo,
                    hi,
                    i as int,
                    this_bucket,
                    next_bucket,
                    before,
                    row[i as int].span.end - num_to_move,
                    row[i + 1].split() - moved,
                    moved,
                );
            }
        } else {
            proof {
                assert(row.update(i as int, this_bucket).update(i + 1, next_bucket) =~= row);
            }
        }
        buckets[i] = this_bucket;
        buckets[i + 1] = next_bucket;
        proof {
            assert(buckets@ =~= row.update(i as int, this_bucket).update(i + 1, next_bucket));
            assert forall|k: int| 0 <= k < n implies {
                &&& (#[trigger] buckets@[k]).num_processed == row0[k].num_processed
                &&& buckets@[k].processed(data@).to_multiset() == row0[k].processed(
                    old(data)@,
                ).to_multiset()
            } by {
                assert(row[k].num_processed == row0[k].num_processed);
                assert(row[k].processed(before).to_multiset() == row0[k].processed(
                    old(data)@,
                ).to_multiset());
            }
            assert forall|k: int| 0 <= k < i + 1 implies (#[trigger] buckets@[k]).span.end == min(
                row0[k].span.end as int,
                lo + targets_sum(targets, k + 1),
            ) by {
                if k < i {
                    assert(row[k].span.end == min(
                        row0[k].span.end as int,
                        lo + targets_sum(targets, k + 1),
                    ));
                }
            }
            assert forall|k: int| i + 1 < k < n implies #[trigger] buckets@[k] == row0[k] by {
                assert(row[k] == row0[k]);
            }
            assert(row[i + 1] == row0[i + 1]);
        }
        growth_needed_left = growth_needed_left + target_length - this_bucket.len();
        i = i + 1;
    }
}

/// The sweep from the right: a block that is longer than its target length
/// hands the excess at its front over to the block before it. After the sweep
/// the block `i`, for every `i` but the first, starts where its target length
/// lets it start, counted from its end, or where it started before where that
/// was further to the right: no block but the first is longer than its
/// target.
pub fn shrink_sweep_to_left<T>(buckets: &mut [Block], target_lengths: &[usize], data: &mut [T])
    requires
        old(buckets)@.len() > 0,
        tiles(
            old(buckets)@,
            old(buckets)@[0].span.start as int,
            old(buckets)@[old(buckets)@.len() - 1].span.end as int,
        ),
        old(buckets)@[old(buckets)@.len() - 1].span.end <= old(data)@.len(),
        targets_fit(
            old(buckets)@,
            target_lengths@,
            old(buckets)@[0].span.start as int,
            old(buckets)@[old(buckets)@.len() - 1].span.end as int,
        ),
    ensures
        tiles(
            final(buckets)@,
            old(buckets)@[0].span.start as int,
            old(buckets)@[old(buckets)@.len() - 1].span.end as int,
        ),
        processed_kept(old(buckets)@, final(buckets)@, old(data)@, final(data)@),
        permutes(old(data)@, final(data)@),
        forall|i: int|
            1 <= i < old(buckets)@.len() ==> (#[trigger] final(buckets)@[i]).span.start == max(
                old(buckets)@[i].span.start as int,
                final(buckets)@[i].span.end - target_lengths@[i],
            ),
{
    let ghost row0 = buckets@;
    let ghost lo = row0[0].span.start as int;
    let ghost hi = row0.last().span.end as int;
    let ghost targets = target_lengths@;
    let n = buckets.len();
    let mut i: usize = n - 1;
    while i > 0
        invariant
            n == row0.len(),
            n == buckets@.len(),
            n > 0,
            i <= n - 1,
            targets == target_lengths@,
            lo == row0[0].span.start,
            hi == row0.last().span.end,
            tiles(row0, lo, hi),
            tiles(buckets@, lo, hi),
            hi <= data@.len(),
            targets_fit(row0, targets, lo, hi),
            processed_kept(row0, buckets@, old(data)@, data@),
            permutes(old(data)@, data@),
            buckets@[i as int].span.start == row0[i as int].span.start,
            forall|k: int| 0 <= k < i ==> #[trigger] buckets@[k] == row0[k],
            forall|k: int|
                i < k < n ==> (#[trigger] buckets@[k]).span.start == max(
                    row0[k].span.start as int,
                    buckets@[k].span.end - targets[k],
                ),
        decreases i,
    {
        let ghost row = buckets@;
        let ghost before = data@;
        let target = target_lengths[i];
        let mut this_bucket = buckets[i];
        let mut left_bucket = buckets[i - 1];
        proof {
            lemma_tiles_within(row, lo, hi, i as int);
            lemma_tiles_within(row, lo, hi, i - 1);
            assert(adjacent_at(row, i - 1));
            assert(row[i as int].wf());
            assert(row[i - 1].wf());
            assert(row0[i as int].num_processed <= targets[i as int]);
            assert(row[i as int].num_processed == row0[i as int].num_processed);
        }
        if this_bucket.len() > target {
            let too_long_by = this_bucket.len() - target;
            left_bucket.grow_from_right(&mut this_bucket, data, too_long_by);
            proof {
                let moved = min(row[i as int].num_processed as int, too_long_by as int);
                lemma_boundary_moved(
                    row,
                    lo,
                    hi,
                    i - 1,
                    left_bucket,
                    this_bucket,
                    before,
                    row[i as int].span.start as int,
                    row[i as int].split() + too_long_by - moved,
                    moved,
                );
            }
        } else {
            proof {
                assert(row.update(i - 1, left_bucket).update(i as int, this_bucket) =~= row);
            }
        }
        buckets[i - 1] = left_bucket;
        buckets[i] = this_bucket;
        proof {
            assert(buckets@ =~= row.update(i - 1, left_bucket).update(i as int, this_bucket));
            assert forall|k: int| 0 <= k < n implies {
                &&& (#[trigger] buckets@[k]).num_processed == row0[k].num_processed
                &&& buckets@[k].processed(data@).to_multiset() == row0[k].processed(
                    old(data)@,
                ).to_multiset()
            } by {
                assert(row[k].num_processed == row0[k].num_processed);
                assert(row[k].processed(before).to_multiset() == row0[k].processed(
                    old(data)@,
                ).to_multiset());
            }
            assert forall|k: int| i - 1 < k < n implies (#[trigger] buckets@[k]).span.start == max(
                row0[k].span.start as int,
                buckets@[k].span.end - targets[k],
            ) by {
                if k > i {
                    assert(row[k].span.start == max(
                        row0[k].span.start as int,
                        row[k].span.end - targets[k],
                    ));
                }
            }
            assert forall|k: int| 0 <= k < i - 1 implies #[trigger] buckets@[k] == row0[k] by {
                assert(row[k] == row0[k]);
            }
            assert(row[i - 1] == row0[i - 1]);
        }
        i = i - 1;
    }
}

/// After the sweep from the left and then the sweep from the right, every
/// block starts at `lo` plus the sum of the target lengths of the blocks
/// before it.
proof fn lemma_sweeps_fit(
    row0: Seq<Block>,
    row1: Seq<Block>,
    row2: Seq<Block>,
    targets: Seq<usize>,
    lo: int,
    hi: int,
    i: int,
)
    requires
        row0.len() == row1.len() == row2.len() == targets.len(),
        tiles(row0, lo, hi),
        tiles(row1, lo, hi),
        tiles(row2, lo, hi),
        targets_sum(targets, row0.len() as int) == hi - lo,
        forall|k: int|
            0 <= k < row0.len() - 1 ==> (#[trigger] row1[k]).span.end == min(
                row0[k].span.end as int,
                lo + targets_sum(targets, k + 1),
            ),
        forall|k: int|
            1 <= k < row0.len() ==> (#[trigger] row2[k]).span.start == max(
                row1[k].span.start as int,
                row2[k].span.end - targets[k],
            ),
        0 <= i < row0.len(),
    ensures
        row2[i].span.start == lo + targets_sum(targets, i),
        row2[i].span.end == lo + targets_sum(targets, i + 1),
    decreases row0.len() - i,
{
    let n = row0.len() as int;
    if i < n - 1 {
        lemma_sweeps_fit(row0, row1, row2, targets, lo, hi, i + 1);
        assert(adjacent_at(row2, i));
    }
    if i > 0 {
        assert(adjacent_at(row1, i - 1));
        assert(row1[i - 1].span.end == min(
            row0[i - 1].span.end as int,
            lo + targets_sum(targets, i),
        ));
        assert(row2[i].span.start == max(
            row1[i].span.start as int,
            row2[i].span.end - targets[i],
        ));
    }
}

/// Moves the boundaries between the blocks so that every block gets its
/// target length, by a sweep from the left and a sweep from the right. The
/// blocks keep their processed elements at their fronts; the elements of the
/// stashes make up the rest.
pub fn move_buckets_to_fit_target_len<T>(
    buckets: &mut [Block],
    target_lengths: &[usize],
    data: &mut [T],
)
    requires
        old(buckets)@.len() > 0,
        tiles(
            old(buckets)@,
            old(buckets)@[0].span.start as int,
            old(buckets)@[old(buckets)@.len() - 1].span.end as int,
        ),
        old(buckets)@[old(buckets)@.len() - 1].span.end <= old(data)@.len(),
        targets_fit(
            old(buckets)@,
            target_lengths@,
            old(buckets)@[0].span.start as int,
            old(buckets)@[old(buckets)@.len() - 1].span.end as int,
        ),
    ensures
        tiles(
            final(buckets)@,
            old(buckets)@[0].span.start as int,
            old(buckets)@[old(buckets)@.len() - 1].span.end as int,
        ),
        forall|i: int|
            0 <= i < old(buckets)@.len() ==> (#[trigger] final(buckets)@[i]).span.size()
                == target_lengths@[i],
        processed_kept(old(buckets)@, final(buckets)@, old(data)@, final(data)@),
        permutes(old(data)@, final(data)@),
{
    let ghost row0 = buckets@;
    let ghost lo = row0[0].span.start as int;
    let ghost hi = row0.last().span.end as int;
    shrink_sweep_to_right(buckets, target_lengths, data);
    let ghost row1 = buckets@;
    let ghost data1 = data@;
    proof {
        assert(row1[0].span.start == lo);
        assert(row1.last().span.end == hi);
        assert forall|i: int| 0 <= i < row1.len() implies (#[trigger] row1[i]).num_processed
            <= target_lengths@[i] by {
            assert(row0[i].num_processed <= target_lengths@[i]);
        }
    }
    shrink_sweep_to_left(buckets, target_lengths, data);
    proof {
        let row2 = buckets@;
        assert forall|i: int| 0 <= i < row0.len() implies (#[trigger] row2[i]).span.size()
            == target_lengths@[i] by {
            lemma_sweeps_fit(row0, row1, row2, target_lengths@, lo, hi, i);
        }
        assert forall|i: int| 0 <= i < row0.len() implies {
            &&& (#[trigger] row2[i]).num_processed == row0[i].num_processed
            &&& row2[i].processed(data@).to_multiset() == row0[i].processed(
                old(data)@,
            ).to_multiset()
        } by {
            assert(row1[i].num_processed == row0[i].num_processed);
            assert(row1[i].processed(data1).to_multiset() == row0[i].processed(
                old(data)@,
            ).to_multiset());
        }
    }
}

/// The sum of target lengths depends on the lengths summed only.
pub proof fn lemma_targets_sum_prefix(a: Seq<usize>, b: Seq<usize>, i: int)
    requires
        0 <= i <= a.len(),
        i <= b.len(),
        forall|k: int| 0 <= k < i ==> a[k] == b[k],
    ensures
        targets_sum(a, i) == targets_sum(b, i),
    decreases i,
{
    if i > 0 {
        lemma_targets_sum_prefix(a, b, i - 1);
    }
}

/// The first blocks of a row have no more processed positions than the row.
pub proof fn lemma_total_processed_prefix(blocks: Seq<Block>, i: int)
    requires
        forall|k: int| 0 <= k < blocks.len() ==> (#[trigger] blocks[k]).wf(),
        0 <= i <= blocks.len(),
    ensures
        0 <= total_processed(blocks.subrange(0, i)) <= total_processed(blocks),
    decreases blocks.len() - i,
{
    let front = blocks.subrange(0, i);
    if i > 0 {
        assert forall|k: int| 0 <= k < front.len() implies (#[trigger] front[k]).wf() by {
            assert(blocks[k].wf());
        }
        lemma_total_stash_bounds(front, 0);
    }
    if i < blocks.len() {
        lemma_total_processed_prefix(blocks, i + 1);
        assert(blocks.subrange(0, i + 1).drop_last() =~= front);
        assert(blocks[i].wf());
    } else {
        assert(front =~= blocks);
    }
}

/// The number of draws that are zero.
pub open spec fn hits(draws: Seq<usize>) -> int
    decreases draws.len(),
{
    if draws.len() == 0 {
        0
    } else {
        hits(draws.drop_last()) + if draws.last() == 0 {
            1int
        } else {
            0int
        }
    }
}

/// Whether `draws` can be the numbers drawn for `trials` balls among `bins`
/// bins: one number below `bins` for every ball.
pub open spec fn are_draws(draws: Seq<usize>, trials: int, bins: int) -> bool {
    &&& draws.len() == trials
    &&& forall|i: int| 0 <= i < trials ==> #[trigger] draws[i] < bins
}

/// Draws how many of `trials` balls fall into the first of `bins` bins, where
/// every ball falls into every bin with the same probability: a number with
/// the binomial distribution of `trials` trials with probability `1 / bins`.
/// Every ball is drawn for itself; with one bin left nothing is drawn.
pub fn draw_binomial<R: Rng>(rng: &mut R, trials: usize, bins: usize) -> (successes: usize)
    requires
        bins > 0,
    ensures
        successes <= trials,
        bins == 1 ==> successes == trials,
        bins > 1 ==> exists|draws: Seq<usize>| #[trigger]
            are_draws(draws, trials as int, bins as int) && successes == hits(draws),
{
    if bins == 1 {
        return trials;
    }
    let mut successes: usize = 0;
    let mut ball: usize = 0;
    let ghost mut draws: Seq<usize> = Seq::empty();
    while ball < trials
        invariant
            bins > 0,
            ball <= trials,
            successes <= ball,
            are_draws(draws, ball as int, bins as int),
            successes == hits(draws),
        decreases trials - ball,
    {
        let drawn = gen_index(rng, bins);
        proof {
            let before = draws;
            draws = before.push(drawn);
            assert(draws.drop_last() =~= before);
        }
        if drawn == 0 {
            successes = successes + 1;
        }
        ball = ball + 1;
    }
    successes
}

/// Draws how many of `num_balls` balls fall into each of `num_bins` bins,
/// where every ball falls into every bin with the same probability. Bin by
/// bin, the number for the bin at hand is drawn binomially from the balls
/// that are left for it and the bins behind it.
pub fn multinomial<R: Rng>(rng: &mut R, num_bins: usize, num_balls: usize) -> (counts: Vec<usize>)
    requires
        num_bins > 0,
    ensures
        counts@.len() == num_bins,
        targets_sum(counts@, num_bins as int) == num_balls,
{
    let mut left = num_balls;
    let mut counts: Vec<usize> = Vec::new();
    let mut i: usize = 0;
    while i < num_bins
        invariant
            num_bins > 0,
            i <= num_bins,
            left <= num_balls,
            i == num_bins ==> left == 0,
            counts@.len() == i,
            targets_sum(counts@, i as int) == num_balls - left,
        decreases num_bins - i,
    {
        let remaining_bins = num_bins - i;
        let into_this_bin = draw_binomial(rng, left, remaining_bins);
        left = left - into_this_bin;
        let ghost drawn = counts@;
        counts.push(into_this_bin);
        proof {
            lemma_targets_sum_prefix(drawn, counts@, i as int);
        }
        i = i + 1;
    }
    counts
}

/// The lengths that the blocks are to have where block `i` gets
/// `additional[i]` positions on top of its processed positions.
pub fn target_lengths(buckets: &[Block], additional: &[usize]) -> (target_len: Vec<usize>)
    requires
        forall|i: int| 0 <= i < buckets@.len() ==> (#[trigger] buckets@[i]).wf(),
        additional@.len() == buckets@.len(),
        total_processed(buckets@) + targets_sum(additional@, additional@.len() as int)
            <= usize::MAX,
    ensures
        target_len@.len() == buckets@.len(),
        forall|i: int|
            0 <= i < buckets@.len() ==> #[trigger] target_len@[i] == buckets@[i].num_processed
                + additional@[i],
        targets_sum(target_len@, buckets@.len() as int) == total_processed(buckets@) + targets_sum(
            additional@,
            additional@.len() as int,
        ),
{
    let n = buckets.len();
    let mut target_len: Vec<usize> = Vec::new();
    let mut i: usize = 0;
    proof {
        assert(buckets@.subrange(0, 0) =~= Seq::<Block>::empty());
    }
    while i < n
        invariant
            n == buckets@.len(),
            n == additional@.len(),
            i <= n,
            forall|k: int| 0 <= k < buckets@.len() ==> (#[trigger] buckets@[k]).wf(),
            total_processed(buckets@) + targets_sum(additional@, n as int) <= usize::MAX,
            target_len@.len() == i,
            forall|k: int|
                0 <= k < i ==> #[trigger] target_len@[k] == buckets@[k].num_processed
                    + additional@[k],
            targets_sum(target_len@, i as int) == total_processed(buckets@.subrange(0, i as int))
                + targets_sum(additional@, i as int),
        decreases n - i,
    {
        let bucket = buckets[i];
        let ghost drawn = target_len@;
        proof {
            lemma_total_processed_prefix(buckets@, i as int);
            lemma_total_processed_prefix(buckets@, i + 1);
            lemma_targets_sum_monotone(additional@, i + 1, n as int);
            lemma_targets_sum_monotone(additional@, i as int, i as int);
            assert(buckets@.subrange(0, i + 1).drop_last() =~= buckets@.subrange(0, i as int));
        }
        target_len.push(bucket.num_processed + additional[i]);
        proof {
            lemma_targets_sum_prefix(drawn, target_len@, i as int);
        }
        i = i + 1;
    }
    proof {
        assert(buckets@.subrange(0, n as int) =~= buckets@);
    }
    target_len
}

/// Draws the lengths that the blocks are to have after the rough shuffle.
/// Every block keeps its processed positions, and the `num_unprocessed`
/// positions of the stashes are handed out among the blocks by
/// [`multinomial`].
pub fn sample_final_bucket_size<R: Rng>(
    rng: &mut R,
    num_unprocessed: usize,
    buckets: &[Block],
) -> (target_len: Vec<usize>)
    requires
        forall|i: int| 0 <= i < buckets@.len() ==> (#[trigger] buckets@[i]).wf(),
        buckets@.len() > 0,
        total_processed(buckets@) + num_unprocessed <= usize::MAX,
    ensures
        target_len@.len() == buckets@.len(),
        forall|i: int|
            0 <= i < buckets@.len() ==> (#[trigger] buckets@[i]).num_processed <= target_len@[i],
        targets_sum(target_len@, buckets@.len() as int) == total_processed(buckets@)
            + num_unprocessed,
{
    let additional = multinomial(rng, buckets.len(), num_unprocessed);
    target_lengths(buckets, additional.as_slice())
}

/// Whether `blocks` are the `n` blocks of equal size, up to rounding, that a
/// slice of `len` elements is cut into, none of whose positions is processed.
pub open spec fn is_even_cut(blocks: Seq<Block>, len: int, n: int) -> bool {
    &&& blocks.len() == n
    &&& forall|i: int|
        0 <= i < n ==> {
            &&& (#[trigger] blocks[i]).span.start == boundary(i, len, n)
            &&& blocks[i].span.end == boundary(i + 1, len, n)
            &&& blocks[i].num_processed == 0
        }
}

/// Whether a scatter shuffle on `n` blocks can take `before` to `after` by
/// way of the states given: the blocks `cut` that the slice is cut into; the
/// blocks `roughly` and the elements `rough` after the rough shuffle; the
/// elements `stashed` after the stashes are shuffled; the lengths `targets`
/// drawn for the blocks; the blocks `fitted` and the elements `reshaped` after
/// the blocks have got these lengths; and at last every block rearranged for
/// itself.
pub open spec fn are_scatter_steps<T>(
    before: Seq<T>,
    after: Seq<T>,
    n: int,
    cut: Seq<Block>,
    roughly: Seq<Block>,
    rough: Seq<T>,
    stashed: Seq<T>,
    targets: Seq<usize>,
    fitted: Seq<Block>,
    reshaped: Seq<T>,
) -> bool {
    &&& is_even_cut(cut, before.len() as int, n)
    &&& rough_shuffled(cut, roughly, before, rough)
    &&& some_fully_processed(roughly)
    &&& stashes_shuffled(roughly, rough, stashed)
    &&& targets_fit(roughly, targets, 0, before.len() as int)
    &&& tiles(fitted, 0, before.len() as int)
    &&& forall|i: int| 0 <= i < n ==> (#[trigger] fitted[i]).span.size() == targets[i]
    &&& processed_kept(roughly, fitted, stashed, reshaped)
    &&& permutes(stashed, reshaped)
    &&& after.len() == before.len()
    &&& forall|i: int|
        0 <= i < n ==> permutes((#[trigger] fitted[i]).contents(reshaped), fitted[i].contents(after))
}

/// `after` is what a scatter shuffle on `n` blocks can make of `before`.
pub open spec fn is_scattered<T>(before: Seq<T>, after: Seq<T>, n: int) -> bool {
    exists|
        cut: Seq<Block>,
        roughly: Seq<Block>,
        rough: Seq<T>,
        stashed: Seq<T>,
        targets: Seq<usize>,
        fitted: Seq<Block>,
        reshaped: Seq<T>,
    | #[trigger]
        are_scatter_steps(
            before,
            after,
            n,
            cut,
            roughly,
            rough,
            stashed,
            targets,
            fitted,
            reshaped,
        )
}

/// `after` is what the scatter shuffle on `n` blocks, with a base case for
/// inputs of up to `base` elements, can make of `before`: an input of up to
/// `base` elements is left to the base case, which is Fisher-Yates where
/// `fisher_yates` is set, and a longer one is scattered.
pub open spec fn is_level<T>(
    before: Seq<T>,
    after: Seq<T>,
    n: int,
    base: int,
    fisher_yates: bool,
) -> bool {
    if before.len() <= base {
        fisher_yates ==> is_fisher_yates(before, after)
    } else {
        is_scattered(before, after, n)
    }
}

/// The number of blocks that an input of `len` elements is cut into where
/// the base case takes up to `base` elements and `most` blocks are used at
/// most: the largest power of two that is no more than twice the number of
/// times that `base` goes into `len`; or 0 where that is less than four, and
/// the input is left to the base case.
pub open spec fn adaptive_blocks(len: int, base: int, most: int) -> int {
    let quotient = len / base;
    let twice = if quotient > usize::MAX / 2 {
        usize::MAX as int
    } else {
        quotient * 2
    };
    if twice <= 2 {
        0
    } else if twice >= most {
        most
    } else if twice < 4 {
        2
    } else if twice < 8 {
        4
    } else if twice < 16 {
        8
    } else if twice < 32 {
        16
    } else if twice < 64 {
        32
    } else if twice < 128 {
        64
    } else if twice < 256 {
        128
    } else if twice < 512 {
        256
    } else {
        512
    }
}

/// `after` is what the scatter shuffle that chooses the number of its blocks
/// by the length of the input can make of `before`.
pub open spec fn is_adaptive<T>(
    before: Seq<T>,
    after: Seq<T>,
    most: int,
    base: int,
    fisher_yates: bool,
) -> bool {
    let n = adaptive_blocks(before.len() as int, base, most);
    if n == 0 {
        fisher_yates ==> is_fisher_yates(before, after)
    } else {
        is_level(before, after, n, base, fisher_yates)
    }
}

/// Whether block `i` holds in `after` what the scatter shuffle on one thread
/// that chooses the number of its blocks by the length of its input can make
/// of what it holds in `before`; or, for a block that is as long as the whole
/// slice, what the base case can make of it.
pub open spec fn seq_shuffled_at<T>(
    blocks: Seq<Block>,
    before: Seq<T>,
    after: Seq<T>,
    i: int,
    most: int,
    base: int,
    fisher_yates: bool,
) -> bool {
    let held = blocks[i].contents(before);
    let holds = blocks[i].contents(after);
    if held.len() < before.len() {
        is_adaptive(held, holds, most, base, fisher_yates)
    } else {
        fisher_yates ==> is_fisher_yates(held, holds)
    }
}

/// Whether every one of the `n` blocks is left as it is, or every one holds
/// in `after` what the scatter shuffle on one thread can make of what it holds
/// in `before`.
pub open spec fn seq_blocks_shuffled<T>(
    blocks: Seq<Block>,
    before: Seq<T>,
    after: Seq<T>,
    n: int,
    most: int,
    base: int,
    fisher_yates: bool,
) -> bool {
    after == before || forall|i: int|
        0 <= i < n ==> #[trigger] seq_shuffled_at(blocks, before, after, i, most, base, fisher_yates)
}

/// `after` is what the scatter shuffle on one thread, on `n` blocks, can make
/// of `before`: the steps of a scatter shuffle, and then every block shuffled
/// in its turn by the scatter shuffle that chooses the number of its blocks
/// by the length of its input, on `most` blocks at most and with a base case
/// for inputs of up to `base` elements; or every block left as it is. Of the
/// shuffle of a block, [`is_adaptive`] says what it does to the block, and no
/// more of what it does to the blocks of the block than that they keep their
/// elements.
pub open spec fn is_seq_scattered<T>(
    before: Seq<T>,
    after: Seq<T>,
    n: int,
    most: int,
    base: int,
    fisher_yates: bool,
) -> bool {
    exists|
        cut: Seq<Block>,
        roughly: Seq<Block>,
        rough: Seq<T>,
        stashed: Seq<T>,
        targets: Seq<usize>,
        fitted: Seq<Block>,
        reshaped: Seq<T>,
    |
        {
            &&& #[trigger] are_scatter_steps(
                before,
                after,
                n,
                cut,
                roughly,
                rough,
                stashed,
                targets,
                fitted,
                reshaped,
            )
            &&& seq_blocks_shuffled(fitted, reshaped, after, n, most, base, fisher_yates)
        }
}

/// [`is_level`], with what is done to the blocks: an input of more than
/// `base` elements is scattered as [`is_seq_scattered`] says.
pub open spec fn is_seq_level<T>(
    before: Seq<T>,
    after: Seq<T>,
    n: int,
    most: int,
    base: int,
    fisher_yates: bool,
) -> bool {
    if before.len() <= base {
        fisher_yates ==> is_fisher_yates(before, after)
    } else {
        is_seq_scattered(before, after, n, most, base, fisher_yates)
    }
}

/// [`is_adaptive`], with what is done to the blocks.
pub open spec fn is_seq_adaptive<T>(
    before: Seq<T>,
    after: Seq<T>,
    most: int,
    base: int,
    fisher_yates: bool,
) -> bool {
    let n = adaptive_blocks(before.len() as int, base, most);
    if n == 0 {
        fisher_yates ==> is_fisher_yates(before, after)
    } else {
        is_seq_level(before, after, n, most, base, fisher_yates)
    }
}

/// The scatter shuffle on one thread, on `NUM_BUCKETS` blocks and with the
/// base case that `config` gives.
pub struct SeqScatterShuffleImpl<R, T, C, const NUM_BUCKETS: usize> {
    pub config: C,
    pub _phantom_r: PhantomData<R>,
    pub _phantom_t: PhantomData<T>,
}

/// The ranges of the stashes of the blocks.
fn stash_spans(buckets: &[Block]) -> (ranges: Vec<Span>)
    requires
        forall|i: int| 0 <= i < buckets@.len() ==> (#[trigger] buckets@[i]).wf(),
    ensures
        ranges@.len() == buckets@.len(),
        forall|i: int|
            0 <= i < buckets@.len() ==> (#[trigger] ranges@[i]).start == buckets@[i].split()
                && ranges@[i].end == buckets@[i].span.end,
{
    let mut ranges: Vec<Span> = Vec::new();
    let mut i: usize = 0;
    while i < buckets.len()
        invariant
            i <= buckets@.len(),
            ranges@.len() == i,
            forall|k: int| 0 <= k < buckets@.len() ==> (#[trigger] buckets@[k]).wf(),
            forall|k: int|
                0 <= k < i ==> (#[trigger] ranges@[k]).start == buckets@[k].split()
                    && ranges@[k].end == buckets@[k].span.end,
        decreases buckets@.len() - i,
    {
        let bucket = buckets[i];
        assert(bucket.wf());
        ranges.push(Span::new(bucket.span.start + bucket.num_processed, bucket.span.end));
        i = i + 1;
    }
    ranges
}

/// The number of positions of all stashes together.
pub fn count_unprocessed(buckets: &[Block]) -> (num_unprocessed: usize)
    requires
        buckets@.len() > 0,
        tiles(
            buckets@,
            buckets@[0].span.start as int,
            buckets@[buckets@.len() - 1].span.end as int,
        ),
    ensures
        num_unprocessed == total_stash(buckets@),
{
    let ghost lo = buckets@[0].span.start as int;
    let ghost hi = buckets@[buckets@.len() - 1].span.end as int;
    let mut num_unprocessed: usize = 0;
    let mut i: usize = buckets.len();
    proof {
        lemma_stash_from_total(buckets@);
        lemma_tiles_total(buckets@, lo, hi);
    }
    while i > 0
        invariant
            i <= buckets@.len(),
            tiles(buckets@, lo, hi),
            stash_from(buckets@, 0) <= usize::MAX,
            num_unprocessed == stash_from(buckets@, i as int),
        decreases i,
    {
        i = i - 1;
        let bucket = buckets[i];
        proof {
            assert(buckets@[i as int].wf());
            lemma_stash_from_monotone(buckets@, 0, i as int);
        }
        num_unprocessed = num_unprocessed + bucket.num_unprocessed();
    }
    num_unprocessed
}

/// Rearranges the elements of the stashes of all blocks into a uniformly
/// random order among the positions of the stashes, and returns their number.
///
/// Where the last block has room for all of them, the stashes are gathered at
/// its back, shuffled there as one slice by `algo`, and taken back. Where it
/// has not, which takes a small input or a rough shuffle that went very
/// unevenly, they are shuffled where they lie.
pub fn shuffle_stashes<R: Rng, T, C: SeqConfiguration, const NUM_BUCKETS: usize>(
    rng: &mut R,
    buckets: &[Block],
    data: &mut [T],
    algo: &SeqScatterShuffleImpl<R, T, C, NUM_BUCKETS>,
) -> (stash_size: usize)
    requires
        buckets@.len() > 0,
        tiles(
            buckets@,
            buckets@[0].span.start as int,
            buckets@[buckets@.len() - 1].span.end as int,
        ),
        buckets@[buckets@.len() - 1].span.end <= old(data)@.len(),
        algo.wf(),
    ensures
        stash_size == total_stash(buckets@),
        stashes_shuffled(buckets@, old(data)@, final(data)@),
    decreases old(data)@.len(), 0nat,
{
    let ghost row = buckets@;
    let ghost lo = row[0].span.start as int;
    let ghost hi = row.last().span.end as int;
    let n = buckets.len();
    let total_len = data.len();
    let stash_size = count_unprocessed(buckets);
    let last = buckets[n - 1];
    proof {
        assert(row[n - 1].wf());
        lemma_stash_from_total(row);
        assert forall|i: int| 0 <= i < row.len() implies (#[trigger] row[i]).wf() by {}
    }
    if stash_size <= last.len() {
        compact_ranges(buckets, data);
        let ghost data1 = data@;
        let window = Span::new(last.span.end - stash_size, last.span.end);
        let part = window.slice_mut(data);
        if stash_size < total_len {
            algo.shuffle_adaptive(rng, part);
        } else {
            algo.config.seq_base_case_shuffle(rng, part);
        }
        let ghost data2 = data@;
        proof {
            lemma_replace_part_multiset(data1, window.start as int, window.end as int, final(part)@);
        }
        compact_ranges(buckets, data);
        proof {
            lemma_compacted_back(row, lo, hi, old(data)@, data2);
        }
    } else {
        let ranges = stash_spans(buckets);
        proof {
            assert forall|i: int| 0 <= i < ranges@.len() implies (#[trigger] ranges@[i]).fits(
                data@.len() as int,
            ) by {
                assert(row[i].wf());
                lemma_tiles_within(row, lo, hi, i);
            }
        }
        noncontiguous_fisher_yates(rng, data, ranges.as_slice());
        proof {
            assert forall|p: int| 0 <= p < old(data)@.len() && !in_some_stash(row, p) implies #[trigger] data@[p]
                == old(data)@[p] by {
                if in_some_range(ranges@, p) {
                    let i = choose|i: int| 0 <= i < ranges@.len() && in_range_at(ranges@, i, p);
                    assert(ranges@[i].start == row[i].split());
                    assert(in_stash_of(row, i, p));
                }
            }
        }
    }
    stash_size
}

impl<R: Rng, T, C: SeqConfiguration, const NUM_BUCKETS: usize> SeqScatterShuffleImpl<
    R,
    T,
    C,
    NUM_BUCKETS,
> {
    /// The number of blocks is one that the rough shuffle takes, and the base
    /// case has a size.
    pub open spec fn wf(&self) -> bool {
        &&& is_number_of_blocks(NUM_BUCKETS as int)
        &&& self.config.base_case_size() > 0
    }

    /// A scatter shuffle with the base case that `config` gives.
    pub fn new(config: C) -> (algo: Self)
        ensures
            algo.config == config,
    {
        Self { config, _phantom_r: PhantomData, _phantom_t: PhantomData }
    }

    /// Rearranges `data` into a uniformly random order. An input of moderate
    /// size is cut into fewer blocks than `NUM_BUCKETS`: into the largest
    /// power of two of blocks that leaves the blocks at least half the size
    /// of the base case. An input of up to the size of the base case, or
    /// little more, is left to the base case.
    pub fn shuffle_adaptive(&self, rng: &mut R, data: &mut [T])
        requires
            self.wf(),
        ensures
            permutes(old(data)@, final(data)@),
            is_adaptive(
                old(data)@,
                final(data)@,
                NUM_BUCKETS as int,
                self.config.base_case_size() as int,
                self.config.base_case_is_fisher_yates(),
            ),
            is_seq_adaptive(
                old(data)@,
                final(data)@,
                NUM_BUCKETS as int,
                self.config.base_case_size() as int,
                self.config.base_case_is_fisher_yates(),
            ),
        decreases old(data)@.len(), 3nat,
    {
        let quotient = data.len() / self.config.seq_base_case_size();
        let num_buckets = if quotient > usize::MAX / 2 {
            usize::MAX
        } else {
            quotient * 2
        };
        if num_buckets <= 2 {
            self.config.seq_base_case_shuffle(rng, data);
        } else if num_buckets >= NUM_BUCKETS {
            self.shuffle(rng, data);
        } else if num_buckets < 4 {
            self.shuffle_with(rng, data, 2);
        } else if num_buckets < 8 {
            self.shuffle_with(rng, data, 4);
        } else if num_buckets < 16 {
            self.shuffle_with(rng, data, 8);
        } else if num_buckets < 32 {
            self.shuffle_with(rng, data, 16);
        } else if num_buckets < 64 {
            self.shuffle_with(rng, data, 32);
        } else if num_buckets < 128 {
            self.shuffle_with(rng, data, 64);
        } else if num_buckets < 256 {
            self.shuffle_with(rng, data, 128);
        } else if num_buckets < 512 {
            self.shuffle_with(rng, data, 256);
        } else {
            self.shuffle_with(rng, data, 512);
        }
    }

    /// Rearranges `data` into a uniformly random order, on `NUM_BUCKETS`
    /// blocks where `data` is longer than the base case.
    pub fn shuffle(&self, rng: &mut R, data: &mut [T])
        requires
            self.wf(),
        ensures
            permutes(old(data)@, final(data)@),
            is_level(
                old(data)@,
                final(data)@,
                NUM_BUCKETS as int,
                self.config.base_case_size() as int,
                self.config.base_case_is_fisher_yates(),
            ),
            is_seq_level(
                old(data)@,
                final(data)@,
                NUM_BUCKETS as int,
                NUM_BUCKETS as int,
                self.config.base_case_size() as int,
                self.config.base_case_is_fisher_yates(),
            ),
        decreases old(data)@.len(), 2nat,
    {
        self.shuffle_with(rng, data, NUM_BUCKETS);
    }

    /// The scatter shuffle on `num_buckets` blocks: a rough shuffle, then the
    /// stashes are shuffled, then the blocks get the lengths that were drawn
    /// for them, and then every block is shuffled on its own.
    fn shuffle_with(&self, rng: &mut R, data: &mut [T], num_buckets: usize)
        requires
            self.wf(),
            is_number_of_blocks(num_buckets as int),
        ensures
            permutes(old(data)@, final(data)@),
            is_level(
                old(data)@,
                final(data)@,
                num_buckets as int,
                self.config.base_case_size() as int,
                self.config.base_case_is_fisher_yates(),
            ),
            is_seq_level(
                old(data)@,
                final(data)@,
                num_buckets as int,
                NUM_BUCKETS as int,
                self.config.base_case_size() as int,
                self.config.base_case_is_fisher_yates(),
            ),
        decreases old(data)@.len(), 1nat,
    {
        let total_len = data.len();
        if total_len <= self.config.seq_base_case_size() {
            self.config.seq_base_case_shuffle(rng, data);
            return ;
        }
        let mut blocks = split_slice_into_blocks(data, num_buckets);
        let buckets = blocks_as_mut_slice(&mut blocks);
        let ghost row0 = buckets@;
        rough_shuffle(rng, buckets, data);
        let ghost row1 = buckets@;
        let ghost data1 = data@;
        proof {
            lemma_same_spans_tiles(row0, row1, 0, total_len as int);
        }
        let num_unprocessed = shuffle_stashes(rng, buckets, data, self);
        let ghost data2 = data@;
        proof {
            lemma_tiles_total(row1, 0, total_len as int);
            assert forall|i: int| 0 <= i < row1.len() implies (#[trigger] row1[i]).wf() by {}
        }
        let target_lengths = sample_final_bucket_size(rng, num_unprocessed, buckets);
        move_buckets_to_fit_target_len(buckets, target_lengths.as_slice(), data);
        let ghost row = buckets@;
        let ghost data3 = data@;
        if !self.config.seq_disable_recursion() {
            let mut i: usize = 0;
            while i < buckets.len()
                invariant
                    self.wf(),
                    row == buckets@,
                    i <= row.len(),
                    total_len == data@.len(),
                    total_len == old(data)@.len(),
                    total_len == data3.len(),
                    tiles(row, 0, total_len as int),
                    permutes(old(data)@, data@),
                    blocks_shuffled(row, data3, data@, 0, i as int),
                    forall|k: int|
                        0 <= k < i ==> #[trigger] seq_shuffled_at(
                            row,
                            data3,
                            data@,
                            k,
                            NUM_BUCKETS as int,
                            self.config.base_case_size() as int,
                            self.config.base_case_is_fisher_yates(),
                        ),
                decreases row.len() - i,
            {
                let bucket = buckets[i];
                let ghost before = data@;
                proof {
                    assert(row[i as int].wf());
                    lemma_tiles_within(row, 0, total_len as int, i as int);
                }
                let part = bucket.data_mut(data);
                if part.len() < total_len {
                    self.shuffle_adaptive(rng, part);
                } else {
                    self.config.seq_base_case_shuffle(rng, part);
                }
                proof {
                    lemma_replace_part_multiset(
                        before,
                        bucket.span.start as int,
                        bucket.span.end as int,
                        final(part)@,
                    );
                    let start = bucket.span.start as int;
                    let end = bucket.span.end as int;
                    assert(data@.subrange(start, end) =~= final(part)@);
                    assert(data@.subrange(0, start) =~= before.subrange(0, start));
                    assert(data@.subrange(end, total_len as int) =~= before.subrange(
                        end,
                        total_len as int,
                    ));
                    lemma_block_shuffled(row, 0, total_len as int, data3, before, data@, i as int);
                    assert(untouched_at(row, data3, before, 0, i as int));
                    assert forall|k: int| 0 <= k < i + 1 implies #[trigger] seq_shuffled_at(
                        row,
                        data3,
                        data@,
                        k,
                        NUM_BUCKETS as int,
                        self.config.base_case_size() as int,
                        self.config.base_case_is_fisher_yates(),
                    ) by {
                        if k < i {
                            assert(seq_shuffled_at(
                                row,
                                data3,
                                before,
                                k,
                                NUM_BUCKETS as int,
                                self.config.base_case_size() as int,
                                self.config.base_case_is_fisher_yates(),
                            ));
                            lemma_tiles_within(row, 0, total_len as int, k);
                            lemma_tiles_ordered(row, 0, total_len as int, k, i as int);
                            assert(row[k].contents(data@) =~= row[k].contents(before)) by {
                                assert(row[k].contents(data@) =~= data@.subrange(
                                    0,
                                    start,
                                ).subrange(row[k].span.start as int, row[k].span.end as int));
                                assert(row[k].contents(before) =~= before.subrange(
                                    0,
                                    start,
                                ).subrange(row[k].span.start as int, row[k].span.end as int));
                            }
                        } else {
                            assert(row[k].contents(data@) =~= final(part)@);
                        }
                    }
                }
                i = i + 1;
            }
            proof {
                assert(row.len() == num_buckets);
                assert(seq_blocks_shuffled(
                    row,
                    data3,
                    data@,
                    num_buckets as int,
                    NUM_BUCKETS as int,
                    self.config.base_case_size() as int,
                    self.config.base_case_is_fisher_yates(),
                ));
            }
        } else {
            proof {
                assert(blocks_shuffled(row, data3, data@, 0, row.len() as int));
            }
        }
        proof {
            assert(is_even_cut(row0, total_len as int, num_buckets as int));
            assert forall|i: int| 0 <= i < num_buckets implies permutes(
                (#[trigger] row[i]).contents(data3),
                row[i].contents(data@),
            ) by {
                assert(shuffled_at(row, data3, data@, 0, i));
            }
            assert(are_scatter_steps(
                old(data)@,
                data@,
                num_buckets as int,
                row0,
                row1,
                data1,
                data2,
                target_lengths@,
                row,
                data3,
            ));
        }
    }
}

impl<R, T, C: Default, const NUM_BUCKETS: usize> Default for SeqScatterShuffleImpl<
    R,
    T,
    C,
    NUM_BUCKETS,
> {
    /// A scatter shuffle with the base case that `C` gives by default.
    fn default() -> Self {
        Self { config: Default::default(), _phantom_r: PhantomData, _phantom_t: PhantomData }
    }
}

/// Whether block `i` holds in `after` the elements that it holds in `before`,
/// in some order. The slices are the part from position `base` on of the slice
/// that the blocks were made for.
pub open spec fn shuffled_at<T>(
    blocks: Seq<Block>,
    before: Seq<T>,
    after: Seq<T>,
    base: int,
    i: int,
) -> bool {
    permutes(
        before.subrange(blocks[i].span.start - base, blocks[i].span.end - base),
        after.subrange(blocks[i].span.start - base, blocks[i].span.end - base),
    )
}

/// Whether block `i` holds in `after` what it holds in `before`.
pub open spec fn untouched_at<T>(
    blocks: Seq<Block>,
    before: Seq<T>,
    after: Seq<T>,
    base: int,
    i: int,
) -> bool {
    before.subrange(blocks[i].span.start - base, blocks[i].span.end - base) == after.subrange(
        blocks[i].span.start - base,
        blocks[i].span.end - base,
    )
}

/// Whether the first `done` blocks hold in `after` the elements that they
/// hold in `before`, each in some order, and the other blocks hold what they
/// held.
pub open spec fn blocks_shuffled<T>(
    blocks: Seq<Block>,
    before: Seq<T>,
    after: Seq<T>,
    base: int,
    done: int,
) -> bool {
    &&& forall|k: int| 0 <= k < done && k < blocks.len() ==> shuffled_at(blocks, before, after, base, k)
    &&& forall|k: int| done <= k < blocks.len() ==> untouched_at(blocks, before, after, base, k)
}

/// Rearranging the elements of block `i` adds that block to the blocks that
/// are shuffled, and leaves the others as they are.
pub proof fn lemma_block_shuffled<T>(
    blocks: Seq<Block>,
    lo: int,
    hi: int,
    origin: Seq<T>,
    before: Seq<T>,
    after: Seq<T>,
    i: int,
)
    requires
        tiles(blocks, lo, hi),
        0 <= i < blocks.len(),
        hi - lo == before.len(),
        before.len() == after.len(),
        before.len() == origin.len(),
        blocks_shuffled(blocks, origin, before, lo, i),
        permutes(
            before.subrange(blocks[i].span.start - lo, blocks[i].span.end - lo),
            after.subrange(blocks[i].span.start - lo, blocks[i].span.end - lo),
        ),
        after.subrange(0, blocks[i].span.start - lo) == before.subrange(
            0,
            blocks[i].span.start - lo,
        ),
        after.subrange(blocks[i].span.end - lo, after.len() as int) == before.subrange(
            blocks[i].span.end - lo,
            before.len() as int,
        ),
    ensures
        blocks_shuffled(blocks, origin, after, lo, i + 1),
{
    let start = blocks[i].span.start - lo;
    let end = blocks[i].span.end - lo;
    lemma_tiles_within(blocks, lo, hi, i);
    assert forall|k: int| 0 <= k < blocks.len() && k != i implies after.subrange(
        blocks[k].span.start - lo,
        blocks[k].span.end - lo,
    ) == before.subrange(blocks[k].span.start - lo, blocks[k].span.end - lo) by {
        lemma_tiles_within(blocks, lo, hi, k);
        let s = blocks[k].span.start - lo;
        let e = blocks[k].span.end - lo;
        if k < i {
            lemma_tiles_ordered(blocks, lo, hi, k, i);
            assert(after.subrange(s, e) =~= after.subrange(0, start).subrange(s, e));
            assert(before.subrange(s, e) =~= before.subrange(0, start).subrange(s, e));
        } else {
            lemma_tiles_ordered(blocks, lo, hi, i, k);
            assert(after.subrange(s, e) =~= after.subrange(end, after.len() as int).subrange(
                s - end,
                e - end,
            ));
            assert(before.subrange(s, e) =~= before.subrange(end, before.len() as int).subrange(
                s - end,
                e - end,
            ));
        }
    }
    assert forall|k: int| 0 <= k < i + 1 && k < blocks.len() implies shuffled_at(
        blocks,
        origin,
        after,
        lo,
        k,
    ) by {
        if k < i {
            assert(shuffled_at(blocks, origin, before, lo, k));
        } else {
            assert(untouched_at(blocks, origin, before, lo, i));
        }
    }
    assert forall|k: int| i + 1 <= k < blocks.len() implies untouched_at(
        blocks,
        origin,
        after,
        lo,
        k,
    ) by {
        assert(untouched_at(blocks, origin, before, lo, k));
    }
}

/// A row of well-formed blocks on the ranges of a row that covers `lo..hi`
/// covers `lo..hi`.
pub proof fn lemma_same_spans_tiles(before: Seq<Block>, after: Seq<Block>, lo: int, hi: int)
    requires
        tiles(before, lo, hi),
        same_spans(before, after),
        forall|i: int| 0 <= i < after.len() ==> (#[trigger] after[i]).wf(),
    ensures
        tiles(after, lo, hi),
{
    assert forall|i: int| 0 <= i < after.len() - 1 implies #[trigger] adjacent_at(after, i) by {
        assert(adjacent_at(before, i));
        assert(after[i].span == before[i].span);
        assert(after[i + 1].span == before[i + 1].span);
    }
    assert(after[0].span == before[0].span);
    assert(after[after.len() - 1].span == before[before.len() - 1].span);
}

/// Rearranges `data` into a uniformly random order, on one thread: by
/// Fisher-Yates up to `2^18` elements and a little more, and by the scatter
/// shuffle on up to 128 blocks beyond that.
pub fn seq_scatter_shuffle<R: Rng, T>(rng: &mut R, data: &mut [T])
    ensures
        permutes(old(data)@, final(data)@),
        is_seq_adaptive(old(data)@, final(data)@, NUM_BUCKETS as int, 0x4_0000, true),
{
    let algo = SeqScatterShuffleImpl::<R, T, Configuration, NUM_BUCKETS>::new(
        Configuration::sequential(),
    );
    algo.shuffle_adaptive(rng, data)
}

} // verus!
