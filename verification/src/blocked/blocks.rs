//! A row of blocks that lie side by side and cover a range of a slice.

use crate::blocked::block::Block;
use crate::blocked::slicing::Span;
use crate::slices::permutes;
use arrayvec::ArrayVec;
use vstd::multiset::Multiset;
use vstd::prelude::*;

verus! {

/// The largest number of blocks that a row can hold.
pub const MAX_NUM_BLOCKS: usize = 1024;

/// `arrayvec::ArrayVec`, a vector of at most `CAP` items that lives on the
/// stack.
#[verifier::external_type_specification]
#[verifier::external_body]
#[verifier::reject_recursive_types(Held)]
pub struct ExArrayVec<Held, const CAP: usize>(ArrayVec<Held, CAP>);

/// A row of at most [`MAX_NUM_BLOCKS`] blocks.
pub type Blocks = ArrayVec<Block, MAX_NUM_BLOCKS>;

/// The blocks that a row holds, from the first to the last.
pub uninterp spec fn blocks_view(blocks: ArrayVec<Block, MAX_NUM_BLOCKS>) -> Seq<Block>;

/// `ArrayVec::new` makes a vector without items.
#[verifier::external_body]
pub(crate) fn blocks_new() -> (blocks: Blocks)
    ensures
        blocks_view(blocks) == Seq::<Block>::empty(),
{
    ArrayVec::new()
}

/// `ArrayVec::push` puts an item behind the last one. It panics where the
/// vector is full, so the row must hold fewer blocks than its capacity.
#[verifier::external_body]
pub(crate) fn blocks_push(blocks: &mut Blocks, block: Block)
    requires
        blocks_view(*old(blocks)).len() < MAX_NUM_BLOCKS,
    ensures
        blocks_view(*final(blocks)) == blocks_view(*old(blocks)).push(block),
{
    blocks.push(block)
}

/// `ArrayVec::pop` takes the last item off and returns it, or returns `None`
/// where there is none.
#[verifier::external_body]
pub(crate) fn blocks_pop(blocks: &mut Blocks) -> (last: Option<Block>)
    ensures
        blocks_view(*old(blocks)).len() == 0 ==> last.is_none() && blocks_view(*final(blocks))
            == blocks_view(*old(blocks)),
        blocks_view(*old(blocks)).len() > 0 ==> last == Some(blocks_view(*old(blocks)).last())
            && blocks_view(*final(blocks)) == blocks_view(*old(blocks)).drop_last(),
{
    blocks.pop()
}

/// `ArrayVec::as_mut_slice` gives the items as a slice through which they can
/// be changed in place.
#[verifier::external_body]
pub(crate) fn blocks_as_mut_slice(blocks: &mut Blocks) -> (row: &mut [Block])
    ensures
        row@ == blocks_view(*old(blocks)),
        blocks_view(*final(blocks)) == final(row)@,
{
    blocks.as_mut_slice()
}

/// Block `i` of the row ends where block `i + 1` starts.
pub open spec fn adjacent_at(blocks: Seq<Block>, i: int) -> bool {
    blocks[i].adjoins(&blocks[i + 1])
}

/// The blocks are well formed, lie side by side from the first to the last,
/// and cover the positions `lo..hi` together.
pub open spec fn tiles(blocks: Seq<Block>, lo: int, hi: int) -> bool {
    &&& blocks.len() > 0
    &&& blocks[0].span.start == lo
    &&& blocks[blocks.len() - 1].span.end == hi
    &&& forall|i: int| 0 <= i < blocks.len() ==> (#[trigger] blocks[i]).wf()
    &&& forall|i: int| 0 <= i < blocks.len() - 1 ==> #[trigger] adjacent_at(blocks, i)
}

/// Every block is well formed and lies inside a slice of `len` elements.
pub open spec fn all_fit(blocks: Seq<Block>, len: int) -> bool {
    forall|i: int| 0 <= i < blocks.len() ==> (#[trigger] blocks[i]).fits(len)
}

/// Two rows hold the same ranges of positions, block by block.
pub open spec fn same_spans(before: Seq<Block>, after: Seq<Block>) -> bool {
    &&& after.len() == before.len()
    &&& forall|i: int| 0 <= i < before.len() ==> (#[trigger] after[i]).span == before[i].span
}

/// The number of processed positions of all blocks together.
pub open spec fn total_processed(blocks: Seq<Block>) -> int
    decreases blocks.len(),
{
    if blocks.len() == 0 {
        0
    } else {
        total_processed(blocks.drop_last()) + blocks.last().num_processed
    }
}

/// The number of positions of the stashes of all blocks together.
pub open spec fn total_stash(blocks: Seq<Block>) -> int
    decreases blocks.len(),
{
    if blocks.len() == 0 {
        0
    } else {
        total_stash(blocks.drop_last()) + blocks.last().stash_size()
    }
}

/// The number of positions of all blocks together.
pub open spec fn total_size(blocks: Seq<Block>) -> int
    decreases blocks.len(),
{
    if blocks.len() == 0 {
        0
    } else {
        total_size(blocks.drop_last()) + blocks.last().span.size()
    }
}

/// The processed elements of all blocks together.
pub open spec fn processed_elements<T>(blocks: Seq<Block>, data: Seq<T>) -> Multiset<T>
    decreases blocks.len(),
{
    if blocks.len() == 0 {
        Multiset::empty()
    } else {
        processed_elements(blocks.drop_last(), data).add(
            blocks.last().processed(data).to_multiset(),
        )
    }
}

/// The elements of the stashes of all blocks together.
pub open spec fn stash_elements<T>(blocks: Seq<Block>, data: Seq<T>) -> Multiset<T>
    decreases blocks.len(),
{
    if blocks.len() == 0 {
        Multiset::empty()
    } else {
        stash_elements(blocks.drop_last(), data).add(blocks.last().stash(data).to_multiset())
    }
}

/// Replacing one block of a row changes the totals by what that block changes.
pub proof fn lemma_totals_update(blocks: Seq<Block>, i: int, block: Block)
    requires
        0 <= i < blocks.len(),
    ensures
        total_processed(blocks.update(i, block)) == total_processed(blocks)
            - blocks[i].num_processed + block.num_processed,
        total_stash(blocks.update(i, block)) == total_stash(blocks) - blocks[i].stash_size()
            + block.stash_size(),
        total_size(blocks.update(i, block)) == total_size(blocks) - blocks[i].span.size()
            + block.span.size(),
    decreases blocks.len(),
{
    let after = blocks.update(i, block);
    if i == blocks.len() - 1 {
        assert(after.drop_last() =~= blocks.drop_last());
    } else {
        assert(after.drop_last() =~= blocks.drop_last().update(i, block));
        lemma_totals_update(blocks.drop_last(), i, block);
    }
}

/// The stashes of well-formed blocks hold at least as many positions together
/// as any one of them.
pub proof fn lemma_total_stash_bounds(blocks: Seq<Block>, i: int)
    requires
        forall|k: int| 0 <= k < blocks.len() ==> (#[trigger] blocks[k]).wf(),
        0 <= i < blocks.len(),
    ensures
        0 <= blocks[i].stash_size() <= total_stash(blocks),
        0 <= blocks[i].num_processed <= total_processed(blocks),
    decreases blocks.len(),
{
    let front = blocks.drop_last();
    assert(blocks.last().wf());
    if front.len() > 0 {
        assert forall|k: int| 0 <= k < front.len() implies (#[trigger] front[k]).wf() by {
            assert(blocks[k].wf());
        }
        if i < front.len() {
            lemma_total_stash_bounds(front, i);
        } else {
            lemma_total_stash_bounds(front, 0);
        }
    } else {
        assert(total_stash(front) == 0);
        assert(total_processed(front) == 0);
    }
}

/// Where block `i` of `n` blocks starts in a slice of `len` elements that is
/// cut into blocks of equal size, up to rounding.
pub open spec fn boundary(i: int, len: int, n: int) -> int {
    (i * len) / n
}

/// The boundaries of an even cut do not run backwards, start at the front of
/// the slice and end at its back.
pub proof fn lemma_boundaries(i: int, len: int, n: int)
    requires
        0 <= i < n,
        0 <= len,
    ensures
        0 <= boundary(i, len, n) <= boundary(i + 1, len, n) <= len,
        boundary(0, len, n) == 0,
        boundary(n, len, n) == len,
{
    assert(0 <= (i * len) / n <= ((i + 1) * len) / n <= len) by (nonlinear_arith)
        requires
            0 <= i < n,
            0 <= len,
    ;
    assert((0 * len) / n == 0 && (n * len) / n == len) by (nonlinear_arith)
        requires
            0 < n,
            0 <= len,
    ;
}

/// In a row of blocks that lie side by side, an earlier block ends before a
/// later one starts.
pub proof fn lemma_tiles_ordered(blocks: Seq<Block>, lo: int, hi: int, i: int, j: int)
    requires
        tiles(blocks, lo, hi),
        0 <= i < j < blocks.len(),
    ensures
        blocks[i].span.end <= blocks[j].span.start,
        lo <= blocks[i].span.start,
        blocks[j].span.end <= hi,
    decreases j - i,
{
    lemma_tiles_within(blocks, lo, hi, i);
    lemma_tiles_within(blocks, lo, hi, j);
    assert(adjacent_at(blocks, i));
    assert(blocks[i + 1].wf());
    if i + 1 < j {
        lemma_tiles_ordered(blocks, lo, hi, i + 1, j);
    }
}

/// Every block of a row that covers `lo..hi` lies inside `lo..hi`.
pub proof fn lemma_tiles_within(blocks: Seq<Block>, lo: int, hi: int, i: int)
    requires
        tiles(blocks, lo, hi),
        0 <= i < blocks.len(),
    ensures
        lo <= blocks[i].span.start <= blocks[i].span.end <= hi,
    decreases blocks.len() - i, i,
{
    assert(blocks[i].wf());
    lemma_tiles_from_lo(blocks, lo, hi, i);
    lemma_tiles_to_hi(blocks, lo, hi, i);
}

proof fn lemma_tiles_from_lo(blocks: Seq<Block>, lo: int, hi: int, i: int)
    requires
        tiles(blocks, lo, hi),
        0 <= i < blocks.len(),
    ensures
        lo <= blocks[i].span.start,
    decreases i,
{
    if i > 0 {
        lemma_tiles_from_lo(blocks, lo, hi, i - 1);
        assert(adjacent_at(blocks, i - 1));
        assert(blocks[i - 1].wf());
    }
}

proof fn lemma_tiles_to_hi(blocks: Seq<Block>, lo: int, hi: int, i: int)
    requires
        tiles(blocks, lo, hi),
        0 <= i < blocks.len(),
    ensures
        blocks[i].span.end <= hi,
    decreases blocks.len() - i,
{
    if i < blocks.len() - 1 {
        lemma_tiles_to_hi(blocks, lo, hi, i + 1);
        assert(adjacent_at(blocks, i));
        assert(blocks[i + 1].wf());
    }
}

/// The blocks of a row that covers `lo..hi` have `hi - lo` positions
/// together, and the processed positions and the stashes make up all of them.
pub proof fn lemma_tiles_total(blocks: Seq<Block>, lo: int, hi: int)
    requires
        tiles(blocks, lo, hi),
    ensures
        total_size(blocks) == hi - lo,
        total_processed(blocks) + total_stash(blocks) == hi - lo,
        0 <= total_processed(blocks),
        0 <= total_stash(blocks),
    decreases blocks.len(),
{
    let front = blocks.drop_last();
    assert(blocks.last().wf());
    if front.len() == 0 {
        assert(total_size(front) == 0);
        assert(total_processed(front) == 0);
        assert(total_stash(front) == 0);
    } else {
        assert(adjacent_at(blocks, blocks.len() - 2));
        assert forall|i: int| 0 <= i < front.len() - 1 implies #[trigger] adjacent_at(
            front,
            i,
        ) by {
            assert(adjacent_at(blocks, i));
        }
        assert forall|i: int| 0 <= i < front.len() implies (#[trigger] front[i]).wf() by {
            assert(blocks[i].wf());
        }
        lemma_tiles_total(front, lo, blocks.last().span.start as int);
    }
}

/// Cuts `data` into `num_blocks` blocks of equal size, up to rounding, none of
/// whose positions is processed.
pub fn split_slice_into_blocks<T>(data: &[T], num_blocks: usize) -> (blocks: Blocks)
    requires
        0 < num_blocks <= MAX_NUM_BLOCKS,
    ensures
        blocks_view(blocks).len() == num_blocks,
        tiles(blocks_view(blocks), 0, data@.len() as int),
        all_fit(blocks_view(blocks), data@.len() as int),
        forall|i: int|
            0 <= i < num_blocks ==> {
                &&& (#[trigger] blocks_view(blocks)[i]).span.start == boundary(
                    i,
                    data@.len() as int,
                    num_blocks as int,
                )
                &&& blocks_view(blocks)[i].span.end == boundary(
                    i + 1,
                    data@.len() as int,
                    num_blocks as int,
                )
                &&& blocks_view(blocks)[i].num_processed == 0
            },
{
    let total_len = data.len();
    let mut blocks = blocks_new();
    let mut i: usize = 0;
    let mut start: usize = 0;
    proof {
        lemma_boundaries(0, total_len as int, num_blocks as int);
    }
    while i < num_blocks
        invariant
            0 < num_blocks <= MAX_NUM_BLOCKS,
            total_len == data@.len(),
            i <= num_blocks,
            start == boundary(i as int, total_len as int, num_blocks as int),
            blocks_view(blocks).len() == i,
            forall|k: int|
                0 <= k < i ==> {
                    &&& (#[trigger] blocks_view(blocks)[k]).span.start == boundary(
                        k,
                        total_len as int,
                        num_blocks as int,
                    )
                    &&& blocks_view(blocks)[k].span.end == boundary(
                        k + 1,
                        total_len as int,
                        num_blocks as int,
                    )
                    &&& blocks_view(blocks)[k].num_processed == 0
                },
        decreases num_blocks - i,
    {
        proof {
            lemma_boundaries(i as int, total_len as int, num_blocks as int);
            assert(0 <= (i + 1) * total_len <= 0xffff_ffff_ffff_ffff * 0xffff_ffff_ffff_ffff)
                by (nonlinear_arith)
                requires
                    0 <= i + 1 <= 0xffff_ffff_ffff_ffff,
                    0 <= total_len <= 0xffff_ffff_ffff_ffff,
            ;
        }
        let end = (((i + 1) as u128) * (total_len as u128) / (num_blocks as u128)) as usize;
        blocks_push(&mut blocks, Block::new(Span::new(start, end)));
        start = end;
        i = i + 1;
    }
    proof {
        let row = blocks_view(blocks);
        let len = total_len as int;
        let n = num_blocks as int;
        assert forall|k: int| 0 <= k < row.len() implies (#[trigger] row[k]).fits(len) by {
            lemma_boundaries(k, len, n);
        }
        assert forall|k: int| 0 <= k < row.len() - 1 implies #[trigger] adjacent_at(row, k) by {
            assert(row[k].span.end == boundary(k + 1, len, n));
            assert(row[k + 1].span.start == boundary(k + 1, len, n));
        }
        lemma_boundaries(0, len, n);
        lemma_boundaries(n - 1, len, n);
        assert(row[0].span.start == 0);
        assert(row[n - 1].span.end == len);
    }
    blocks
}

/// Joins the blocks of a row, which must lie side by side, into one block.
/// The processed elements of all blocks then lie at its front and the stashes
/// of all blocks at its back.
pub fn compact_into_single_block<T>(blocks: Blocks, data: &mut [T]) -> (single: Block)
    requires
        tiles(blocks_view(blocks), blocks_view(blocks)[0].span.start as int, blocks_view(
            blocks,
        ).last().span.end as int),
        blocks_view(blocks).last().span.end <= old(data)@.len(),
    ensures
        single.fits(old(data)@.len() as int),
        single.span.start == blocks_view(blocks)[0].span.start,
        single.span.end == blocks_view(blocks).last().span.end,
        single.num_processed == total_processed(blocks_view(blocks)),
        permutes(old(data)@, final(data)@),
        single.processed(final(data)@).to_multiset() == processed_elements(
            blocks_view(blocks),
            old(data)@,
        ),
        single.stash(final(data)@).to_multiset() == stash_elements(
            blocks_view(blocks),
            old(data)@,
        ),
        final(data)@.subrange(0, single.span.start as int) == old(data)@.subrange(
            0,
            single.span.start as int,
        ),
        final(data)@.subrange(single.span.end as int, old(data)@.len() as int) == old(
            data,
        )@.subrange(single.span.end as int, old(data)@.len() as int),
{
    let ghost row = blocks_view(blocks);
    let ghost lo = row[0].span.start as int;
    let ghost hi = row.last().span.end as int;
    let mut blocks = blocks;
    let mut result = Block::new(Span::new(0, 0));
    let mut first = true;
    loop
        invariant
            tiles(row, lo, hi),
            hi <= old(data)@.len(),
            blocks_view(blocks).len() <= row.len(),
            blocks_view(blocks) == row.subrange(0, blocks_view(blocks).len() as int),
            first == (blocks_view(blocks).len() == row.len()),
            permutes(old(data)@, data@),
            !first ==> {
                &&& result.fits(old(data)@.len() as int)
                &&& result.span.start == row[blocks_view(blocks).len() as int].span.start
                &&& result.span.end == hi
                &&& result.num_processed + total_processed(blocks_view(blocks))
                    == total_processed(row)
                &&& processed_elements(blocks_view(blocks), old(data)@).add(
                    result.processed(data@).to_multiset(),
                ) == processed_elements(row, old(data)@)
                &&& stash_elements(blocks_view(blocks), old(data)@).add(
                    result.stash(data@).to_multiset(),
                ) == stash_elements(row, old(data)@)
                &&& data@.subrange(0, result.span.start as int) == old(data)@.subrange(
                    0,
                    result.span.start as int,
                )
                &&& data@.subrange(hi, old(data)@.len() as int) == old(data)@.subrange(
                    hi,
                    old(data)@.len() as int,
                )
            },
            first ==> data@ == old(data)@,
        ensures
            !first,
            blocks_view(blocks).len() == 0,
        decreases blocks_view(blocks).len(),
    {
        let ghost rest = blocks_view(blocks);
        let ghost before = data@;
        let popped = blocks_pop(&mut blocks);
        match popped {
            None => {
                break ;
            },
            Some(block) => {
                let ghost k = rest.len() - 1;
                proof {
                    assert(block == row[k]);
                    assert(row[k].wf());
                    lemma_tiles_within(row, lo, hi, k);
                    assert(blocks_view(blocks) =~= row.subrange(0, k));
                    assert(rest.drop_last() =~= blocks_view(blocks));
                }
                if first {
                    result = block;
                    first = false;
                    proof {
                        assert(rest =~= row);
                    }
                } else {
                    proof {
                        assert(adjacent_at(row, k));
                        assert(block.processed(before) =~= block.processed(old(data)@)) by {
                            assert(block.processed(before) =~= before.subrange(
                                0,
                                result.span.start as int,
                            ).subrange(block.span.start as int, block.split()));
                            assert(block.processed(old(data)@) =~= old(data)@.subrange(
                                0,
                                result.span.start as int,
                            ).subrange(block.span.start as int, block.split()));
                        }
                        assert(block.stash(before) =~= block.stash(old(data)@)) by {
                            assert(block.stash(before) =~= before.subrange(
                                0,
                                result.span.start as int,
                            ).subrange(block.split(), block.span.end as int));
                            assert(block.stash(old(data)@) =~= old(data)@.subrange(
                                0,
                                result.span.start as int,
                            ).subrange(block.split(), block.span.end as int));
                        }
                    }
                    let ghost right = result;
                    result = block.merge_with_right_neighbor(result, data);
                    proof {
                        assert(data@.subrange(0, result.span.start as int) =~= before.subrange(
                            0,
                            result.span.start as int,
                        ));
                        assert(before.subrange(0, result.span.start as int) =~= before.subrange(
                            0,
                            right.span.start as int,
                        ).subrange(0, result.span.start as int));
                        assert(old(data)@.subrange(0, result.span.start as int) =~= old(
                            data,
                        )@.subrange(0, right.span.start as int).subrange(
                            0,
                            result.span.start as int,
                        ));
                        assert(data@.subrange(hi, old(data)@.len() as int) =~= before.subrange(
                            hi,
                            old(data)@.len() as int,
                        ));
                    }
                }
            },
        }
    }
    proof {
        assert(blocks_view(blocks) =~= Seq::<Block>::empty());
        assert(result.span.start == row[0].span.start);
    }
    result
}

/// Cuts every block of the row in two at its middle. The row keeps the first
/// halves, and the second halves are returned as a row of their own.
pub fn split_each_bucket_in_half(buckets: &mut [Block]) -> (right_halves: Blocks)
    requires
        old(buckets)@.len() <= MAX_NUM_BLOCKS,
        forall|i: int| 0 <= i < old(buckets)@.len() ==> (#[trigger] old(buckets)@[i]).wf(),
    ensures
        final(buckets)@.len() == old(buckets)@.len(),
        blocks_view(right_halves).len() == old(buckets)@.len(),
        forall|i: int|
            0 <= i < old(buckets)@.len() ==> halves_of(
                old(buckets)@[i],
                #[trigger] final(buckets)@[i],
                blocks_view(right_halves)[i],
            ),
{
    let mut right_halves = blocks_new();
    let n = buckets.len();
    let mut i: usize = 0;
    while i < n
        invariant
            n == buckets@.len(),
            n == old(buckets)@.len(),
            n <= MAX_NUM_BLOCKS,
            i <= n,
            blocks_view(right_halves).len() == i,
            forall|k: int| i <= k < n ==> #[trigger] buckets@[k] == old(buckets)@[k],
            forall|k: int| 0 <= k < n ==> (#[trigger] old(buckets)@[k]).wf(),
            forall|k: int|
                0 <= k < i ==> halves_of(
                    old(buckets)@[k],
                    #[trigger] buckets@[k],
                    blocks_view(right_halves)[k],
                ),
        decreases n - i,
    {
        let mut left = buckets[i];
        assert(old(buckets)@[i as int].wf());
        let right = left.split_in_half();
        buckets[i] = left;
        blocks_push(&mut right_halves, right);
        i = i + 1;
    }
    right_halves
}

/// `left` and `right` are the two halves that `whole` is cut into.
pub open spec fn halves_of(whole: Block, left: Block, right: Block) -> bool {
    &&& left.wf()
    &&& right.wf()
    &&& left.adjoins(&right)
    &&& left.span.start == whole.span.start
    &&& right.span.end == whole.span.end
    &&& right.span.start == whole.span.start + whole.span.size() / 2
    &&& left.num_processed + right.num_processed == whole.num_processed
    &&& left.num_processed == vstd::math::min(
        whole.num_processed as int,
        whole.span.size() / 2,
    )
}

} // verus!
