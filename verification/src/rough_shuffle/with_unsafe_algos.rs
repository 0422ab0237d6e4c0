//! The rough shuffle that plans ahead. From the shortest stash it works out a
//! number of rounds that no block can be filled in, and makes the steps of
//! these rounds without a check in between. It stops where fewer than two
//! rounds can be planned, which leaves the rest to the rough shuffle that
//! checks every step.

use crate::blocked::block::Block;
use crate::blocked::blocks::{all_fit, lemma_total_stash_bounds, same_spans, total_stash};
use crate::prefetch::prefetch_write_data;
use crate::rng::random_u64;
use crate::rough_shuffle::{in_some_stash, in_stash_of, rough_shuffled};
use crate::slices::swap_elements;
use rand::Rng;
use vstd::prelude::*;

verus! {

/// Runs the rounds that can be planned ahead on `2^LOG_N` blocks, `2 * SWAPS`
/// steps to a round, until fewer than two rounds can be planned. One random
/// word picks the blocks of `SWAPS` steps, so it must have `LOG_N` bits for
/// each of them.
pub fn rough_shuffle<R: Rng, T, const LOG_N: usize, const SWAPS: usize>(
    rng: &mut R,
    buckets: &mut [Block],
    data: &mut [T],
)
    requires
        1 <= LOG_N <= 10,
        1 <= SWAPS <= 64,
        SWAPS * LOG_N <= 64,
        old(buckets)@.len() == (1u64 << (LOG_N as u64)),
        all_fit(old(buckets)@, old(data)@.len() as int),
    ensures
        rough_shuffled(old(buckets)@, final(buckets)@, old(data)@, final(data)@),
        few_rounds_left(final(buckets)@, SWAPS as int),
{
    let width: u64 = LOG_N as u64;
    assert((1u64 << width) >= 2) by (bit_vector)
        requires
            1 <= width <= 10,
    ;
    let mut algo = RoughShuffle::<LOG_N, SWAPS>::new(buckets);
    algo.rough_shuffle(rng, buckets, data);
}

/// The number of rounds that are planned where the shortest stash has
/// `stash` positions and a round has `2 * swaps` steps: one position is set
/// aside, and the steps of all rounds must fit the rest.
pub open spec fn planned_rounds(stash: int, swaps: int) -> int {
    if stash <= 0 {
        0
    } else {
        (stash - 1) / 2 / swaps
    }
}

/// Whether the stash of block `i` is so short that fewer than two rounds are
/// planned.
pub open spec fn plans_few_at(blocks: Seq<Block>, i: int, swaps: int) -> bool {
    planned_rounds(blocks[i].stash_size(), swaps) <= 1
}

/// Whether fewer than two rounds can be planned on the blocks: a stash is too
/// short for more.
pub open spec fn few_rounds_left(blocks: Seq<Block>, swaps: int) -> bool {
    exists|i: int| 0 <= i < blocks.len() && plans_few_at(blocks, i, swaps)
}

/// Whether the stash of block `i` has `size` positions.
pub open spec fn has_stash_of(blocks: Seq<Block>, i: int, size: int) -> bool {
    blocks[i].stash_size() == size
}

/// For every block of a row, the position that the next element routed to
/// the block is put on, and with them the size of the shortest stash as it
/// was when the positions were last written back to the blocks.
pub struct BlockBasePointers {
    pub pointers: Vec<usize>,
    pub length_of_shortest_bucket: usize,
}

impl BlockBasePointers {
    /// Every position lies in the stash of its block, or right behind it, and
    /// leaves room for `budget` more elements.
    pub open spec fn staged(&self, blocks: Seq<Block>, budget: int) -> bool {
        &&& self.pointers@.len() == blocks.len()
        &&& forall|i: int|
            0 <= i < blocks.len() ==> blocks[i].split() <= #[trigger] self.pointers@[i]
                && self.pointers@[i] + budget <= blocks[i].span.end
    }

    /// Every position is the first of the stash of its block, and no stash is
    /// shorter than the shortest on record.
    pub open spec fn synced(&self, blocks: Seq<Block>) -> bool {
        &&& self.pointers@.len() == blocks.len()
        &&& forall|i: int|
            0 <= i < blocks.len() ==> #[trigger] self.pointers@[i] == blocks[i].split()
                && self.length_of_shortest_bucket <= blocks[i].stash_size()
    }

    /// The size of the shortest stash on record is the size of the stash of
    /// one of the blocks.
    pub open spec fn is_a_stash(&self, blocks: Seq<Block>) -> bool {
        exists|i: int|
            0 <= i < blocks.len() && has_stash_of(
                blocks,
                i,
                self.length_of_shortest_bucket as int,
            )
    }

    /// The positions for a row of blocks: the first of each stash.
    pub fn new(buckets: &[Block]) -> (pointers: Self)
        requires
            forall|i: int| 0 <= i < buckets@.len() ==> (#[trigger] buckets@[i]).wf(),
        ensures
            pointers.synced(buckets@),
            buckets@.len() > 0 ==> pointers.is_a_stash(buckets@),
            buckets@.len() == 0 ==> pointers.length_of_shortest_bucket == usize::MAX,
    {
        let mut pointers: Vec<usize> = Vec::new();
        let mut length_of_shortest_bucket = usize::MAX;
        let mut i: usize = 0;
        let ghost mut hit: int = 0;
        while i < buckets.len()
            invariant
                i <= buckets@.len(),
                i == 0 ==> length_of_shortest_bucket == usize::MAX,
                i > 0 ==> 0 <= hit < i && has_stash_of(
                    buckets@,
                    hit,
                    length_of_shortest_bucket as int,
                ),
                pointers@.len() == i,
                forall|k: int| 0 <= k < buckets@.len() ==> (#[trigger] buckets@[k]).wf(),
                forall|k: int|
                    0 <= k < i ==> pointers@[k] == (#[trigger] buckets@[k]).split()
                        && length_of_shortest_bucket <= buckets@[k].stash_size(),
            decreases buckets@.len() - i,
        {
            let bucket = buckets[i];
            assert(bucket.wf());
            let ghost staged = pointers@;
            pointers.push(bucket.span.start + bucket.num_processed);
            let stash = bucket.num_unprocessed();
            if stash < length_of_shortest_bucket {
                length_of_shortest_bucket = stash;
                proof {
                    hit = i as int;
                }
            } else if i == 0 {
                proof {
                    hit = 0;
                }
            }
            proof {
                assert forall|k: int| 0 <= k < i + 1 implies pointers@[k] == (
                #[trigger] buckets@[k]).split() && length_of_shortest_bucket
                    <= buckets@[k].stash_size() by {
                    if k < i {
                        assert(staged[k] == buckets@[k].split());
                    }
                }
            }
            i = i + 1;
        }
        BlockBasePointers { pointers, length_of_shortest_bucket }
    }

    /// Writes the positions back to the blocks: what lies before the position
    /// of a block is processed. The size of the shortest stash is brought up
    /// to date.
    pub fn synchronize_buckets(&mut self, buckets: &mut [Block])
        requires
            old(self).staged(old(buckets)@, 0),
            old(self).is_a_stash(old(buckets)@),
            forall|i: int| 0 <= i < old(buckets)@.len() ==> (#[trigger] old(buckets)@[i]).wf(),
        ensures
            final(self).pointers == old(self).pointers,
            final(self).synced(final(buckets)@),
            final(self).is_a_stash(final(buckets)@),
            same_spans(old(buckets)@, final(buckets)@),
            forall|i: int|
                0 <= i < final(buckets)@.len() ==> (#[trigger] final(buckets)@[i]).wf()
                    && final(buckets)@[i].split() == old(self).pointers@[i],
    {
        let ghost shortest_before = self.length_of_shortest_bucket;
        let ghost was = choose|w: int|
            0 <= w < old(buckets)@.len() && has_stash_of(old(buckets)@, w, shortest_before as int);
        let ghost mut hit: int = -1;
        let mut i: usize = 0;
        while i < buckets.len()
            invariant
                i <= buckets@.len(),
                hit < 0 ==> self.length_of_shortest_bucket == shortest_before,
                hit >= 0 ==> hit < i && has_stash_of(
                    buckets@,
                    hit,
                    self.length_of_shortest_bucket as int,
                ),
                self.pointers == old(self).pointers,
                old(self).staged(old(buckets)@, 0),
                same_spans(old(buckets)@, buckets@),
                forall|k: int| 0 <= k < buckets@.len() ==> (#[trigger] old(buckets)@[k]).wf(),
                forall|k: int| i <= k < buckets@.len() ==> #[trigger] buckets@[k] == old(
                    buckets,
                )@[k],
                forall|k: int|
                    0 <= k < i ==> (#[trigger] buckets@[k]).wf() && buckets@[k].split()
                        == self.pointers@[k] && self.length_of_shortest_bucket
                        <= buckets@[k].stash_size(),
            decreases buckets@.len() - i,
        {
            let mut bucket = buckets[i];
            assert(old(buckets)@[i as int].wf());
            assert(old(buckets)@[i as int].split() <= self.pointers@[i as int]);
            let pointer = self.pointers[i];
            let num_processed = pointer - bucket.span.start;
            bucket.set_num_processed(num_processed);
            let stash = bucket.num_unprocessed();
            if stash < self.length_of_shortest_bucket {
                self.length_of_shortest_bucket = stash;
                proof {
                    hit = i as int;
                }
            }
            buckets[i] = bucket;
            i = i + 1;
        }
        proof {
            if hit < 0 {
                assert(old(buckets)@[was].wf());
                assert(old(buckets)@[was].split() <= self.pointers@[was]);
                assert(buckets@[was].span == old(buckets)@[was].span);
                assert(has_stash_of(buckets@, was, self.length_of_shortest_bucket as int));
            } else {
                assert(has_stash_of(buckets@, hit, self.length_of_shortest_bucket as int));
            }
        }
    }

    /// The size of the shortest stash on record.
    pub fn length_of_shortest_bucket(&self) -> (len: usize)
        ensures
            len == self.length_of_shortest_bucket,
    {
        self.length_of_shortest_bucket
    }

    /// Returns the position of block `idx` and moves it on by one.
    pub fn fetch_and_increment(&mut self, idx: usize) -> (pointer: usize)
        requires
            idx < old(self).pointers@.len(),
            old(self).pointers@[idx as int] < usize::MAX,
        ensures
            pointer == old(self).pointers@[idx as int],
            final(self).pointers@ == old(self).pointers@.update(idx as int, (pointer + 1) as usize),
            final(self).length_of_shortest_bucket == old(self).length_of_shortest_bucket,
    {
        let result = self.pointers[idx];
        self.pointers.set(idx, result + 1);
        result
    }

    /// Moves the position of block `idx` back by one and returns it.
    pub fn fetch_and_decrement(&mut self, idx: usize) -> (pointer: usize)
        requires
            idx < old(self).pointers@.len(),
            old(self).pointers@[idx as int] > 0,
        ensures
            pointer == old(self).pointers@[idx as int] - 1,
            final(self).pointers@ == old(self).pointers@.update(idx as int, pointer),
            final(self).length_of_shortest_bucket == old(self).length_of_shortest_bucket,
    {
        let result = self.pointers[idx] - 1;
        self.pointers.set(idx, result);
        result
    }
}

/// A rough shuffle over `2^LOG_N` blocks in rounds of `2 * SWAPS` steps.
pub struct RoughShuffle<const LOG_N: usize, const SWAPS: usize> {
    pub first_staged: BlockBasePointers,
}

/// The stashes of a row have fewer positions together once no block has lost
/// a processed position and one has gained one.
pub proof fn lemma_total_stash_decreases(before: Seq<Block>, after: Seq<Block>, gained: int)
    requires
        same_spans(before, after),
        forall|i: int|
            0 <= i < before.len() ==> (#[trigger] before[i]).num_processed
                <= after[i].num_processed,
        0 <= gained < before.len(),
        before[gained].num_processed < after[gained].num_processed,
    ensures
        total_stash(after) < total_stash(before),
    decreases before.len(),
{
    lemma_total_stash_le(before.drop_last(), after.drop_last());
    assert(after.last().span == before.last().span);
    assert(before.last().num_processed <= after.last().num_processed);
    if gained < before.len() - 1 {
        assert(before.drop_last()[gained] == before[gained]);
        assert(after.drop_last()[gained] == after[gained]);
        assert forall|i: int| 0 <= i < before.drop_last().len() implies (
        #[trigger] before.drop_last()[i]).num_processed <= after.drop_last()[i].num_processed by {
            assert(before[i].num_processed <= after[i].num_processed);
        }
        assert(same_spans(before.drop_last(), after.drop_last())) by {
            assert forall|i: int| 0 <= i < before.drop_last().len() implies (
            #[trigger] after.drop_last()[i]).span == before.drop_last()[i].span by {
                assert(after[i].span == before[i].span);
            }
        }
        lemma_total_stash_decreases(before.drop_last(), after.drop_last(), gained);
    }
}

/// The stashes of a row have no more positions together once no block has
/// lost a processed position.
pub proof fn lemma_total_stash_le(before: Seq<Block>, after: Seq<Block>)
    requires
        after.len() == before.len(),
        forall|i: int| 0 <= i < before.len() ==> (#[trigger] after[i]).span == before[i].span,
        forall|i: int|
            0 <= i < before.len() ==> (#[trigger] before[i]).num_processed
                <= after[i].num_processed,
    ensures
        total_stash(after) <= total_stash(before),
    decreases before.len(),
{
    if before.len() > 0 {
        assert(after.last().span == before.last().span);
        assert(before.last().num_processed <= after.last().num_processed);
        assert forall|i: int| 0 <= i < before.drop_last().len() implies (
        #[trigger] before.drop_last()[i]).num_processed <= after.drop_last()[i].num_processed by {
            assert(before[i].num_processed <= after[i].num_processed);
        }
        assert forall|i: int| 0 <= i < before.drop_last().len() implies (
        #[trigger] after.drop_last()[i]).span == before.drop_last()[i].span by {
            assert(after[i].span == before[i].span);
        }
        lemma_total_stash_le(before.drop_last(), after.drop_last());
    }
}

impl<const LOG_N: usize, const SWAPS: usize> RoughShuffle<LOG_N, SWAPS> {
    /// A rough shuffle that starts from the stashes of `buckets`.
    pub fn new(buckets: &[Block]) -> (algo: Self)
        requires
            forall|i: int| 0 <= i < buckets@.len() ==> (#[trigger] buckets@[i]).wf(),
        ensures
            algo.first_staged.synced(buckets@),
            buckets@.len() > 0 ==> algo.first_staged.is_a_stash(buckets@),
    {
        RoughShuffle { first_staged: BlockBasePointers::new(buckets) }
    }

    /// Runs rounds for as long as at least two of them can be planned.
    ///
    /// With a shortest stash of `s` positions, `(s - 1) / (2 * SWAPS)` rounds
    /// are planned: one position of the first block is set aside, and no
    /// block can take more elements than the rounds have steps. The element on
    /// the position set aside is the first to travel. Every step picks a
    /// block and puts the travelling element on the position of that block,
    /// which moves on by one; the element that lay there travels next. After
    /// the last round the travelling element goes to the last position that
    /// the first block filled, and the element from there to the position
    /// set aside; the position of the first block moves back over it. Then
    /// the positions are written back to the blocks.
    pub fn rough_shuffle<R: Rng, T>(&mut self, rng: &mut R, buckets: &mut [Block], data: &mut [T])
        requires
            1 <= LOG_N <= 10,
            1 <= SWAPS <= 64,
            SWAPS * LOG_N <= 64,
            old(buckets)@.len() == (1u64 << (LOG_N as u64)),
            all_fit(old(buckets)@, old(data)@.len() as int),
            old(self).first_staged.synced(old(buckets)@),
            old(self).first_staged.is_a_stash(old(buckets)@),
        ensures
            rough_shuffled(old(buckets)@, final(buckets)@, old(data)@, final(data)@),
            final(self).first_staged.synced(final(buckets)@),
            final(self).first_staged.is_a_stash(final(buckets)@),
            few_rounds_left(final(buckets)@, SWAPS as int),
    {
        let width: u64 = LOG_N as u64;
        assert((1u64 << width) >= 2) by (bit_vector)
            requires
                1 <= width <= 10,
        ;
        loop
            invariant
                1 <= LOG_N <= 10,
                1 <= SWAPS <= 64,
                SWAPS * LOG_N <= 64,
                buckets@.len() == (1u64 << (LOG_N as u64)),
                buckets@.len() >= 2,
                all_fit(buckets@, data@.len() as int),
                self.first_staged.synced(buckets@),
                self.first_staged.is_a_stash(buckets@),
                rough_shuffled(old(buckets)@, buckets@, old(data)@, data@),
            ensures
                self.first_staged.synced(buckets@),
                self.first_staged.is_a_stash(buckets@),
                rough_shuffled(old(buckets)@, buckets@, old(data)@, data@),
                few_rounds_left(buckets@, SWAPS as int),
            decreases total_stash(buckets@),
        {
            let shortest = self.first_staged.length_of_shortest_bucket();
            let ghost shortest_at = choose|w: int|
                0 <= w < buckets@.len() && has_stash_of(buckets@, w, shortest as int);
            if shortest == 0 {
                proof {
                    assert(plans_few_at(buckets@, shortest_at, SWAPS as int));
                }
                break ;
            }
            let half = (shortest - 1) / 2;
            let rounds = half / SWAPS;
            if rounds <= 1 {
                proof {
                    assert(plans_few_at(buckets@, shortest_at, SWAPS as int));
                }
                break ;
            }
            let ghost row = buckets@;
            let ghost len = data@.len() as int;
            proof {
                assert(rounds * SWAPS <= half) by (nonlinear_arith)
                    requires
                        rounds == half / SWAPS,
                        SWAPS > 0,
                        half >= 0,
                ;
                assert(row[0].fits(len));
                assert(self.first_staged.pointers@[0] == row[0].split());
                assert forall|i: int| 0 <= i < row.len() implies row[i].split()
                    <= #[trigger] self.first_staged.pointers@[i]
                    && self.first_staged.pointers@[i] + shortest <= row[i].span.end by {
                    assert(self.first_staged.pointers@[i] == row[i].split());
                }
            }
            let seed = self.first_staged.fetch_and_increment(0);
            let ghost start = self.first_staged.pointers@;
            let ghost mut budget: int = shortest - 1;
            proof {
                assert(in_stash_of(row, 0, seed as int));
                assert(self.first_staged.staged(row, budget));
            }
            let mut round: usize = 0;
            while round < rounds
                invariant
                    1 <= LOG_N <= 10,
                    1 <= SWAPS <= 64,
                    SWAPS * LOG_N <= 64,
                    row == buckets@,
                    len == data@.len(),
                    row.len() == (1u64 << (LOG_N as u64)),
                    row.len() >= 2,
                    all_fit(row, len),
                    round <= rounds,
                    rounds * SWAPS <= half,
                    2 * half <= shortest - 1,
                    budget == shortest - 1 - 2 * (round * SWAPS),
                    self.first_staged.staged(row, budget),
                    self.first_staged.length_of_shortest_bucket == shortest,
                    seed < len,
                    in_stash_of(row, 0, seed as int),
                    start.len() == row.len(),
                    start[0] == seed + 1,
                    forall|i: int|
                        0 <= i < row.len() ==> start[i] <= #[trigger] self.first_staged.pointers@[i],
                    round > 0 ==> exists|i: int|
                        0 <= i < row.len() && start[i] < #[trigger] self.first_staged.pointers@[i],
                    rough_shuffled(old(buckets)@, row, old(data)@, data@),
                decreases rounds - round,
            {
                proof {
                    assert((round + 1) * SWAPS <= rounds * SWAPS && (round + 1) * SWAPS == round
                        * SWAPS + SWAPS) by (nonlinear_arith)
                        requires
                            round + 1 <= rounds,
                            SWAPS > 0,
                    ;
                }
                let ghost staged_before = self.first_staged.pointers@;
                let pointers_to_swap0 = self.prefetch(rng, data, Ghost(row), Ghost(budget));
                proof {
                    budget = budget - SWAPS;
                }
                let pointers_to_swap1 = self.prefetch(rng, data, Ghost(row), Ghost(budget));
                proof {
                    budget = budget - SWAPS;
                }
                let mut k: usize = 0;
                while k < SWAPS
                    invariant
                        k <= SWAPS,
                        len == data@.len(),
                        seed < len,
                        in_stash_of(row, 0, seed as int),
                        row.len() >= 2,
                        same_spans(old(buckets)@, row),
                        forall|j: int|
                            0 <= j < SWAPS ==> in_some_stash(row, #[trigger] pointers_to_swap0@[j] as int)
                                && pointers_to_swap0@[j] < len,
                        forall|j: int|
                            0 <= j < SWAPS ==> in_some_stash(row, #[trigger] pointers_to_swap1@[j] as int)
                                && pointers_to_swap1@[j] < len,
                        rough_shuffled(old(buckets)@, row, old(data)@, data@),
                    decreases SWAPS - k,
                {
                    proof {
                        lemma_stash_shrinks(old(buckets)@, row, seed as int);
                        lemma_stash_shrinks(old(buckets)@, row, pointers_to_swap0@[k as int] as int);
                        lemma_stash_shrinks(old(buckets)@, row, pointers_to_swap1@[k as int] as int);
                    }
                    swap_elements(data, seed, pointers_to_swap0[k]);
                    swap_elements(data, seed, pointers_to_swap1[k]);
                    k = k + 1;
                }
                round = round + 1;
            }
            let ghost advanced = self.first_staged.pointers@;
            proof {
                assert(advanced[0] >= start[0]);
            }
            let current_base = self.first_staged.fetch_and_decrement(0);
            proof {
                assert(row[0].split() <= current_base < row[0].span.end);
                assert(in_stash_of(row, 0, current_base as int));
                lemma_stash_shrinks(old(buckets)@, row, seed as int);
                lemma_stash_shrinks(old(buckets)@, row, current_base as int);
            }
            swap_elements(data, seed, current_base);
            let ghost staged = self.first_staged.pointers@;
            proof {
                assert forall|i: int| 0 <= i < row.len() implies row[i].split()
                    <= #[trigger] staged[i] && staged[i] <= row[i].span.end by {
                    assert(start[i] <= advanced[i]);
                    assert(row[i].split() <= advanced[i]);
                }
                assert forall|i: int| 0 <= i < row.len() implies (#[trigger] row[i]).wf() by {
                    assert(row[i].fits(len));
                }
            }
            let ghost hit = choose|i: int| 0 <= i < row.len() && start[i] < #[trigger] advanced[i];
            proof {
                assert(has_stash_of(
                    buckets@,
                    shortest_at,
                    self.first_staged.length_of_shortest_bucket as int,
                ));
            }
            self.first_staged.synchronize_buckets(buckets);
            proof {
                assert(row[hit].split() <= start[hit]) by {
                    assert(row[hit].split() <= advanced[hit]);
                    if hit != 0 {
                        assert(start[hit] == row[hit].split());
                    }
                }
                assert(row[hit].split() < staged[hit]);
                assert(buckets@[hit].split() == staged[hit]);
                assert forall|i: int| 0 <= i < row.len() implies (#[trigger] row[i]).num_processed
                    <= buckets@[i].num_processed by {
                    assert(buckets@[i].span == row[i].span);
                    assert(buckets@[i].split() == staged[i]);
                }
                assert(buckets@[hit].span == row[hit].span);
                lemma_total_stash_decreases(row, buckets@, hit);
                assert forall|i: int| 0 <= i < buckets@.len() implies (#[trigger] buckets@[i]).fits(
                    len,
                ) by {
                    assert(row[i].fits(len));
                    assert(buckets@[i].span == row[i].span);
                }
                assert(same_spans(old(buckets)@, buckets@)) by {
                    assert forall|i: int| 0 <= i < row.len() implies (#[trigger] buckets@[i]).span
                        == old(buckets)@[i].span by {
                        assert(row[i].span == old(buckets)@[i].span);
                    }
                }
                assert forall|i: int| 0 <= i < buckets@.len() implies {
                    &&& (#[trigger] buckets@[i]).wf()
                    &&& old(buckets)@[i].num_processed <= buckets@[i].num_processed
                } by {
                    assert(row[i].wf());
                    assert(row[i].num_processed <= buckets@[i].num_processed);
                }
                lemma_total_stash_bounds(buckets@, 0);
            }
        }
    }

    /// Picks the blocks for the next `SWAPS` steps from one random word, and
    /// returns the positions that the elements of these steps are put on. The
    /// position of each block picked moves on by one.
    fn prefetch<R: Rng, T>(
        &mut self,
        rng: &mut R,
        data: &[T],
        Ghost(row): Ghost<Seq<Block>>,
        Ghost(budget): Ghost<int>,
    ) -> (targets: [usize; SWAPS])
        requires
            1 <= LOG_N <= 10,
            1 <= SWAPS <= 64,
            SWAPS * LOG_N <= 64,
            row.len() == (1u64 << (LOG_N as u64)),
            old(self).first_staged.staged(row, budget),
            budget >= SWAPS,
            all_fit(row, data@.len() as int),
        ensures
            final(self).first_staged.staged(row, budget - SWAPS),
            final(self).first_staged.length_of_shortest_bucket == old(
                self,
            ).first_staged.length_of_shortest_bucket,
            forall|i: int|
                0 <= i < row.len() ==> old(self).first_staged.pointers@[i]
                    <= #[trigger] final(self).first_staged.pointers@[i],
            exists|i: int|
                0 <= i < row.len() && old(self).first_staged.pointers@[i]
                    < #[trigger] final(self).first_staged.pointers@[i],
            forall|j: int|
                0 <= j < SWAPS ==> in_some_stash(row, #[trigger] targets@[j] as int),
            forall|j: int| 0 <= j < SWAPS ==> #[trigger] targets@[j] < data@.len(),
    {
        let width: u64 = LOG_N as u64;
        assert((1u64 << width) >= 1) by (bit_vector)
            requires
                1 <= width <= 10,
        ;
        let mask: u64 = (1u64 << width) - 1;
        let mut rest: u64 = random_u64(rng);
        let mut buffer = [0usize; SWAPS];
        let mut k: usize = 0;
        let ghost mut hit: int = 0;
        while k < SWAPS
            invariant
                1 <= LOG_N <= 10,
                1 <= SWAPS <= 64,
                width == LOG_N,
                mask == ((1u64 << width) - 1) as u64,
                row.len() == (1u64 << width),
                k <= SWAPS,
                budget >= SWAPS,
                all_fit(row, data@.len() as int),
                self.first_staged.staged(row, budget - k),
                self.first_staged.length_of_shortest_bucket == old(
                    self,
                ).first_staged.length_of_shortest_bucket,
                forall|i: int|
                    0 <= i < row.len() ==> old(self).first_staged.pointers@[i]
                        <= #[trigger] self.first_staged.pointers@[i],
                k > 0 ==> 0 <= hit < row.len() && old(self).first_staged.pointers@[hit]
                    < self.first_staged.pointers@[hit],
                forall|j: int|
                    0 <= j < k ==> in_some_stash(row, #[trigger] buffer@[j] as int),
                forall|j: int| 0 <= j < k ==> #[trigger] buffer@[j] < data@.len(),
            decreases SWAPS - k,
        {
            let picked: u64 = rest & mask;
            assert(picked < (1u64 << width)) by (bit_vector)
                requires
                    1 <= width <= 10,
                    mask == ((1u64 << width) - 1) as u64,
                    picked == rest & mask,
            ;
            let index = picked as usize;
            let ghost staged_before = self.first_staged.pointers@;
            proof {
                assert(row[index as int].fits(data@.len() as int));
                assert(staged_before[index as int] + (budget - k) <= row[index as int].span.end);
            }
            let target_ptr = self.first_staged.fetch_and_increment(index);
            prefetch_write_data(&data[target_ptr]);
            buffer[k] = target_ptr;
            rest = rest >> width;
            proof {
                hit = index as int;
                assert(in_stash_of(row, index as int, target_ptr as int));
                assert(target_ptr < row[index as int].span.end);
                assert forall|i: int| 0 <= i < row.len() implies row[i].split()
                    <= #[trigger] self.first_staged.pointers@[i]
                    && self.first_staged.pointers@[i] + (budget - (k + 1))
                    <= row[i].span.end by {
                    assert(row[i].split() <= staged_before[i]);
                }
                assert forall|i: int| 0 <= i < row.len() implies old(
                    self,
                ).first_staged.pointers@[i] <= #[trigger] self.first_staged.pointers@[i] by {
                    assert(old(self).first_staged.pointers@[i] <= staged_before[i]);
                }
            }
            k = k + 1;
        }
        buffer
    }
}

/// A position in the stash of a block is in the stash that the block had
/// before it gained processed positions.
pub proof fn lemma_stash_shrinks(before: Seq<Block>, after: Seq<Block>, p: int)
    requires
        same_spans(before, after),
        forall|i: int|
            0 <= i < after.len() ==> before[i].num_processed <= (#[trigger] after[i]).num_processed,
        in_some_stash(after, p),
    ensures
        in_some_stash(before, p),
{
    let i = choose|i: int| 0 <= i < after.len() && in_stash_of(after, i, p);
    assert(after[i].span == before[i].span);
    assert(before[i].num_processed <= after[i].num_processed);
    assert(in_stash_of(before, i, p));
}

} // verus!
