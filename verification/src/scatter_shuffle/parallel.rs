//! The scatter shuffle on several threads.
//!
//! The rough shuffle of a long input is made in parts: every block is cut in
//! two, the first halves and the second halves are rough-shuffled each for
//! themselves, the halves are joined again, and a rough shuffle over the
//! joined blocks mixes the two parts. After the stashes and the new lengths of
//! the blocks, which take little time and are dealt with on one thread, the
//! blocks are shuffled on their own, half of the row on one thread and half of
//! it on another, and so on down to single blocks.
//!
//! The two parts of a rough shuffle lie interleaved in the slice, block by
//! block, so they are worked through one after the other; each has a random
//! source of its own all the same, so that the order in which they are worked
//! through has no influence on the outcome.

use crate::blocked::block::Block;
use crate::blocked::blocks::{
    adjacent_at, all_fit, blocks_as_mut_slice, halves_of, lemma_tiles_total, lemma_tiles_within,
    same_spans, split_each_bucket_in_half, split_slice_into_blocks, tiles,
};
use crate::fisher_yates::{fisher_yates, is_fisher_yates};
use crate::rough_shuffle::{
    in_some_stash, in_stash_of, is_number_of_blocks, rough_shuffle, rough_shuffled,
    some_fully_processed,
};
use crate::scatter_shuffle::sequential::{
    are_scatter_steps, blocks_shuffled, is_adaptive, is_even_cut, is_scattered, is_seq_adaptive,
    lemma_same_spans_tiles, move_buckets_to_fit_target_len, sample_final_bucket_size,
    shuffle_stashes, shuffled_at, SeqScatterShuffleImpl,
};
use crate::scatter_shuffle::{Configuration, ParConfiguration, SeqConfiguration, NUM_BUCKETS};
use crate::slices::permutes;
use rand::{Rng, SeedableRng};
use vstd::prelude::*;

verus! {

/// Makes a random source of the type `ROut` whose seed is drawn from `base`,
/// by `rand::SeedableRng::from_rng`. Returns `None` where `base` fails to
/// give the bytes of the seed. Nothing is claimed of the source made.
#[verifier::external_body]
pub fn seed_new_rng<RIn: Rng, ROut: SeedableRng>(base: &mut RIn) -> (seeded: Option<ROut>) {
    ROut::from_rng(base).ok()
}

/// The scatter shuffle on several threads, on `NUM_BLOCKS` blocks, with what
/// `config` gives. Stashes are shuffled by the scatter shuffle on one thread
/// with the same `config`.
pub struct ParScatterShuffleImpl<R, T, C, const NUM_BLOCKS: usize> {
    pub seq: SeqScatterShuffleImpl<R, T, C, NUM_BLOCKS>,
}

impl<R, T, C: Default, const NUM_BLOCKS: usize> Default for ParScatterShuffleImpl<
    R,
    T,
    C,
    NUM_BLOCKS,
> {
    /// A scatter shuffle with what `C` gives by default.
    fn default() -> Self {
        Self { seq: Default::default() }
    }
}

/// Whether no position of any block is processed.
pub open spec fn all_unprocessed(blocks: Seq<Block>) -> bool {
    forall|i: int| 0 <= i < blocks.len() ==> (#[trigger] blocks[i]).num_processed == 0
}

/// `rayon::join` runs the two closures, possibly on two threads, and returns
/// when both have returned. Each closure is one call of
/// [`ParScatterShuffleImpl::recurse`], on a slice of its own, so the two
/// slices are left as two such calls leave them.
#[verifier::external_body]
fn join_recurse<R, T, C, const NUM_BLOCKS: usize>(
    algo: &ParScatterShuffleImpl<R, T, C, NUM_BLOCKS>,
    left_rng: &mut R,
    left_blocks: &[Block],
    left: &mut [T],
    right_rng: &mut R,
    right_blocks: &[Block],
    right: &mut [T],
    left_base: usize,
    right_base: usize,
    parent_len: usize,
) where
    R: Rng + SeedableRng + Send + Sync,
    T: Send + Sync,
    C: ParConfiguration,

    requires
        algo.wf(),
        recursion_ready(
            left_blocks@,
            left_base as int,
            old(left)@.len() as int,
            parent_len as int,
        ),
        recursion_ready(
            right_blocks@,
            right_base as int,
            old(right)@.len() as int,
            parent_len as int,
        ),
    ensures
        permutes(old(left)@, final(left)@),
        permutes(old(right)@, final(right)@),
        blocks_shuffled(
            left_blocks@,
            old(left)@,
            final(left)@,
            left_base as int,
            left_blocks@.len() as int,
        ),
        blocks_shuffled(
            right_blocks@,
            old(right)@,
            final(right)@,
            right_base as int,
            right_blocks@.len() as int,
        ),
        par_blocks_shuffled(
            left_blocks@,
            old(left)@,
            final(left)@,
            left_base as int,
            parent_len as int,
            NUM_BLOCKS as int,
            algo.seq.config.par_case_size() as int,
            algo.seq.config.par_base_case_is_sequential(),
            algo.seq.config.base_case_size() as int,
            algo.seq.config.base_case_is_fisher_yates(),
        ),
        par_blocks_shuffled(
            right_blocks@,
            old(right)@,
            final(right)@,
            right_base as int,
            parent_len as int,
            NUM_BLOCKS as int,
            algo.seq.config.par_case_size() as int,
            algo.seq.config.par_base_case_is_sequential(),
            algo.seq.config.base_case_size() as int,
            algo.seq.config.base_case_is_fisher_yates(),
        ),
{
    rayon::join(
        || algo.recurse(left_rng, left_blocks, left, left_base, parent_len),
        || algo.recurse(right_rng, right_blocks, right, right_base, parent_len),
    );
}

/// `after` is what the scatter shuffle on several threads, on `n` blocks, can
/// make of `before`: an input of up to `par_size` elements is left to the
/// base case, which is the scatter shuffle on one thread with a base case
/// for up to `base` elements where `sequential` is set, and a longer one is
/// scattered.
pub open spec fn is_par_level<T>(
    before: Seq<T>,
    after: Seq<T>,
    n: int,
    par_size: int,
    sequential: bool,
    base: int,
    fisher_yates: bool,
) -> bool {
    if before.len() <= par_size {
        sequential ==> is_adaptive(before, after, NUM_BUCKETS as int, base, fisher_yates)
    } else {
        is_scattered(before, after, n)
    }
}

/// Whether block `i` holds in `after` what the scatter shuffle on several
/// threads, on `n` blocks, can make of what it holds in `before`; or, for a
/// block that is as long as `parent_len`, what the base case can make of it.
/// The slices are the part from position `base` on of the slice that the
/// blocks were made for.
pub open spec fn par_shuffled_at<T>(
    blocks: Seq<Block>,
    before: Seq<T>,
    after: Seq<T>,
    base: int,
    i: int,
    parent_len: int,
    n: int,
    par_size: int,
    sequential: bool,
    seq_base: int,
    fisher_yates: bool,
) -> bool {
    let held = before.subrange(blocks[i].span.start - base, blocks[i].span.end - base);
    let holds = after.subrange(blocks[i].span.start - base, blocks[i].span.end - base);
    if held.len() < parent_len {
        is_par_level(held, holds, n, par_size, sequential, seq_base, fisher_yates)
    } else {
        sequential ==> is_adaptive(held, holds, NUM_BUCKETS as int, seq_base, fisher_yates)
    }
}

/// Whether every block holds in `after` what the scatter shuffle on several
/// threads can make of what it holds in `before`.
pub open spec fn par_blocks_shuffled<T>(
    blocks: Seq<Block>,
    before: Seq<T>,
    after: Seq<T>,
    base: int,
    parent_len: int,
    n: int,
    par_size: int,
    sequential: bool,
    seq_base: int,
    fisher_yates: bool,
) -> bool {
    forall|i: int|
        0 <= i < blocks.len() ==> #[trigger] par_shuffled_at(
            blocks,
            before,
            after,
            base,
            i,
            parent_len,
            n,
            par_size,
            sequential,
            seq_base,
            fisher_yates,
        )
}

/// `after` is what the scatter shuffle on several threads, on `n` blocks, can
/// make of a long input `before`: the steps of a scatter shuffle, and then
/// every block shuffled in its turn by the scatter shuffle on several
/// threads, or every block left as it is. Of the shuffle of a block,
/// [`is_par_level`] says what it does to the block.
pub open spec fn is_par_scattered<T>(
    before: Seq<T>,
    after: Seq<T>,
    n: int,
    par_size: int,
    sequential: bool,
    seq_base: int,
    fisher_yates: bool,
) -> bool {
    exists|
        cut: Seq<Block>,
        roughly: Seq<Block>,
        rough: Seq<T>,
        stashed: Seq<T>,
        targets: Seq<usize>,
        fitted: Seq<Block>,
        reshaped: Seq<T>,
    |
        {
            &&& #[trigger] are_scatter_steps(
                before,
                after,
                n,
                cut,
                roughly,
                rough,
                stashed,
                targets,
                fitted,
                reshaped,
            )
            &&& (after == reshaped || par_blocks_shuffled(
                fitted,
                reshaped,
                after,
                0,
                before.len() as int,
                n,
                par_size,
                sequential,
                seq_base,
                fisher_yates,
            ))
        }
}

/// [`is_par_level`], with what is done to the blocks: an input of up to
/// `par_size` elements is left to the base case, and a longer one is
/// scattered as [`is_par_scattered`] says.
pub open spec fn is_par_shuffle<T>(
    before: Seq<T>,
    after: Seq<T>,
    n: int,
    par_size: int,
    sequential: bool,
    seq_base: int,
    fisher_yates: bool,
) -> bool {
    if before.len() <= par_size {
        sequential ==> is_seq_adaptive(before, after, NUM_BUCKETS as int, seq_base, fisher_yates)
    } else {
        is_par_scattered(before, after, n, par_size, sequential, seq_base, fisher_yates)
    }
}

/// What [`ParScatterShuffleImpl::recurse`] asks of a row of blocks and of the
/// slice of `len` elements that it works on, which is the part from position
/// `base` on of the slice that the blocks were made for: the blocks cover the
/// part, and the part is no longer than `parent_len`.
pub open spec fn recursion_ready(blocks: Seq<Block>, base: int, len: int, parent_len: int) -> bool {
    &&& blocks.len() > 0
    &&& tiles(blocks, base, base + len)
    &&& len <= parent_len
}

impl<R, T, C, const NUM_BLOCKS: usize> ParScatterShuffleImpl<R, T, C, NUM_BLOCKS> where
    R: Rng + SeedableRng + Send + Sync,
    T: Send + Sync,
    C: ParConfiguration,
 {
    /// The number of blocks is one that the rough shuffle takes, and the base
    /// case of the scatter shuffle on one thread has a size.
    pub open spec fn wf(&self) -> bool {
        self.seq.wf()
    }

    /// A scatter shuffle with what `config` gives.
    pub fn new(config: C) -> (algo: Self)
        ensures
            algo.seq.config == config,
    {
        Self { seq: SeqScatterShuffleImpl::new(config) }
    }

    /// Rearranges `data` into a uniformly random order. An input of up to the
    /// size that `config` gives is left to the base case of `config`.
    pub fn shuffle(&self, rng: &mut R, data: &mut [T])
        requires
            self.wf(),
        ensures
            permutes(old(data)@, final(data)@),
            is_par_level(
                old(data)@,
                final(data)@,
                NUM_BLOCKS as int,
                self.seq.config.par_case_size() as int,
                self.seq.config.par_base_case_is_sequential(),
                self.seq.config.base_case_size() as int,
                self.seq.config.base_case_is_fisher_yates(),
            ),
            is_par_shuffle(
                old(data)@,
                final(data)@,
                NUM_BLOCKS as int,
                self.seq.config.par_case_size() as int,
                self.seq.config.par_base_case_is_sequential(),
                self.seq.config.base_case_size() as int,
                self.seq.config.base_case_is_fisher_yates(),
            ),
        decreases old(data)@.len(), 1nat, 0nat,
    {
        let n = data.len();
        if n <= self.seq.config.par_base_case_size() {
            self.seq.config.par_base_case_shuffle(rng, data);
            return ;
        }
        let mut blocks = split_slice_into_blocks(data, NUM_BLOCKS);
        let buckets = blocks_as_mut_slice(&mut blocks);
        let ghost row0 = buckets@;
        let num_problems = self.seq.config.par_number_of_subproblems(n);
        proof {
            assert forall|i: int| 0 <= i < row0.len() implies (#[trigger] row0[i]).num_processed
                == 0 by {}
        }
        Self::invoke_rough_shuffle(
            rng,
            buckets,
            data,
            if num_problems == 0 {
                1
            } else {
                num_problems
            },
        );
        let ghost row1 = buckets@;
        let ghost data1 = data@;
        proof {
            lemma_same_spans_tiles(row0, row1, 0, n as int);
        }
        let num_unprocessed = shuffle_stashes(rng, buckets, data, &self.seq);
        let ghost data2 = data@;
        proof {
            lemma_tiles_total(row1, 0, n as int);
            assert forall|i: int| 0 <= i < row1.len() implies (#[trigger] row1[i]).wf() by {}
        }
        let target_lengths = sample_final_bucket_size(rng, num_unprocessed, buckets);
        move_buckets_to_fit_target_len(buckets, target_lengths.as_slice(), data);
        let ghost row = buckets@;
        let ghost data3 = data@;
        if !self.seq.config.par_disable_recursion() {
            self.recurse(rng, buckets, data, 0, n);
        } else {
            proof {
                assert(blocks_shuffled(row, data3, data@, 0, row.len() as int));
            }
        }
        proof {
            assert(is_even_cut(row0, n as int, NUM_BLOCKS as int));
            assert forall|i: int| 0 <= i < NUM_BLOCKS implies permutes(
                (#[trigger] row[i]).contents(data3),
                row[i].contents(data@),
            ) by {
                assert(shuffled_at(row, data3, data@, 0, i));
            }
            assert(are_scatter_steps(
                old(data)@,
                data@,
                NUM_BLOCKS as int,
                row0,
                row1,
                data1,
                data2,
                target_lengths@,
                row,
                data3,
            ));
        }
    }

    /// Runs a rough shuffle over `buckets`, none of whose positions is
    /// processed, until one of them is fully processed, in `num_problems`
    /// parts.
    ///
    /// With one part, this is the rough shuffle. With more, every block is cut
    /// in two; the first halves are rough-shuffled in half of the parts and
    /// the second halves in the other half, with a random source that is
    /// seeded from `rng`; the halves are joined; and a rough shuffle runs over
    /// the joined blocks. Where no random source can be seeded, `rng` serves
    /// both.
    pub fn invoke_rough_shuffle(
        rng: &mut R,
        buckets: &mut [Block],
        data: &mut [T],
        num_problems: usize,
    )
        requires
            num_problems >= 1,
            is_number_of_blocks(old(buckets)@.len() as int),
            all_fit(old(buckets)@, old(data)@.len() as int),
            all_unprocessed(old(buckets)@),
        ensures
            rough_shuffled(old(buckets)@, final(buckets)@, old(data)@, final(data)@),
            some_fully_processed(final(buckets)@),
        decreases num_problems,
    {
        if num_problems == 1 {
            rough_shuffle(rng, buckets, data);
            return ;
        }
        let ghost row0 = buckets@;
        let ghost data0 = data@;
        let ghost len = data@.len() as int;
        let n = buckets.len();
        let seeded: Option<R> = seed_new_rng(rng);
        proof {
            assert forall|i: int| 0 <= i < row0.len() implies (#[trigger] row0[i]).wf() by {
                assert(row0[i].fits(len));
            }
        }
        let mut right_blocks = split_each_bucket_in_half(buckets);
        let right_halves = blocks_as_mut_slice(&mut right_blocks);
        let ghost lefts0 = buckets@;
        let ghost rights0 = right_halves@;
        proof {
            assert forall|i: int| 0 <= i < n implies (#[trigger] lefts0[i]).fits(len)
                && lefts0[i].num_processed == 0 by {
                assert(halves_of(row0[i], lefts0[i], rights0[i]));
                assert(row0[i].fits(len));
            }
            assert forall|i: int| 0 <= i < n implies (#[trigger] rights0[i]).fits(len)
                && rights0[i].num_processed == 0 by {
                assert(halves_of(row0[i], lefts0[i], rights0[i]));
                assert(row0[i].fits(len));
            }
        }
        Self::invoke_rough_shuffle(rng, buckets, data, num_problems / 2);
        let ghost data1 = data@;
        match seeded {
            Some(mut right_rng) => {
                Self::invoke_rough_shuffle(
                    &mut right_rng,
                    right_halves,
                    data,
                    num_problems - num_problems / 2,
                );
            },
            None => {
                Self::invoke_rough_shuffle(rng, right_halves, data, num_problems - num_problems / 2);
            },
        }
        let ghost lefts1 = buckets@;
        let ghost rights1 = right_halves@;
        let ghost data2 = data@;
        proof {
            assert forall|p: int|
                0 <= p < len && !in_some_stash(row0, p) implies #[trigger] data2[p] == data0[p] by {
                assert(!in_some_stash(lefts0, p)) by {
                    if in_some_stash(lefts0, p) {
                        let i = choose|i: int| 0 <= i < lefts0.len() && in_stash_of(lefts0, i, p);
                        assert(halves_of(row0[i], lefts0[i], rights0[i]));
                        assert(in_stash_of(row0, i, p));
                    }
                }
                assert(!in_some_stash(rights0, p)) by {
                    if in_some_stash(rights0, p) {
                        let i = choose|i: int|
                            0 <= i < rights0.len() && in_stash_of(rights0, i, p);
                        assert(halves_of(row0[i], lefts0[i], rights0[i]));
                        assert(in_stash_of(row0, i, p));
                    }
                }
                assert(data1[p] == data0[p]);
            }
        }
        let mut i: usize = 0;
        while i < n
            invariant
                n == row0.len(),
                n == buckets@.len(),
                n == right_halves@.len(),
                rights1 == right_halves@,
                lefts0.len() == n,
                lefts1.len() == n,
                rights0.len() == n,
                i <= n,
                len == data@.len(),
                len == data0.len(),
                all_fit(row0, len),
                all_unprocessed(row0),
                same_spans(lefts0, lefts1),
                same_spans(rights0, rights1),
                forall|k: int| 0 <= k < n ==> (#[trigger] lefts1[k]).wf() && rights1[k].wf(),
                forall|k: int| 0 <= k < n ==> halves_of(row0[k], #[trigger] lefts0[k], rights0[k]),
                forall|k: int| i <= k < n ==> #[trigger] buckets@[k] == lefts1[k],
                forall|k: int|
                    0 <= k < i ==> (#[trigger] buckets@[k]).span == row0[k].span
                        && buckets@[k].wf(),
                permutes(data0, data@),
                forall|p: int|
                    0 <= p < len && !in_some_stash(row0, p) ==> #[trigger] data@[p] == data0[p],
            decreases n - i,
        {
            let left = buckets[i];
            let right = right_halves[i];
            let ghost before = data@;
            proof {
                assert(halves_of(row0[i as int], lefts0[i as int], rights0[i as int]));
                assert(lefts1[i as int].span == lefts0[i as int].span);
                assert(rights1[i as int].span == rights0[i as int].span);
                assert(lefts1[i as int].wf() && rights1[i as int].wf());
                assert(row0[i as int].fits(len));
            }
            let merged = left.merge_with_right_neighbor(right, data);
            buckets[i] = merged;
            proof {
                assert forall|p: int|
                    0 <= p < len && !in_some_stash(row0, p) implies #[trigger] data@[p]
                    == data0[p] by {
                    assert(!in_stash_of(row0, i as int, p));
                    assert(before[p] == data0[p]);
                }
            }
            i = i + 1;
        }
        let ghost row2 = buckets@;
        let ghost data3 = data@;
        proof {
            assert forall|k: int| 0 <= k < n implies (#[trigger] row2[k]).fits(len) by {
                assert(row0[k].fits(len));
            }
        }
        rough_shuffle(rng, buckets, data);
        proof {
            assert forall|k: int| 0 <= k < n implies (#[trigger] buckets@[k]).span
                == row0[k].span by {
                assert(row2[k].span == row0[k].span);
            }
            assert forall|p: int|
                0 <= p < len && !in_some_stash(row0, p) implies #[trigger] data@[p] == data0[p] by {
                assert(!in_some_stash(row2, p)) by {
                    if in_some_stash(row2, p) {
                        let k = choose|k: int| 0 <= k < row2.len() && in_stash_of(row2, k, p);
                        assert(row2[k].span == row0[k].span);
                        assert(row2[k].wf());
                        assert(in_stash_of(row0, k, p));
                    }
                }
                assert(data3[p] == data0[p]);
            }
        }
    }

    /// Shuffles every block of the row `blocks` on its own. The row covers
    /// `data`, which is the part from position `base` on of the slice that the
    /// blocks were made for. A row of several blocks is cut in two, and the
    /// two halves are dealt with on two threads, the second with a random
    /// source that is seeded from `rng`; where none can be seeded, they are
    /// dealt with one after the other. A block as long as the slice that this
    /// recursion started from, `parent_len`, is left to the base case.
    pub fn recurse(
        &self,
        rng: &mut R,
        blocks: &[Block],
        data: &mut [T],
        base: usize,
        parent_len: usize,
    )
        requires
            self.wf(),
            recursion_ready(blocks@, base as int, old(data)@.len() as int, parent_len as int),
        ensures
            permutes(old(data)@, final(data)@),
            blocks_shuffled(
                blocks@,
                old(data)@,
                final(data)@,
                base as int,
                blocks@.len() as int,
            ),
            par_blocks_shuffled(
                blocks@,
                old(data)@,
                final(data)@,
                base as int,
                parent_len as int,
                NUM_BLOCKS as int,
                self.seq.config.par_case_size() as int,
                self.seq.config.par_base_case_is_sequential(),
                self.seq.config.base_case_size() as int,
                self.seq.config.base_case_is_fisher_yates(),
            ),
        decreases parent_len, 0nat, blocks@.len(),
    {
        if blocks.len() == 1 {
            if data.len() < parent_len {
                self.shuffle(rng, data);
            } else {
                self.seq.config.par_base_case_shuffle(rng, data);
            }
            proof {
                assert(blocks@[0].wf());
                assert(old(data)@.subrange(0, old(data)@.len() as int) =~= old(data)@);
                assert(data@.subrange(0, data@.len() as int) =~= data@);
                assert(shuffled_at(blocks@, old(data)@, data@, base as int, 0));
                assert(par_shuffled_at(
                    blocks@,
                    old(data)@,
                    data@,
                    base as int,
                    0,
                    parent_len as int,
                    NUM_BLOCKS as int,
                    self.seq.config.par_case_size() as int,
                    self.seq.config.par_base_case_is_sequential(),
                    self.seq.config.base_case_size() as int,
                    self.seq.config.base_case_is_fisher_yates(),
                ));
            }
            return ;
        }
        let ghost row = blocks@;
        let ghost before = data@;
        let total_len = data.len();
        let mid = blocks.len() / 2;
        let boundary = blocks[mid].span.start;
        proof {
            lemma_tiles_within(row, base as int, base + total_len, mid as int);
            lemma_split_tiles(row, base as int, base + total_len, mid as int);
        }
        let (left_blocks, right_blocks) = blocks.split_at(mid);
        let (left, right) = data.split_at_mut(boundary - base);
        let ghost left0 = left@;
        let ghost right0 = right@;
        let seeded: Option<R> = seed_new_rng(rng);
        match seeded {
            Some(mut right_rng) => {
                join_recurse(
                    self,
                    rng,
                    left_blocks,
                    left,
                    &mut right_rng,
                    right_blocks,
                    right,
                    base,
                    boundary,
                    parent_len,
                );
            },
            None => {
                self.recurse(rng, left_blocks, left, base, parent_len);
                self.recurse(rng, right_blocks, right, boundary, parent_len);
            },
        }
        proof {
            let cut = boundary - base;
            vstd::seq_lib::lemma_multiset_commutative(final(left)@, final(right)@);
            vstd::seq_lib::lemma_multiset_commutative(
                before.subrange(0, cut),
                before.subrange(cut, total_len as int),
            );
            assert(before =~= before.subrange(0, cut) + before.subrange(cut, total_len as int));
            assert forall|k: int| 0 <= k < row.len() implies shuffled_at(
                row,
                before,
                data@,
                base as int,
                k,
            ) by {
                lemma_tiles_within(row, base as int, base + total_len, k);
                let s = row[k].span.start - base;
                let e = row[k].span.end - base;
                if k < mid {
                    lemma_tiles_within(left_blocks@, base as int, boundary as int, k);
                    assert(left_blocks@[k] == row[k]);
                    assert(shuffled_at(left_blocks@, left0, final(left)@, base as int, k));
                    assert(before.subrange(s, e) =~= left0.subrange(s, e));
                    assert(data@.subrange(s, e) =~= final(left)@.subrange(s, e));
                } else {
                    lemma_tiles_within(
                        right_blocks@,
                        boundary as int,
                        base + total_len,
                        k - mid,
                    );
                    assert(right_blocks@[k - mid] == row[k]);
                    assert(shuffled_at(
                        right_blocks@,
                        right0,
                        final(right)@,
                        boundary as int,
                        k - mid,
                    ));
                    assert(before.subrange(s, e) =~= right0.subrange(s - cut, e - cut));
                    assert(data@.subrange(s, e) =~= final(right)@.subrange(s - cut, e - cut));
                }
            }
            assert forall|k: int| 0 <= k < row.len() implies #[trigger] par_shuffled_at(
                row,
                before,
                data@,
                base as int,
                k,
                parent_len as int,
                NUM_BLOCKS as int,
                self.seq.config.par_case_size() as int,
                self.seq.config.par_base_case_is_sequential(),
                self.seq.config.base_case_size() as int,
                self.seq.config.base_case_is_fisher_yates(),
            ) by {
                lemma_tiles_within(row, base as int, base + total_len, k);
                let s = row[k].span.start - base;
                let e = row[k].span.end - base;
                if k < mid {
                    lemma_tiles_within(left_blocks@, base as int, boundary as int, k);
                    assert(left_blocks@[k] == row[k]);
                    assert(before.subrange(s, e) =~= left0.subrange(s, e));
                    assert(data@.subrange(s, e) =~= final(left)@.subrange(s, e));
                    assert(par_shuffled_at(
                        left_blocks@,
                        left0,
                        final(left)@,
                        base as int,
                        k,
                        parent_len as int,
                        NUM_BLOCKS as int,
                        self.seq.config.par_case_size() as int,
                        self.seq.config.par_base_case_is_sequential(),
                        self.seq.config.base_case_size() as int,
                        self.seq.config.base_case_is_fisher_yates(),
                    ));
                } else {
                    lemma_tiles_within(
                        right_blocks@,
                        boundary as int,
                        base + total_len,
                        k - mid,
                    );
                    assert(right_blocks@[k - mid] == row[k]);
                    assert(before.subrange(s, e) =~= right0.subrange(s - cut, e - cut));
                    assert(data@.subrange(s, e) =~= final(right)@.subrange(s - cut, e - cut));
                    assert(par_shuffled_at(
                        right_blocks@,
                        right0,
                        final(right)@,
                        boundary as int,
                        k - mid,
                        parent_len as int,
                        NUM_BLOCKS as int,
                        self.seq.config.par_case_size() as int,
                        self.seq.config.par_base_case_is_sequential(),
                        self.seq.config.base_case_size() as int,
                        self.seq.config.base_case_is_fisher_yates(),
                    ));
                }
            }
        }
    }
}

/// A row of blocks that covers `lo..hi`, cut in two between two blocks, gives
/// two rows that cover what lies before the cut and what lies behind it.
pub proof fn lemma_split_tiles(blocks: Seq<Block>, lo: int, hi: int, mid: int)
    requires
        tiles(blocks, lo, hi),
        0 < mid < blocks.len(),
    ensures
        tiles(blocks.subrange(0, mid), lo, blocks[mid].span.start as int),
        tiles(blocks.subrange(mid, blocks.len() as int), blocks[mid].span.start as int, hi),
{
    let left = blocks.subrange(0, mid);
    let right = blocks.subrange(mid, blocks.len() as int);
    assert(adjacent_at(blocks, mid - 1));
    assert forall|i: int| 0 <= i < left.len() implies (#[trigger] left[i]).wf() by {
        assert(blocks[i].wf());
    }
    assert forall|i: int| 0 <= i < right.len() implies (#[trigger] right[i]).wf() by {
        assert(blocks[mid + i].wf());
    }
    assert forall|i: int| 0 <= i < left.len() - 1 implies #[trigger] adjacent_at(left, i) by {
        assert(adjacent_at(blocks, i));
    }
    assert forall|i: int| 0 <= i < right.len() - 1 implies #[trigger] adjacent_at(right, i) by {
        assert(adjacent_at(blocks, mid + i));
    }
}

/// The number of blocks that [`par_scatter_shuffle`] cuts an input of `len`
/// elements of `size` bytes each into: 64 for less than `2^27` bytes and 256
/// for more; or 0 for up to `2^23` bytes, which are left to Fisher-Yates.
pub open spec fn par_blocks(len: int, size: int) -> int {
    if size == 0 || len <= 0x80_0000int / size {
        0
    } else if len < 0x800_0000int / size || (len == 0x800_0000int / size && 0x800_0000int % size
        != 0) {
        64
    } else {
        256
    }
}

/// Rearranges `data` into a uniformly random order, on several threads where
/// it is long enough. An input of up to `2^23` bytes is left to Fisher-Yates.
/// One of less than `2^27` bytes is cut into 64 blocks, a longer one into 256;
/// an input of up to `2^20` elements is left to the scatter shuffle on one
/// thread all the same.
pub fn par_scatter_shuffle<R, T>(rng: &mut R, data: &mut [T]) where
    R: Rng + SeedableRng + Send + Sync,
    T: Send + Sync,

    ensures
        permutes(old(data)@, final(data)@),
        ({
            let n = par_blocks(old(data)@.len() as int, vstd::layout::size_of::<T>() as int);
            if n == 0 {
                is_fisher_yates(old(data)@, final(data)@)
            } else {
                is_par_shuffle(old(data)@, final(data)@, n, 0x10_0000, true, 0x1_0000, true)
            }
        }),
{
    let size = core::mem::size_of::<T>();
    let len = data.len();
    let small = size == 0 || len <= 0x80_0000 / size;
    let medium = size == 0 || len < 0x800_0000 / size || (len == 0x800_0000 / size
        && 0x800_0000 % size != 0);
    if small {
        fisher_yates(rng, data);
    } else if medium {
        let algo = ParScatterShuffleImpl::<R, T, Configuration, 64>::new(
            Configuration::parallel(),
        );
        algo.shuffle(rng, data);
    } else {
        let algo = ParScatterShuffleImpl::<R, T, Configuration, 256>::new(
            Configuration::parallel(),
        );
        algo.shuffle(rng, data);
    }
}

} // verus!
