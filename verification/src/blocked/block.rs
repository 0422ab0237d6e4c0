//! A block: a range of positions of a slice whose front part, the processed
//! prefix, holds the elements that have been dealt with, and whose back part,
//! the stash, holds the elements that are still waiting.

use crate::blocked::slicing::{Slicing, Span};
use crate::slices::{
    disjoint_ranges, lemma_ranges_swapped_twice, permutes, ranges_swapped, swap_ranges,
};
use vstd::math::min;
use vstd::prelude::*;

verus! {

/// The positions `span` of a slice, of which the first `num_processed` are
/// processed.
#[derive(Clone, Copy, Debug)]
pub struct Block {
    pub span: Span,
    pub num_processed: usize,
}

impl Block {
    /// The processed prefix lies inside the block.
    pub open spec fn wf(&self) -> bool {
        &&& self.span.wf()
        &&& self.num_processed <= self.span.size()
    }

    /// The block is well formed and lies inside a slice of `len` elements.
    pub open spec fn fits(&self, len: int) -> bool {
        &&& self.wf()
        &&& self.span.end <= len
    }

    /// The position of the first element of the stash: where the processed
    /// prefix ends.
    pub open spec fn split(&self) -> int {
        self.span.start + self.num_processed
    }

    /// The number of elements of the stash.
    pub open spec fn stash_size(&self) -> int {
        self.span.size() - self.num_processed
    }

    /// The elements of the block.
    pub open spec fn contents<T>(&self, data: Seq<T>) -> Seq<T> {
        self.span.of(data)
    }

    /// The elements of the processed prefix.
    pub open spec fn processed<T>(&self, data: Seq<T>) -> Seq<T> {
        data.subrange(self.span.start as int, self.split())
    }

    /// The elements of the stash.
    pub open spec fn stash<T>(&self, data: Seq<T>) -> Seq<T> {
        data.subrange(self.split(), self.span.end as int)
    }

    /// Whether `rhs` starts where this block ends.
    pub open spec fn adjoins(&self, rhs: &Self) -> bool {
        self.span.end == rhs.span.start
    }

    /// A block on the positions `span`, none of them processed.
    pub fn new(span: Span) -> (block: Self)
        requires
            span.wf(),
        ensures
            block.span == span,
            block.num_processed == 0,
            block.wf(),
    {
        Block { span, num_processed: 0 }
    }

    /// A block on the positions `span` whose last `num_unprocessed` positions
    /// form the stash.
    pub fn new_with_num_unprocessed(span: Span, num_unprocessed: usize) -> (block: Self)
        requires
            span.wf(),
            num_unprocessed <= span.size(),
        ensures
            block.span == span,
            block.num_processed == span.size() - num_unprocessed,
            block.wf(),
    {
        let n = span.len();
        Block { span, num_processed: n - num_unprocessed }
    }

    /// Takes the last position away from the block and returns it, or `None`
    /// where the block is empty. The position must belong to the stash.
    pub fn pop(&mut self) -> (last: Option<usize>)
        requires
            old(self).wf(),
            old(self).span.size() == 0 || old(self).stash_size() > 0,
        ensures
            final(self).wf(),
            final(self).span.start == old(self).span.start,
            final(self).num_processed == old(self).num_processed,
            old(self).span.size() == 0 ==> last.is_none() && final(self).span.end == old(
                self,
            ).span.end,
            old(self).span.size() > 0 ==> last == Some((old(self).span.end - 1) as usize)
                && final(self).span.end == old(self).span.end - 1,
    {
        if self.span.is_empty() {
            None
        } else {
            self.span.end = self.span.end - 1;
            Some(self.span.end)
        }
    }

    /// Puts the position `slot` at the end of the block. It must be the
    /// position that follows the block.
    pub fn push(&mut self, slot: usize)
        requires
            old(self).wf(),
            slot == old(self).span.end,
            slot < usize::MAX,
        ensures
            final(self).wf(),
            final(self).span.start == old(self).span.start,
            final(self).span.end == old(self).span.end + 1,
            final(self).num_processed == old(self).num_processed,
    {
        let mut one = Span { start: slot, end: slot + 1 };
        one.give_to_left_neighbor(&mut self.span, 1);
    }

    /// Whether the block holds no position.
    pub fn is_empty(&self) -> (empty: bool)
        ensures
            empty == (self.span.start == self.span.end),
    {
        self.span.is_empty()
    }

    /// Whether the stash is empty.
    pub fn is_fully_processed(&self) -> (full: bool)
        requires
            self.wf(),
        ensures
            full == (self.stash_size() == 0),
    {
        self.num_processed == self.len()
    }

    /// The number of positions of the block.
    pub fn len(&self) -> (len: usize)
        requires
            self.span.wf(),
        ensures
            len == self.span.size(),
    {
        self.span.len()
    }

    /// Sets the number of processed positions.
    pub fn set_num_processed(&mut self, num: usize)
        requires
            old(self).span.wf(),
            num <= old(self).span.size(),
        ensures
            final(self).span == old(self).span,
            final(self).num_processed == num,
            final(self).wf(),
    {
        self.num_processed = num;
    }

    /// The number of processed positions.
    pub fn num_processed(&self) -> (num: usize)
        ensures
            num == self.num_processed,
    {
        self.num_processed
    }

    /// The number of positions of the stash.
    pub fn num_unprocessed(&self) -> (num: usize)
        requires
            self.wf(),
        ensures
            num == self.stash_size(),
    {
        self.len() - self.num_processed
    }

    /// The elements of the block.
    pub fn data<'a, T>(&self, array: &'a [T]) -> (part: &'a [T])
        requires
            self.fits(array@.len() as int),
        ensures
            part@ == self.contents(array@),
    {
        self.span.slice(array)
    }

    /// The elements of the stash.
    pub fn data_unprocessed<'a, T>(&self, array: &'a [T]) -> (part: &'a [T])
        requires
            self.fits(array@.len() as int),
        ensures
            part@ == self.stash(array@),
    {
        self.span.suffix(self.num_unprocessed()).slice(array)
    }

    /// The elements of the processed prefix.
    pub fn data_processed<'a, T>(&self, array: &'a [T]) -> (part: &'a [T])
        requires
            self.fits(array@.len() as int),
        ensures
            part@ == self.processed(array@),
    {
        self.span.prefix(self.num_processed).slice(array)
    }

    /// The elements of the block, to be changed in place.
    pub fn data_mut<'a, T>(&self, array: &'a mut [T]) -> (part: &'a mut [T])
        requires
            self.fits(old(array)@.len() as int),
        ensures
            part@ == self.contents(old(array)@),
            final(array)@ == old(array)@.subrange(0, self.span.start as int) + final(part)@
                + old(array)@.subrange(self.span.end as int, old(array)@.len() as int),
    {
        self.span.slice_mut(array)
    }

    /// The elements of the stash, to be changed in place.
    pub fn data_unprocessed_mut<'a, T>(&self, array: &'a mut [T]) -> (part: &'a mut [T])
        requires
            self.fits(old(array)@.len() as int),
        ensures
            part@ == self.stash(old(array)@),
            final(array)@ == old(array)@.subrange(0, self.split()) + final(part)@ + old(
                array,
            )@.subrange(self.span.end as int, old(array)@.len() as int),
    {
        self.span.suffix(self.num_unprocessed()).slice_mut(array)
    }

    /// The elements of the processed prefix, to be changed in place.
    pub fn data_processed_mut<'a, T>(&self, array: &'a mut [T]) -> (part: &'a mut [T])
        requires
            self.fits(old(array)@.len() as int),
        ensures
            part@ == self.processed(old(array)@),
            final(array)@ == old(array)@.subrange(0, self.span.start as int) + final(part)@
                + old(array)@.subrange(self.split(), old(array)@.len() as int),
    {
        self.span.prefix(self.num_processed).slice_mut(array)
    }

    /// The position of the first element of the stash, or `None` where the
    /// stash is empty.
    pub fn first_unprocessed(&self) -> (first: Option<usize>)
        requires
            self.wf(),
        ensures
            self.stash_size() > 0 ==> first == Some(self.split() as usize),
            self.stash_size() == 0 ==> first.is_none(),
    {
        if self.num_processed < self.len() {
            Some(self.span.start + self.num_processed)
        } else {
            None
        }
    }

    /// Counts the first element of the stash, which there must be, as
    /// processed, and returns the position of the element that is then the
    /// first of the stash, or `None` where the stash has become empty.
    pub fn process_element(&mut self) -> (next: Option<usize>)
        requires
            old(self).wf(),
            old(self).stash_size() > 0,
        ensures
            final(self).wf(),
            final(self).span == old(self).span,
            final(self).num_processed == old(self).num_processed + 1,
            final(self).stash_size() > 0 ==> next == Some(final(self).split() as usize),
            final(self).stash_size() == 0 ==> next.is_none(),
    {
        self.num_processed = self.num_processed + 1;
        self.first_unprocessed()
    }

    /// Whether `rhs` starts where this block ends.
    pub fn is_left_neighbor_of(&self, rhs: &Self) -> (adjacent: bool)
        ensures
            adjacent == self.adjoins(rhs),
    {
        self.span.is_left_neighbor_of(&rhs.span)
    }

    /// Cuts the block in two at its middle. This block keeps the first half
    /// and the second half is returned. The processed positions stay with the
    /// half that they lie in.
    pub fn split_in_half(&mut self) -> (right: Self)
        requires
            old(self).wf(),
        ensures
            final(self).wf(),
            right.wf(),
            final(self).adjoins(&right),
            final(self).span.start == old(self).span.start,
            right.span.end == old(self).span.end,
            right.span.start == old(self).span.start + old(self).span.size() / 2,
            final(self).num_processed + right.num_processed == old(self).num_processed,
            final(self).num_processed == min(
                old(self).num_processed as int,
                old(self).span.size() / 2,
            ),
    {
        let half = self.len() / 2;
        let mid = self.span.start + half;
        let left_processed = if self.num_processed <= half {
            self.num_processed
        } else {
            half
        };
        let right = Block {
            span: Span { start: mid, end: self.span.end },
            num_processed: self.num_processed - left_processed,
        };
        self.span.end = mid;
        self.num_processed = left_processed;
        right
    }

    /// Moves as many elements of the stash of this block as there is room for
    /// into the processed prefix of `rhs`, the block that follows it: the
    /// first elements of the stash change places with the last processed
    /// elements of `rhs`, and then count as the stash of `rhs`, while those of
    /// `rhs` count as processed in this block. After that, either this block
    /// is fully processed or `rhs` has no processed element: the processed
    /// elements of both lie in one piece.
    pub fn move_stash_to_right_neighbor<T>(&mut self, rhs: &mut Self, array: &mut [T])
        requires
            old(self).wf(),
            old(rhs).fits(old(array)@.len() as int),
            old(self).adjoins(old(rhs)),
        ensures
            final(self).wf(),
            final(rhs).wf(),
            final(self).span == old(self).span,
            final(rhs).span == old(rhs).span,
            final(self).num_processed == old(self).num_processed + min(
                old(self).stash_size(),
                old(rhs).num_processed as int,
            ),
            final(rhs).num_processed == old(rhs).num_processed - min(
                old(self).stash_size(),
                old(rhs).num_processed as int,
            ),
            final(array)@ == ranges_swapped(
                old(array)@,
                old(self).split(),
                final(rhs).split(),
                min(old(self).stash_size(), old(rhs).num_processed as int),
            ),
            permutes(old(array)@, final(array)@),
            final(self).stash_size() == 0 || final(rhs).num_processed == 0,
    {
        let left_stash = self.num_unprocessed();
        let num_elements_to_move = if left_stash <= rhs.num_processed {
            left_stash
        } else {
            rhs.num_processed
        };
        swap_ranges(
            array,
            self.span.start + self.num_processed,
            rhs.span.start + rhs.num_processed - num_elements_to_move,
            num_elements_to_move,
        );
        rhs.num_processed = rhs.num_processed - num_elements_to_move;
        self.num_processed = self.num_processed + num_elements_to_move;
    }

    /// Joins this block with `rhs`, the block that follows it, into one block.
    /// The stash of this block is first moved to the right as far as needed,
    /// so that the processed elements of both lie at the front of the joined
    /// block and the stashes of both at its back.
    pub fn merge_with_right_neighbor<T>(self, rhs: Self, array: &mut [T]) -> (merged: Self)
        requires
            self.wf(),
            rhs.fits(old(array)@.len() as int),
            self.adjoins(&rhs),
        ensures
            merged.fits(old(array)@.len() as int),
            merged.span.start == self.span.start,
            merged.span.end == rhs.span.end,
            merged.num_processed == self.num_processed + rhs.num_processed,
            final(array)@ == ranges_swapped(
                old(array)@,
                self.split(),
                rhs.split() - min(self.stash_size(), rhs.num_processed as int),
                min(self.stash_size(), rhs.num_processed as int),
            ),
            permutes(old(array)@, final(array)@),
            merged.processed(final(array)@).to_multiset() == self.processed(
                old(array)@,
            ).to_multiset().add(rhs.processed(old(array)@).to_multiset()),
            merged.stash(final(array)@).to_multiset() == self.stash(old(array)@).to_multiset().add(
                rhs.stash(old(array)@).to_multiset(),
            ),
    {
        let mut left = self;
        let mut right = rhs;
        left.move_stash_to_right_neighbor(&mut right, array);
        let merged_num_processed = left.num_processed + right.num_processed;
        let merged_span = left.span.merge_with_right_neighbor(right.span);
        let merged = Block { span: merged_span, num_processed: merged_num_processed };
        proof {
            lemma_merge_keeps_parts(self, rhs, old(array)@);
        }
        merged
    }

    /// Hands the last `num` positions of this block, all of them of its stash,
    /// over to `rhs`, the block that follows it. The positions arrive at the
    /// front of `rhs`, where its processed prefix has to start: so the
    /// elements on them change places with the last processed elements of
    /// `rhs`, as far as there are any. Both blocks keep their processed
    /// elements; `rhs` gains `num` elements of stash.
    pub fn shrink_to_right<T>(&mut self, rhs: &mut Self, array: &mut [T], num: usize)
        requires
            old(self).wf(),
            old(rhs).fits(old(array)@.len() as int),
            old(self).adjoins(old(rhs)),
            num <= old(self).stash_size(),
        ensures
            final(self).wf(),
            final(rhs).fits(old(array)@.len() as int),
            final(self).adjoins(final(rhs)),
            final(self).span.start == old(self).span.start,
            final(self).span.end == old(self).span.end - num,
            final(rhs).span.start == old(rhs).span.start - num,
            final(rhs).span.end == old(rhs).span.end,
            final(self).num_processed == old(self).num_processed,
            final(rhs).num_processed == old(rhs).num_processed,
            final(array)@ == ranges_swapped(
                old(array)@,
                old(self).span.end - num,
                old(rhs).split() - min(old(rhs).num_processed as int, num as int),
                min(old(rhs).num_processed as int, num as int),
            ),
            permutes(old(array)@, final(array)@),
            final(self).processed(final(array)@) == old(self).processed(old(array)@),
            final(rhs).processed(final(array)@).to_multiset() == old(rhs).processed(
                old(array)@,
            ).to_multiset(),
    {
        let to_move = if rhs.num_processed <= num {
            rhs.num_processed
        } else {
            num
        };
        swap_ranges(
            array,
            self.span.end - num,
            rhs.span.start + rhs.num_processed - to_move,
            to_move,
        );
        self.span.partial_merge_with_right_neighbor(&mut rhs.span, num);
        proof {
            lemma_shrink_keeps_processed(*old(self), *old(rhs), old(array)@, num as int);
        }
    }

    /// Takes the first `num` positions of `rhs`, the block that follows this
    /// one, over into this block. They must leave `rhs` room for its processed
    /// elements. The processed elements of `rhs` that lie on them change places
    /// with the elements behind its processed prefix. Both blocks keep their
    /// processed elements; this block gains `num` elements of stash.
    pub fn grow_from_right<T>(&mut self, rhs: &mut Self, array: &mut [T], num: usize)
        requires
            old(self).wf(),
            old(rhs).fits(old(array)@.len() as int),
            old(self).adjoins(old(rhs)),
            num <= old(rhs).stash_size(),
        ensures
            final(self).wf(),
            final(rhs).fits(old(array)@.len() as int),
            final(self).adjoins(final(rhs)),
            final(self).span.start == old(self).span.start,
            final(self).span.end == old(self).span.end + num,
            final(rhs).span.start == old(rhs).span.start + num,
            final(rhs).span.end == old(rhs).span.end,
            final(self).num_processed == old(self).num_processed,
            final(rhs).num_processed == old(rhs).num_processed,
            final(array)@ == ranges_swapped(
                old(array)@,
                old(rhs).span.start as int,
                old(rhs).split() + num - min(old(rhs).num_processed as int, num as int),
                min(old(rhs).num_processed as int, num as int),
            ),
            permutes(old(array)@, final(array)@),
            final(self).processed(final(array)@) == old(self).processed(old(array)@),
            final(rhs).processed(final(array)@).to_multiset() == old(rhs).processed(
                old(array)@,
            ).to_multiset(),
    {
        rhs.span.give_to_left_neighbor(&mut self.span, num);
        let to_move = if rhs.num_processed <= num {
            rhs.num_processed
        } else {
            num
        };
        swap_ranges(
            array,
            self.span.end - num,
            rhs.span.start + rhs.num_processed - to_move,
            to_move,
        );
        proof {
            lemma_grow_keeps_processed(*old(self), *old(rhs), old(array)@, num as int);
        }
    }
}

impl Default for Block {
    /// The empty block at the start of a slice.
    fn default() -> (block: Self)
        ensures
            block.span.start == 0,
            block.span.end == 0,
            block.num_processed == 0,
    {
        Block { span: Span { start: 0, end: 0 }, num_processed: 0 }
    }
}

/// Joining two neighbours puts their processed elements together at the front
/// and their stashes together at the back.
pub proof fn lemma_merge_keeps_parts<T>(left: Block, right: Block, data: Seq<T>)
    requires
        left.wf(),
        right.fits(data.len() as int),
        left.adjoins(&right),
    ensures
        ({
            let moved = min(left.stash_size(), right.num_processed as int);
            let after = ranges_swapped(data, left.split(), right.split() - moved, moved);
            let mid = left.split() + right.num_processed;
            &&& disjoint_ranges(data.len() as int, left.split(), right.split() - moved, moved)
            &&& after.subrange(left.span.start as int, mid).to_multiset() == left.processed(
                data,
            ).to_multiset().add(right.processed(data).to_multiset())
            &&& after.subrange(mid, right.span.end as int).to_multiset() == left.stash(
                data,
            ).to_multiset().add(right.stash(data).to_multiset())
        }),
{
    let moved = min(left.stash_size(), right.num_processed as int);
    let after = ranges_swapped(data, left.split(), right.split() - moved, moved);
    let mid = left.split() + right.num_processed;
    let kept = data.subrange(right.span.start as int, right.split() - moved);
    let taken = data.subrange(right.split() - moved, right.split());
    let given = data.subrange(left.split(), left.split() + moved);
    let held = data.subrange(left.split() + moved, left.span.end as int);
    assert(right.processed(data) =~= kept + taken);
    assert(left.stash(data) =~= given + held);
    assert(after.subrange(left.span.start as int, mid) =~= left.processed(data) + (taken + kept));
    assert(after.subrange(mid, right.span.end as int) =~= (held + given) + right.stash(data));
    vstd::seq_lib::lemma_multiset_commutative(left.processed(data), taken + kept);
    vstd::seq_lib::lemma_multiset_commutative(held + given, right.stash(data));
    vstd::seq_lib::lemma_seq_union_to_multiset_commutative(taken, kept);
    vstd::seq_lib::lemma_seq_union_to_multiset_commutative(held, given);
}

/// Handing the end of the stash of a block to its right neighbour keeps, in
/// each of the two, the elements that are processed.
pub proof fn lemma_shrink_keeps_processed<T>(left: Block, right: Block, data: Seq<T>, num: int)
    requires
        left.wf(),
        right.fits(data.len() as int),
        left.adjoins(&right),
        0 <= num <= left.stash_size(),
    ensures
        ({
            let moved = min(right.num_processed as int, num);
            let after = ranges_swapped(data, left.span.end - num, right.split() - moved, moved);
            &&& disjoint_ranges(data.len() as int, left.span.end - num, right.split() - moved, moved)
            &&& after.subrange(left.span.start as int, left.split()) == left.processed(data)
            &&& after.subrange(
                right.span.start - num,
                right.split() - num,
            ).to_multiset() == right.processed(data).to_multiset()
        }),
{
    let moved = min(right.num_processed as int, num);
    let after = ranges_swapped(data, left.span.end - num, right.split() - moved, moved);
    let kept = data.subrange(right.span.start as int, right.split() - moved);
    let taken = data.subrange(right.split() - moved, right.split());
    assert(after.subrange(left.span.start as int, left.split()) =~= left.processed(data));
    assert(right.processed(data) =~= kept + taken);
    assert(after.subrange(right.span.start - num, right.split() - num) =~= taken + kept);
    vstd::seq_lib::lemma_seq_union_to_multiset_commutative(taken, kept);
}

/// Taking the front of a block over into its left neighbour keeps, in each of
/// the two, the elements that are processed.
pub proof fn lemma_grow_keeps_processed<T>(left: Block, right: Block, data: Seq<T>, num: int)
    requires
        left.wf(),
        right.fits(data.len() as int),
        left.adjoins(&right),
        0 <= num <= right.stash_size(),
    ensures
        ({
            let moved = min(right.num_processed as int, num);
            let after = ranges_swapped(
                data,
                right.span.start as int,
                right.split() + num - moved,
                moved,
            );
            &&& disjoint_ranges(
                data.len() as int,
                right.span.start as int,
                right.split() + num - moved,
                moved,
            )
            &&& after.subrange(left.span.start as int, left.split()) == left.processed(data)
            &&& after.subrange(
                right.span.start + num,
                right.split() + num,
            ).to_multiset() == right.processed(data).to_multiset()
        }),
{
    let moved = min(right.num_processed as int, num);
    let after = ranges_swapped(data, right.span.start as int, right.split() + num - moved, moved);
    let taken = data.subrange(right.span.start as int, right.span.start + moved);
    let kept = data.subrange(right.span.start + moved, right.split());
    assert(after.subrange(left.span.start as int, left.split()) =~= left.processed(data));
    assert(right.processed(data) =~= taken + kept);
    assert(after.subrange(right.span.start + num, right.split() + num) =~= kept + taken);
    vstd::seq_lib::lemma_seq_union_to_multiset_commutative(taken, kept);
}

/// Handing the end of a block over to its right neighbour and then taking
/// as many positions back from it puts every element back where it was: the
/// second step exchanges the same two ranges of positions as the first.
pub proof fn lemma_shrink_then_grow_restores<T>(left: Block, right: Block, data: Seq<T>, num: int)
    requires
        left.wf(),
        right.fits(data.len() as int),
        left.adjoins(&right),
        0 <= num <= left.stash_size(),
    ensures
        ({
            let moved = min(right.num_processed as int, num);
            let shrunk = ranges_swapped(data, left.span.end - num, right.split() - moved, moved);
            let shrunk_right = Block {
                span: Span { start: (right.span.start - num) as usize, end: right.span.end },
                num_processed: right.num_processed,
            };
            let grown = ranges_swapped(
                shrunk,
                shrunk_right.span.start as int,
                shrunk_right.split() + num - moved,
                moved,
            );
            &&& num <= shrunk_right.stash_size()
            &&& grown == data
        }),
{
    let moved = min(right.num_processed as int, num);
    lemma_shrink_keeps_processed(left, right, data, num);
    lemma_ranges_swapped_twice(data, left.span.end - num, right.split() - moved, moved);
}

} // verus!
