//! Ranges of positions of a slice, and how two ranges that lie side by side
//! share out their positions.

use crate::slices::subslice_mut;
use vstd::prelude::*;

verus! {

/// The positions `start..end` of a slice.
#[derive(Clone, Copy, Debug)]
pub struct Span {
    pub start: usize,
    pub end: usize,
}

/// What can be done with a range of positions: cut off its front or its back,
/// join it with the range that follows it, and hand positions over to that
/// range.
pub trait Slicing: Sized {
    /// The first position of the range.
    spec fn lower(&self) -> int;

    /// The position behind the last position of the range.
    spec fn upper(&self) -> int;

    /// The first `n` positions.
    fn prefix(self, n: usize) -> (part: Self)
        requires
            self.lower() + n <= self.upper(),
        ensures
            part.lower() == self.lower(),
            part.upper() == self.lower() + n,
    ;

    /// The last `n` positions.
    fn suffix(self, n: usize) -> (part: Self)
        requires
            self.lower() + n <= self.upper(),
        ensures
            part.lower() == self.upper() - n,
            part.upper() == self.upper(),
    ;

    /// Hands the last `n` positions of `self` over to `rhs`, which must follow
    /// it directly.
    fn partial_merge_with_right_neighbor(&mut self, rhs: &mut Self, n: usize)
        requires
            old(self).upper() == old(rhs).lower(),
            old(self).lower() + n <= old(self).upper(),
            old(rhs).lower() <= old(rhs).upper(),
        ensures
            final(self).lower() == old(self).lower(),
            final(self).upper() == old(self).upper() - n,
            final(rhs).lower() == old(rhs).lower() - n,
            final(rhs).upper() == old(rhs).upper(),
    ;

    /// The range that spans `self` and `rhs`, which must follow it directly.
    fn merge_with_right_neighbor(self, rhs: Self) -> (merged: Self)
        requires
            self.upper() == rhs.lower(),
            self.lower() <= self.upper(),
            rhs.lower() <= rhs.upper(),
        ensures
            merged.lower() == self.lower(),
            merged.upper() == rhs.upper(),
    ;

    /// Whether `rhs` starts where `self` ends.
    fn is_left_neighbor_of(&self, rhs: &Self) -> (adjacent: bool)
        ensures
            adjacent == (self.upper() == rhs.lower()),
    ;
}

impl Span {
    /// The range is not turned round.
    pub open spec fn wf(&self) -> bool {
        self.start <= self.end
    }

    /// The range lies inside a slice of `len` elements.
    pub open spec fn fits(&self, len: int) -> bool {
        self.start <= self.end <= len
    }

    /// The number of positions.
    pub open spec fn size(&self) -> int {
        self.end - self.start
    }

    /// The elements of `data` at the positions of the range.
    pub open spec fn of<T>(&self, data: Seq<T>) -> Seq<T> {
        data.subrange(self.start as int, self.end as int)
    }

    /// The positions `start..end`.
    pub fn new(start: usize, end: usize) -> (span: Self)
        requires
            start <= end,
        ensures
            span.start == start,
            span.end == end,
    {
        Span { start, end }
    }

    /// The number of positions.
    pub fn len(&self) -> (len: usize)
        requires
            self.wf(),
        ensures
            len == self.size(),
    {
        self.end - self.start
    }

    /// Whether the range holds no position.
    pub fn is_empty(&self) -> (empty: bool)
        ensures
            empty == (self.start == self.end),
    {
        self.start == self.end
    }

    /// Hands the first `n` positions of `self` over to `lhs`, which must end
    /// where `self` starts.
    pub fn give_to_left_neighbor(&mut self, lhs: &mut Self, n: usize)
        requires
            old(lhs).end == old(self).start,
            old(self).start + n <= old(self).end,
        ensures
            final(lhs).start == old(lhs).start,
            final(lhs).end == old(lhs).end + n,
            final(self).start == old(self).start + n,
            final(self).end == old(self).end,
    {
        self.start = self.start + n;
        lhs.end = lhs.end + n;
    }

    /// The elements of `data` at the positions of the range.
    pub fn slice<'a, T>(&self, data: &'a [T]) -> (part: &'a [T])
        requires
            self.fits(data@.len() as int),
        ensures
            part@ == self.of(data@),
    {
        vstd::slice::slice_subrange(data, self.start, self.end)
    }

    /// The elements of `data` at the positions of the range, to be changed in
    /// place. The rest of `data` stays as it is.
    pub fn slice_mut<'a, T>(&self, data: &'a mut [T]) -> (part: &'a mut [T])
        requires
            self.fits(old(data)@.len() as int),
        ensures
            part@ == self.of(old(data)@),
            final(data)@ == old(data)@.subrange(0, self.start as int) + final(part)@ + old(
                data,
            )@.subrange(self.end as int, old(data)@.len() as int),
    {
        subslice_mut(data, self.start, self.end)
    }
}

impl Slicing for Span {
    open spec fn lower(&self) -> int {
        self.start as int
    }

    open spec fn upper(&self) -> int {
        self.end as int
    }

    fn prefix(self, n: usize) -> (part: Self) {
        Span { start: self.start, end: self.start + n }
    }

    fn suffix(self, n: usize) -> (part: Self) {
        Span { start: self.end - n, end: self.end }
    }

    fn partial_merge_with_right_neighbor(&mut self, rhs: &mut Self, n: usize) {
        self.end = self.end - n;
        rhs.start = rhs.start - n;
    }

    fn merge_with_right_neighbor(self, rhs: Self) -> (merged: Self) {
        Span { start: self.start, end: rhs.end }
    }

    fn is_left_neighbor_of(&self, rhs: &Self) -> (adjacent: bool) {
        self.end == rhs.start
    }
}

} // verus!
