//! Fisher-Yates on elements that lie in several ranges of a slice.
//!
//! The ranges are taken as one sequence, from the first position of the first
//! range to the last position of the last. From the last position down, each
//! position changes places with a position drawn uniformly from itself and
//! the positions before it. Such a position is found by rejection: a range up
//! to the one at hand and an offset up to the length of the longest of these
//! ranges are drawn until the offset lies inside the range and the position
//! is none behind the one at hand. This is slow where the ranges differ much
//! in length; after a run of rejections the position is found by counting
//! through the ranges instead.

use crate::blocked::slicing::Span;
use crate::slices::{permutes, swap_elements, swapped};
use crate::uniform_index::{gen_index, REDRAW_LIMIT};
use rand::Rng;
use vstd::prelude::*;

verus! {

/// Whether the position `p` belongs to one of the ranges.
pub open spec fn in_some_range(ranges: Seq<Span>, p: int) -> bool {
    exists|i: int| 0 <= i < ranges.len() && in_range_at(ranges, i, p)
}

/// Whether the position `p` belongs to range `i`.
pub open spec fn in_range_at(ranges: Seq<Span>, i: int, p: int) -> bool {
    ranges[i].start <= p < ranges[i].end
}

/// Every range lies inside a slice of `len` elements.
pub open spec fn ranges_fit(ranges: Seq<Span>, len: int) -> bool {
    forall|i: int| 0 <= i < ranges.len() ==> (#[trigger] ranges[i]).fits(len)
}

/// `after` holds the elements of `before`, and holds them in the same places
/// outside the ranges: the elements inside the ranges were rearranged among
/// the positions of the ranges.
pub open spec fn shuffled_within<T>(ranges: Seq<Span>, before: Seq<T>, after: Seq<T>) -> bool {
    &&& permutes(before, after)
    &&& forall|p: int|
        0 <= p < before.len() && !in_some_range(ranges, p) ==> #[trigger] after[p] == before[p]
}

/// The length of the longest of the first `count` ranges.
pub fn longest_range(ranges: &[Span], count: usize) -> (longest: usize)
    requires
        count <= ranges@.len(),
        forall|i: int| 0 <= i < ranges@.len() ==> (#[trigger] ranges@[i]).wf(),
    ensures
        forall|i: int| 0 <= i < count ==> (#[trigger] ranges@[i]).size() <= longest,
        count > 0 ==> exists|i: int| 0 <= i < count && (#[trigger] ranges@[i]).size() == longest,
        count == 0 ==> longest == 0,
{
    let mut longest: usize = 0;
    let mut k: usize = 0;
    let ghost mut at: int = 0;
    while k < count
        invariant
            k <= count <= ranges@.len(),
            forall|i: int| 0 <= i < ranges@.len() ==> (#[trigger] ranges@[i]).wf(),
            forall|i: int| 0 <= i < k ==> (#[trigger] ranges@[i]).size() <= longest,
            k > 0 ==> 0 <= at < k && ranges@[at].size() == longest,
            k == 0 ==> longest == 0,
        decreases count - k,
    {
        let range = ranges[k];
        assert(range.wf());
        let len = range.len();
        if len > longest || k == 0 {
            longest = len;
            proof {
                at = k as int;
            }
        }
        k = k + 1;
    }
    longest
}

/// The position at offset `i` of range `r`.
pub open spec fn place(ranges: Seq<Span>, r: int, i: int) -> int {
    ranges[r].start + i
}

/// Whether the offset `partner.1` of range `partner.0` can be the partner of
/// the position at offset `i` of range `r`: it is a position of the ranges
/// that is the position itself or lies before it.
pub open spec fn is_partner_at(ranges: Seq<Span>, r: int, i: int, partner: (int, int)) -> bool {
    &&& 0 <= partner.0 <= r
    &&& 0 <= partner.1 < ranges[partner.0].size()
    &&& partner.0 == r ==> partner.1 <= i
}

/// Partners for all positions of the ranges.
pub open spec fn are_range_partners(ranges: Seq<Span>, partners: Seq<Seq<(int, int)>>) -> bool {
    &&& partners.len() == ranges.len()
    &&& forall|r: int|
        0 <= r < ranges.len() ==> (#[trigger] partners[r]).len() == ranges[r].size()
    &&& forall|r: int, i: int|
        0 <= r < ranges.len() && 0 <= i < ranges[r].size() ==> is_partner_at(
            ranges,
            r,
            i,
            #[trigger] partners[r][i],
        )
}

/// `s` after every position of the ranges from the last down to the offset
/// `from` of range `r` has changed places with its partner, each in its turn.
pub open spec fn exchanged_down<T>(
    s: Seq<T>,
    ranges: Seq<Span>,
    partners: Seq<Seq<(int, int)>>,
    r: int,
    from: int,
) -> Seq<T>
    decreases ranges.len() - r, ranges[r].size() - from,
{
    if r < 0 || r >= ranges.len() {
        s
    } else if from < 0 || from >= ranges[r].size() {
        exchanged_down(s, ranges, partners, r + 1, 0)
    } else {
        swapped(
            exchanged_down(s, ranges, partners, r, from + 1),
            place(ranges, r, from),
            place(ranges, partners[r][from].0, partners[r][from].1),
        )
    }
}

/// `after` is what Fisher-Yates on the ranges makes of `before` for some
/// draw of the partners: from the last position of the last range down to the
/// second position of the first, every position has changed places with a
/// position of the ranges that is the same or lies before it.
pub open spec fn is_fisher_yates_on<T>(ranges: Seq<Span>, before: Seq<T>, after: Seq<T>) -> bool {
    exists|partners: Seq<Seq<(int, int)>>| #[trigger]
        are_range_partners(ranges, partners) && after == exchanged_down(
            before,
            ranges,
            partners,
            0,
            1,
        )
}

/// Exchanges from a position down keep the length, and depend on the
/// partners from that position on only.
pub proof fn lemma_exchanged_down<T>(
    s: Seq<T>,
    ranges: Seq<Span>,
    partners: Seq<Seq<(int, int)>>,
    others: Seq<Seq<(int, int)>>,
    r: int,
    from: int,
)
    requires
        ranges_fit(ranges, s.len() as int),
        are_range_partners(ranges, partners),
        are_range_partners(ranges, others),
        0 <= r,
        0 <= from,
        forall|k: int, i: int|
            r <= k < ranges.len() && 0 <= i < ranges[k].size() && (k > r || i >= from)
                ==> partners[k][i] == others[k][i],
    ensures
        exchanged_down(s, ranges, partners, r, from).len() == s.len(),
        exchanged_down(s, ranges, partners, r, from) == exchanged_down(s, ranges, others, r, from),
    decreases ranges.len() - r, ranges[r].size() - from,
{
    if r < ranges.len() {
        assert(ranges[r].fits(s.len() as int));
        if from >= ranges[r].size() {
            lemma_exchanged_down(s, ranges, partners, others, r + 1, 0);
        } else {
            lemma_exchanged_down(s, ranges, partners, others, r, from + 1);
            let partner = partners[r][from];
            assert(is_partner_at(ranges, r, from, partner));
            assert(ranges[partner.0].fits(s.len() as int));
        }
    }
}

/// Whether a draw of the range `drawn_range` and the offset `drawn` gives a
/// partner for the position at offset `i` of range `i_range`: the offset lies
/// inside the range drawn, and the position drawn is none behind the one that
/// the partner is for.
pub fn is_partner(
    ranges: &[Span],
    i_range: usize,
    i: usize,
    drawn_range: usize,
    drawn: usize,
) -> (accepted: bool)
    requires
        drawn_range < ranges@.len(),
        ranges@[drawn_range as int].wf(),
    ensures
        accepted == (drawn < ranges@[drawn_range as int].size() && (drawn_range < i_range
            || (drawn_range == i_range && drawn <= i))),
{
    drawn < ranges[drawn_range].len() && (drawn_range < i_range || (drawn_range == i_range
        && drawn <= i))
}

/// The number of positions of the first `k` ranges together.
pub open spec fn sizes_sum(ranges: Seq<Span>, k: int) -> int
    decreases k,
{
    if k <= 0 {
        0
    } else {
        sizes_sum(ranges, k - 1) + ranges[k - 1].size()
    }
}

/// Draws a partner for the position at offset `i` of range `i_range` without
/// rejection: a number is drawn uniformly from as many as there are positions
/// up to that one, and the position of that number is found by counting
/// through the ranges. Where the positions are too many to be counted, the
/// position is its own partner.
pub fn partner_by_count<R: Rng>(
    rng: &mut R,
    ranges: &[Span],
    i_range: usize,
    i: usize,
) -> (partner: (usize, usize))
    requires
        i_range < ranges@.len(),
        i < ranges@[i_range as int].size(),
        forall|k: int| 0 <= k < ranges@.len() ==> (#[trigger] ranges@[k]).wf(),
    ensures
        partner.0 <= i_range,
        partner.1 < ranges@[partner.0 as int].size(),
        partner.0 == i_range ==> partner.1 <= i,
{
    assert(ranges@[i_range as int].wf());
    let mut total: usize = i + 1;
    let mut k: usize = 0;
    while k < i_range
        invariant
            k <= i_range < ranges@.len(),
            forall|r: int| 0 <= r < ranges@.len() ==> (#[trigger] ranges@[r]).wf(),
            i < ranges@[i_range as int].size(),
            total >= i + 1,
            total == i + 1 + sizes_sum(ranges@, k as int),
        decreases i_range - k,
    {
        assert(ranges@[k as int].wf());
        match total.checked_add(ranges[k].len()) {
            Some(sum) => {
                total = sum;
            },
            None => {
                return (i_range, i);
            },
        }
        k = k + 1;
    }
    let number = gen_index(rng, total);
    let mut counted: usize = 0;
    let mut k: usize = 0;
    while k < i_range
        invariant
            k <= i_range < ranges@.len(),
            forall|r: int| 0 <= r < ranges@.len() ==> (#[trigger] ranges@[r]).wf(),
            counted == sizes_sum(ranges@, k as int),
            counted <= number,
            number < i + 1 + sizes_sum(ranges@, i_range as int),
        decreases i_range - k,
    {
        assert(ranges@[k as int].wf());
        let len = ranges[k].len();
        if number - counted < len {
            return (k, number - counted);
        }
        counted = counted + len;
        k = k + 1;
    }
    (i_range, number - counted)
}

/// Half of `count * len`, or the largest number there is where that is less.
fn tolerance(count: usize, len: usize) -> (tolerance: usize)
    ensures
        tolerance == if (count * len) / 2 > usize::MAX {
            usize::MAX as int
        } else {
            (count * len) / 2
        },
{
    assert(0 <= count * len <= 0xffff_ffff_ffff_ffff * 0xffff_ffff_ffff_ffff) by (nonlinear_arith)
        requires
            0 <= count <= 0xffff_ffff_ffff_ffff,
            0 <= len <= 0xffff_ffff_ffff_ffff,
    ;
    let half: u128 = (count as u128) * (len as u128) / 2;
    if half > usize::MAX as u128 {
        usize::MAX
    } else {
        half as usize
    }
}

/// Rearranges the elements of `data` that lie in `ranges` into a uniformly
/// random order among the positions of `ranges`. The ranges must lie apart
/// for the order to be uniform. A partner is drawn by rejection, and by
/// [`partner_by_count`] after [`REDRAW_LIMIT`] rejections in a row.
pub fn noncontiguous_fisher_yates<R: Rng, T>(rng: &mut R, data: &mut [T], ranges: &[Span])
    requires
        ranges_fit(ranges@, old(data)@.len() as int),
    ensures
        shuffled_within(ranges@, old(data)@, final(data)@),
        is_fisher_yates_on(ranges@, old(data)@, final(data)@),
{
    let ghost mut partners: Seq<Seq<(int, int)>> = Seq::new(
        ranges@.len(),
        |r: int| Seq::new(ranges@[r].size() as nat, |i: int| (r, i)),
    );
    proof {
        assert forall|i: int| 0 <= i < ranges@.len() implies (#[trigger] ranges@[i]).wf() by {
            assert(ranges@[i].fits(data@.len() as int));
        }
        assert(are_range_partners(ranges@, partners));
    }
    if ranges.len() == 0 {
        return ;
    }
    proof {
        assert forall|i: int| 0 <= i < ranges@.len() implies (#[trigger] ranges@[i]).wf() by {
            assert(ranges@[i].fits(data@.len() as int));
        }
    }
    let mut max_len = longest_range(ranges, ranges.len());
    let mut max_len_tol = tolerance(ranges.len(), max_len);

    let num_ranges = ranges.len();
    let mut i_range: usize = num_ranges;
    while i_range > 0
        invariant
            num_ranges == ranges@.len(),
            i_range <= ranges@.len(),
            ranges_fit(ranges@, data@.len() as int),
            forall|i: int| 0 <= i < ranges@.len() ==> (#[trigger] ranges@[i]).wf(),
            data@.len() == old(data)@.len(),
            shuffled_within(ranges@, old(data)@, data@),
            num_ranges > 0,
            ranges_fit(ranges@, old(data)@.len() as int),
            are_range_partners(ranges@, partners),
            i_range > 0 ==> data@ == exchanged_down(
                old(data)@,
                ranges@,
                partners,
                i_range as int,
                0,
            ),
            i_range == 0 ==> data@ == exchanged_down(old(data)@, ranges@, partners, 0, 1),
        decreases i_range,
    {
        i_range = i_range - 1;
        let range = ranges[i_range];
        assert(range.fits(data@.len() as int));
        let i_start: usize = if i_range == 0 {
            1
        } else {
            0
        };
        let mut i: usize = range.len();
        while i > i_start
            invariant
                num_ranges == ranges@.len(),
                i_range < ranges@.len(),
                range == ranges@[i_range as int],
                range.fits(data@.len() as int),
                i <= range.size(),
                ranges_fit(ranges@, data@.len() as int),
                forall|k: int| 0 <= k < ranges@.len() ==> (#[trigger] ranges@[k]).wf(),
                data@.len() == old(data)@.len(),
                shuffled_within(ranges@, old(data)@, data@),
                ranges_fit(ranges@, old(data)@.len() as int),
                are_range_partners(ranges@, partners),
                i_start == if i_range == 0 {
                    1int
                } else {
                    0int
                },
                i >= i_start || i == range.size(),
                data@ == exchanged_down(old(data)@, ranges@, partners, i_range as int, i as int),
            decreases i,
        {
            i = i - 1;
            let mut j_range: usize = i_range;
            let mut j: usize = i;
            let mut found = false;
            let mut redraws: u32 = 0;
            while redraws < REDRAW_LIMIT
                invariant
                    num_ranges == ranges@.len(),
                    i_range < ranges@.len(),
                    range == ranges@[i_range as int],
                    i < range.size(),
                    j_range <= i_range,
                    j < ranges@[j_range as int].size(),
                    j_range == i_range ==> j <= i,
                    forall|k: int| 0 <= k < ranges@.len() ==> (#[trigger] ranges@[k]).wf(),
                decreases REDRAW_LIMIT - redraws,
            {
                let ub = if i_range == 0 {
                    i
                } else {
                    if max_len_tol == 0 {
                        max_len = longest_range(ranges, i_range + 1);
                        max_len_tol = tolerance(i_range + 1, max_len);
                    } else {
                        max_len_tol = max_len_tol - 1;
                    }
                    max_len
                };
                let drawn_range = gen_index(rng, i_range + 1);
                let drawn = if ub < usize::MAX {
                    gen_index(rng, ub + 1)
                } else {
                    gen_index(rng, ub)
                };
                assert(ranges@[drawn_range as int].wf());
                if is_partner(ranges, i_range, i, drawn_range, drawn) {
                    j_range = drawn_range;
                    j = drawn;
                    found = true;
                    break ;
                }
                redraws = redraws + 1;
            }
            if !found {
                let counted = partner_by_count(rng, ranges, i_range, i);
                j_range = counted.0;
                j = counted.1;
            }
            let partner = ranges[j_range];
            proof {
                let row = partners[i_range as int].update(i as int, (j_range as int, j as int));
                let drawn = partners.update(i_range as int, row);
                assert(are_range_partners(ranges@, drawn)) by {
                    assert forall|r: int| 0 <= r < ranges@.len() implies (#[trigger] drawn[r]).len()
                        == ranges@[r].size() by {
                        assert(partners[r].len() == ranges@[r].size());
                    }
                    assert forall|r: int, k: int|
                        0 <= r < ranges@.len() && 0 <= k < ranges@[r].size() implies is_partner_at(
                        ranges@,
                        r,
                        k,
                        #[trigger] drawn[r][k],
                    ) by {
                        assert(is_partner_at(ranges@, r, k, partners[r][k]));
                    }
                }
                lemma_exchanged_down(old(data)@, ranges@, drawn, partners, i_range as int, i + 1);
                partners = drawn;
                assert(partner.fits(data@.len() as int));
                assert(in_range_at(ranges@, i_range as int, range.start + i));
                assert(in_range_at(ranges@, j_range as int, partner.start + j));
            }
            swap_elements(data, range.start + i, partner.start + j);
        }
    }
}

} // verus!
