//! The merge shuffle: the input is cut in two, both halves are shuffled, and
//! the halves are merged at random.
//!
//! The merge walks through the slice from the front. At every step a coin
//! decides which half gives the next element: the first half, whose next
//! element lies at the position of the walk already, or the second half,
//! whose next element changes places with the element there. The walk ends
//! when the coin asks for an element of a half that has none left. The
//! elements behind the walk are then dealt with one by one.

use crate::fisher_yates::{are_partners, fisher_yates, is_fisher_yates};
use crate::random_bits::RandomBitsSource;
use crate::rng::random_u64;
use crate::scatter_shuffle::parallel::seed_new_rng;
use crate::slices::{permutes, swap_elements, swapped};
use crate::uniform_index::gen_index;
use rand::{Rng, SeedableRng};
use vstd::prelude::*;

verus! {

/// The length below which an input is left to Fisher-Yates.
pub const FY_BASE_CASE: usize = 0x4_0000;

/// The state of a walk: the elements, the position of the walk, and the
/// position from which the elements of the second half lie that are left.
pub type Walk<T> = (Seq<T>, int, int);

/// One step of the walk, decided by `coin`. A coin that is set takes the next
/// element of the second half: it changes places with the element at the
/// position of the walk. A coin that is not set takes the next element of the
/// first half, which lies at the position of the walk already. The walk moves
/// on by one position then. Nothing changes where the coin asks for an
/// element of a half that has none left.
pub open spec fn walk_step<T>(walk: Walk<T>, coin: bool) -> Walk<T> {
    if coin {
        if walk.2 >= walk.0.len() {
            walk
        } else {
            (swapped(walk.0, walk.1, walk.2), walk.1 + 1, walk.2 + 1)
        }
    } else {
        if walk.1 >= walk.2 {
            walk
        } else {
            (walk.0, walk.1 + 1, walk.2)
        }
    }
}

/// The state of a walk that starts at position `begin` of `s`, with the
/// second half from position `mid` on, after the steps that `coins` decide.
pub open spec fn walked<T>(s: Seq<T>, coins: Seq<bool>, begin: int, mid: int) -> Walk<T>
    decreases coins.len(),
{
    if coins.len() == 0 {
        (s, begin, mid)
    } else {
        walk_step(walked(s, coins.drop_last(), begin, mid), coins.last())
    }
}

/// Whether the walk in the state `walk` can have ended with the elements
/// `after` and at the position `merged`: one of the halves has no element
/// left.
pub open spec fn walk_ends<T>(walk: Walk<T>, after: Seq<T>, merged: int) -> bool {
    &&& walk.0 == after
    &&& walk.1 == merged
    &&& (walk.2 == after.len() || walk.1 == walk.2)
}

/// `after` and `merged` are what a walk from position `begin` of `before`,
/// with the second half from position `mid` on, ends with for some throws of
/// the coin.
pub open spec fn is_walk<T>(
    before: Seq<T>,
    after: Seq<T>,
    begin: int,
    mid: int,
    merged: int,
) -> bool {
    exists|coins: Seq<bool>| #[trigger] walk_ends(walked(before, coins, begin, mid), after, merged)
}

/// `s` after, for every position from `from` up to `upto`, in rising order,
/// the element at the position has changed places with the element at the
/// partner that `partners` gives the position.
pub open spec fn inserted_up<T>(s: Seq<T>, partners: Seq<int>, from: int, upto: int) -> Seq<T>
    decreases upto - from,
{
    if 0 <= from < upto <= s.len() {
        swapped(inserted_up(s, partners, from, upto - 1), upto - 1, partners[upto - 1])
    } else {
        s
    }
}

/// `after` is what dealing with the elements of `before` from position `from`
/// on makes of it for some draw of the partners: every such position has
/// changed places with a position that is the same or lies before it.
pub open spec fn is_insertion_shuffle<T>(before: Seq<T>, after: Seq<T>, from: int) -> bool {
    exists|partners: Seq<int>| #[trigger]
        are_partners(partners, before.len() as int) && after == inserted_up(
            before,
            partners,
            from,
            before.len() as int,
        )
}

/// `after` is what a random merge of the part of `before` up to position
/// `mid` and the part from there on can give: a walk, and then the elements
/// that the walk left dealt with one by one.
pub open spec fn is_random_merge<T>(before: Seq<T>, after: Seq<T>, mid: int) -> bool {
    exists|between: Seq<T>, merged: int|
        0 <= merged <= before.len() && #[trigger] is_walk(before, between, 0, mid, merged)
            && is_insertion_shuffle(between, after, merged)
}

/// `after` is what a merge shuffle can make of `before`: Fisher-Yates on a
/// short input, and on any other the merge shuffle of both halves and their
/// random merge.
pub open spec fn is_merge_shuffle<T>(before: Seq<T>, after: Seq<T>) -> bool
    decreases before.len(),
{
    if before.len() < FY_BASE_CASE {
        is_fisher_yates(before, after)
    } else {
        let n = before.len() as int;
        let mid = n / 2;
        exists|halves: Seq<T>|
            {
                &&& #[trigger] is_random_merge(halves, after, mid)
                &&& halves.len() == n
                &&& is_merge_shuffle(before.subrange(0, mid), halves.subrange(0, mid))
                &&& is_merge_shuffle(before.subrange(mid, n), halves.subrange(mid, n))
            }
    }
}

/// A walk keeps the number of elements, and its two positions stay in order
/// and inside the slice.
pub proof fn lemma_walked_bounds<T>(s: Seq<T>, coins: Seq<bool>, begin: int, mid: int)
    requires
        0 <= begin <= mid <= s.len(),
    ensures
        walked(s, coins, begin, mid).0.len() == s.len(),
        begin <= walked(s, coins, begin, mid).1 <= walked(s, coins, begin, mid).2 <= s.len(),
        mid <= walked(s, coins, begin, mid).2,
    decreases coins.len(),
{
    if coins.len() > 0 {
        lemma_walked_bounds(s, coins.drop_last(), begin, mid);
    }
}

/// A walk of some steps and then some more is a walk of all of them.
pub proof fn lemma_walked_on<T>(s: Seq<T>, first: Seq<bool>, then: Seq<bool>, begin: int, mid: int)
    ensures
        walked(s, first + then, begin, mid) == walked(
            walked(s, first, begin, mid).0,
            then,
            walked(s, first, begin, mid).1,
            walked(s, first, begin, mid).2,
        ),
    decreases then.len(),
{
    if then.len() == 0 {
        assert(first + then =~= first);
    } else {
        lemma_walked_on(s, first, then.drop_last(), begin, mid);
        assert((first + then).drop_last() =~= first + then.drop_last());
        assert((first + then).last() == then.last());
    }
}

/// Dealing with positions keeps the length, and depends on the partners of
/// the positions that are dealt with only.
pub proof fn lemma_inserted_up<T>(
    s: Seq<T>,
    partners: Seq<int>,
    others: Seq<int>,
    from: int,
    upto: int,
)
    requires
        are_partners(partners, s.len() as int),
        are_partners(others, s.len() as int),
        forall|i: int| from <= i < upto ==> partners[i] == others[i],
    ensures
        inserted_up(s, partners, from, upto).len() == s.len(),
        inserted_up(s, partners, from, upto) == inserted_up(s, others, from, upto),
    decreases upto - from,
{
    if 0 <= from < upto <= s.len() {
        lemma_inserted_up(s, partners, others, from, upto - 1);
    }
}

/// Rearranges `data` by a merge shuffle on one thread.
pub fn seq_merge_shuffle<R: Rng, T>(rng: &mut R, data: &mut [T])
    ensures
        permutes(old(data)@, final(data)@),
        is_merge_shuffle(old(data)@, final(data)@),
    decreases old(data)@.len(),
{
    let n = data.len();
    if n < FY_BASE_CASE {
        fisher_yates(rng, data);
        return ;
    }
    let mid = n / 2;
    let (left, right) = data.split_at_mut(mid);
    seq_merge_shuffle(rng, left);
    seq_merge_shuffle(rng, right);
    let ghost halves = data@;
    proof {
        lemma_halves_permuted(old(data)@, mid as int, final(left)@, final(right)@);
        assert(halves.subrange(0, mid as int) =~= final(left)@);
        assert(halves.subrange(mid as int, n as int) =~= final(right)@);
    }
    random_merge(rng, data, mid);
    proof {
        assert(is_random_merge(halves, data@, mid as int));
    }
}

/// Two halves that were rearranged each for itself make a rearrangement of
/// the whole.
pub proof fn lemma_halves_permuted<T>(before: Seq<T>, mid: int, left: Seq<T>, right: Seq<T>)
    requires
        0 <= mid <= before.len(),
        permutes(before.subrange(0, mid), left),
        permutes(before.subrange(mid, before.len() as int), right),
    ensures
        permutes(before, left + right),
{
    vstd::seq_lib::lemma_multiset_commutative(left, right);
    vstd::seq_lib::lemma_multiset_commutative(
        before.subrange(0, mid),
        before.subrange(mid, before.len() as int),
    );
    assert(before =~= before.subrange(0, mid) + before.subrange(mid, before.len() as int));
}

/// `rayon::join` runs the two closures, possibly on two threads, and returns
/// when both have returned. Each closure is one call of
/// [`par_merge_shuffle`], on a slice of its own, so the two slices are left as
/// two such calls leave them.
#[verifier::external_body]
fn join_merge_shuffle<R, T>(left_rng: &mut R, left: &mut [T], right_rng: &mut R, right: &mut [T])
    where R: Rng + SeedableRng + Send + Sync, T: Send
    ensures
        permutes(old(left)@, final(left)@),
        permutes(old(right)@, final(right)@),
        is_merge_shuffle(old(left)@, final(left)@),
        is_merge_shuffle(old(right)@, final(right)@),
{
    rayon::join(|| par_merge_shuffle(left_rng, left), || par_merge_shuffle(right_rng, right));
}

/// Rearranges `data` by a merge shuffle whose two halves are shuffled on two
/// threads, the second with a random source that is seeded from `rng`. Where
/// none can be seeded, the halves are shuffled one after the other.
pub fn par_merge_shuffle<R, T>(rng: &mut R, data: &mut [T]) where
    R: Rng + SeedableRng + Send + Sync,
    T: Send,

    ensures
        permutes(old(data)@, final(data)@),
        is_merge_shuffle(old(data)@, final(data)@),
    decreases old(data)@.len(),
{
    let n = data.len();
    if n < FY_BASE_CASE {
        fisher_yates(rng, data);
        return ;
    }
    let mid = n / 2;
    let (left, right) = data.split_at_mut(mid);
    let seeded: Option<R> = seed_new_rng(rng);
    match seeded {
        Some(mut right_rng) => {
            join_merge_shuffle(rng, left, &mut right_rng, right);
        },
        None => {
            par_merge_shuffle(rng, left);
            par_merge_shuffle(rng, right);
        },
    }
    let ghost halves = data@;
    proof {
        lemma_halves_permuted(old(data)@, mid as int, final(left)@, final(right)@);
        assert(halves.subrange(0, mid as int) =~= final(left)@);
        assert(halves.subrange(mid as int, n as int) =~= final(right)@);
    }
    random_merge(rng, data, mid);
    proof {
        assert(is_random_merge(halves, data@, mid as int));
    }
}

/// Merges the part of `data` before position `mid` and the part from `mid`
/// on at random: first by the walk, then by dealing with what the walk left.
pub fn random_merge<R: Rng, T>(rng: &mut R, data: &mut [T], mid: usize)
    requires
        mid <= old(data)@.len(),
    ensures
        permutes(old(data)@, final(data)@),
        is_random_merge(old(data)@, final(data)@, mid as int),
{
    let num_rough_merged = batched_rough_random_merge(rng, data, mid);
    let ghost between = data@;
    insertion_shuffle(rng, data, num_rough_merged);
    proof {
        assert(is_walk(old(data)@, between, 0, mid as int, num_rough_merged as int));
    }
}

/// The number of steps of the walk that one random word decides.
pub const STEPS_PER_WORD: usize = 64;

/// Whether bit `i` of `rand` is set.
pub open spec fn bit_at(rand: u64, i: int) -> bool {
    (rand >> (i as u64)) & 1 == 1
}

/// The `n` lowest bits of `rand` as throws of a coin, the lowest first.
pub open spec fn coins_of(rand: u64, n: int) -> Seq<bool> {
    Seq::new(n as nat, |i: int| bit_at(rand, i))
}

/// `N` steps of the walk from position `first_begin`, with the second half
/// from position `first_mid` on, decided by the `N` lowest bits of `rand`, the
/// lowest first. Both halves must have `N` elements left at least, so that no
/// step can run out of elements. Returns the two positions after the steps.
fn merge_steps<T, const N: usize>(
    data: &mut [T],
    rand: u64,
    first_begin: usize,
    first_mid: usize,
) -> (moved: (usize, usize))
    requires
        N <= 64,
        first_begin + N <= first_mid,
        first_mid + N <= old(data)@.len(),
    ensures
        moved.0 == first_begin + N,
        first_mid <= moved.1 <= first_mid + N,
        permutes(old(data)@, final(data)@),
        walked(old(data)@, coins_of(rand, N as int), first_begin as int, first_mid as int) == (
            final(data)@,
            moved.0 as int,
            moved.1 as int,
        ),
{
    let len = data.len();
    let mut begin = first_begin;
    let mut mid = first_mid;
    let mut rest = rand;
    let mut i: usize = 0;
    let ghost mut coins: Seq<bool> = Seq::empty();
    assert(rand >> 0u64 == rand) by (bit_vector);
    while i < N
        invariant
            len == data@.len(),
            N <= 64,
            i <= N,
            begin + (N - i) <= mid,
            mid + (N - i) <= data@.len(),
            begin == first_begin + i,
            first_mid <= mid <= first_mid + i,
            data@.len() == old(data)@.len(),
            permutes(old(data)@, data@),
            rest == rand >> (i as u64),
            coins.len() == i,
            forall|k: int| 0 <= k < i ==> #[trigger] coins[k] == bit_at(rand, k),
            walked(old(data)@, coins, first_begin as int, first_mid as int) == (
                data@,
                begin as int,
                mid as int,
            ),
        decreases N - i,
    {
        let ghost thrown = coins;
        let step: u64 = i as u64;
        let bit = rest & 1 == 1;
        proof {
            coins = thrown.push(bit);
            assert(coins.drop_last() =~= thrown);
            assert((rand >> step) >> 1 == rand >> ((step + 1) as u64)) by (bit_vector)
                requires
                    step < 64,
            ;
        }
        if bit {
            swap_elements(data, begin, mid);
            mid = mid + 1;
        }
        rest = rest >> 1;
        begin = begin + 1;
        i = i + 1;
    }
    proof {
        assert(coins =~= coins_of(rand, N as int));
    }
    (begin, mid)
}

/// The walk of the merge, which makes the steps in runs of
/// [`STEPS_PER_WORD`] without a look at the ends of the halves for as long
/// as both halves have that many elements left, and goes on step by step
/// after that. Returns the position at which it ended: the elements before
/// that position are merged.
pub fn batched_rough_random_merge<R: Rng, T>(
    rng: &mut R,
    data: &mut [T],
    mid: usize,
) -> (merged: usize)
    requires
        mid <= old(data)@.len(),
    ensures
        merged <= old(data)@.len(),
        permutes(old(data)@, final(data)@),
        is_walk(old(data)@, final(data)@, 0, mid as int, merged as int),
{
    let ghost first_mid = mid;
    let mut begin: usize = 0;
    let mut mid: usize = mid;
    let end = data.len();
    let ghost mut coins: Seq<bool> = Seq::empty();
    while end - mid >= STEPS_PER_WORD && mid - begin >= STEPS_PER_WORD
        invariant
            begin <= mid <= end,
            end == data@.len(),
            end == old(data)@.len(),
            first_mid <= end,
            permutes(old(data)@, data@),
            walked(old(data)@, coins, 0, first_mid as int) == (data@, begin as int, mid as int),
        decreases end - begin,
    {
        let ghost thrown = coins;
        let rand = random_u64(rng);
        let moved = merge_steps::<T, 64>(data, rand, begin, mid);
        proof {
            coins = thrown + coins_of(rand, 64);
            lemma_walked_on(old(data)@, thrown, coins_of(rand, 64), 0, first_mid as int);
        }
        begin = moved.0;
        mid = moved.1;
    }
    let ghost between = data@;
    let merged = walk_from(rng, data, begin, mid);
    proof {
        let rest = choose|rest: Seq<bool>| #[trigger]
            walk_ends(walked(between, rest, begin as int, mid as int), data@, merged as int);
        lemma_walked_on(old(data)@, coins, rest, 0, first_mid as int);
        assert(walk_ends(walked(old(data)@, coins + rest, 0, first_mid as int), data@, merged as int));
    }
    merged
}

/// The walk of the merge, step by step. Returns the position at which it
/// ended: the elements before that position are merged.
pub fn safe_rough_random_merge<R: Rng, T>(
    rng: &mut R,
    data: &mut [T],
    mid: usize,
) -> (merged: usize)
    requires
        mid <= old(data)@.len(),
    ensures
        merged <= old(data)@.len(),
        permutes(old(data)@, final(data)@),
        is_walk(old(data)@, final(data)@, 0, mid as int, merged as int),
{
    walk_from(rng, data, 0, mid)
}

/// The walk of the merge from position `begin` on, step by step, where the
/// elements of the second half that are left lie from position `mid` on. It
/// ends when the coin asks for an element of a half that has none left.
fn walk_from<R: Rng, T>(
    rng: &mut R,
    data: &mut [T],
    begin: usize,
    mid: usize,
) -> (merged: usize)
    requires
        begin <= mid <= old(data)@.len(),
    ensures
        merged <= old(data)@.len(),
        permutes(old(data)@, final(data)@),
        is_walk(old(data)@, final(data)@, begin as int, mid as int, merged as int),
{
    let ghost first_begin = begin;
    let ghost first_mid = mid;
    let mut begin: usize = begin;
    let mut mid: usize = mid;
    let end = data.len();
    let mut rbs = RandomBitsSource::new();
    let ghost mut coins: Seq<bool> = Seq::empty();
    loop
        invariant
            begin <= mid <= end,
            end == data@.len(),
            end == old(data)@.len(),
            rbs.wf(),
            permutes(old(data)@, data@),
            walked(old(data)@, coins, first_begin as int, first_mid as int) == (
                data@,
                begin as int,
                mid as int,
            ),
        ensures
            begin <= end,
            end == data@.len(),
            permutes(old(data)@, data@),
            walk_ends(
                walked(old(data)@, coins, first_begin as int, first_mid as int),
                data@,
                begin as int,
            ),
        decreases end - begin,
    {
        let coin = rbs.gen_bool(rng);
        if coin {
            if mid == end {
                break ;
            }
            swap_elements(data, begin, mid);
            mid = mid + 1;
        } else if begin == mid {
            break ;
        }
        proof {
            let thrown = coins;
            coins = thrown.push(coin);
            assert(coins.drop_last() =~= thrown);
        }
        begin = begin + 1;
    }
    begin
}

/// Deals with the elements from position `num_merged` on, one by one: the
/// element at position `left` changes places with the element at a position
/// drawn uniformly from the positions up to and with `left`.
pub fn insertion_shuffle<R: Rng, T>(rng: &mut R, data: &mut [T], num_merged: usize)
    requires
        num_merged <= old(data)@.len(),
    ensures
        permutes(old(data)@, final(data)@),
        is_insertion_shuffle(old(data)@, final(data)@, num_merged as int),
{
    let end = data.len();
    let ghost mut partners: Seq<int> = Seq::new(end as nat, |k: int| k);
    let mut left: usize = num_merged;
    while left < end
        invariant
            num_merged <= left <= end,
            end == data@.len(),
            end == old(data)@.len(),
            permutes(old(data)@, data@),
            are_partners(partners, end as int),
            data@ == inserted_up(old(data)@, partners, num_merged as int, left as int),
        decreases end - left,
    {
        let partner = gen_index(rng, left + 1);
        proof {
            let drawn = partners.update(left as int, partner as int);
            lemma_inserted_up(old(data)@, drawn, partners, num_merged as int, left as int);
            partners = drawn;
        }
        swap_elements(data, left, partner);
        left = left + 1;
    }
    proof {
        assert(are_partners(partners, old(data)@.len() as int));
    }
}

} // verus!
