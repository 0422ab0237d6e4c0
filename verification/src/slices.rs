//! Exchanging elements of a slice, and what that does to its contents.

use vstd::prelude::*;

verus! {

/// `<[T]>::swap` exchanges the elements at two positions of a slice and leaves
/// every other element where it is. It panics on a position outside the slice,
/// so both must lie inside it.
pub assume_specification<Elem>[ <[Elem]>::swap ](slice: &mut [Elem], a: usize, b: usize)
    requires
        a < old(slice)@.len(),
        b < old(slice)@.len(),
    ensures
        final(slice)@ == swapped(old(slice)@, a as int, b as int),
;

/// `s` with the elements at positions `a` and `b` exchanged.
pub open spec fn swapped<T>(s: Seq<T>, a: int, b: int) -> Seq<T> {
    s.update(a, s[b]).update(b, s[a])
}

/// `s` with the `n` elements from position `a` on exchanged, one for one and
/// in order, with the `n` elements from position `b` on.
pub open spec fn ranges_swapped<T>(s: Seq<T>, a: int, b: int, n: int) -> Seq<T> {
    Seq::new(
        s.len(),
        |i: int|
            if a <= i < a + n {
                s[i - a + b]
            } else if b <= i < b + n {
                s[i - b + a]
            } else {
                s[i]
            },
    )
}

/// `after` holds the elements of `before`, each as often as `before` does, in
/// some order: nothing was added, removed or changed.
pub open spec fn permutes<T>(before: Seq<T>, after: Seq<T>) -> bool {
    &&& after.len() == before.len()
    &&& after.to_multiset() == before.to_multiset()
}

/// Two ranges of `n` positions, from `a` and from `b`, that lie inside a
/// sequence of length `len` and share no position.
pub open spec fn disjoint_ranges(len: int, a: int, b: int, n: int) -> bool {
    &&& 0 <= n
    &&& 0 <= a
    &&& 0 <= b
    &&& a + n <= len
    &&& b + n <= len
    &&& (a + n <= b || b + n <= a)
}

/// Exchanging two elements keeps the multiset of elements.
pub proof fn lemma_swapped_multiset<T>(s: Seq<T>, a: int, b: int)
    requires
        0 <= a < s.len(),
        0 <= b < s.len(),
    ensures
        swapped(s, a, b).to_multiset() == s.to_multiset(),
        swapped(s, a, b).len() == s.len(),
{
    broadcast use vstd::seq_lib::group_to_multiset_ensures;
    broadcast use vstd::multiset::group_multiset_axioms;

    let s1 = s.update(a, s[b]);
    assert(s1.to_multiset() == s.to_multiset().insert(s[b]).remove(s[a]));
    assert(s1.update(b, s[a]).to_multiset() == s1.to_multiset().insert(s[a]).remove(s1[b]));
    assert(swapped(s, a, b).to_multiset() =~= s.to_multiset());
}

/// Exchanging one more pair of positions extends an exchange of two ranges by
/// one.
pub proof fn lemma_ranges_swapped_step<T>(s: Seq<T>, a: int, b: int, n: int)
    requires
        disjoint_ranges(s.len() as int, a, b, n + 1),
        0 <= n,
    ensures
        ranges_swapped(s, a, b, n + 1) == swapped(ranges_swapped(s, a, b, n), a + n, b + n),
{
    assert(ranges_swapped(s, a, b, n + 1) =~= swapped(ranges_swapped(s, a, b, n), a + n, b + n));
}

/// Exchanging two disjoint ranges keeps the multiset of elements.
pub proof fn lemma_ranges_swapped_multiset<T>(s: Seq<T>, a: int, b: int, n: int)
    requires
        disjoint_ranges(s.len() as int, a, b, n),
    ensures
        ranges_swapped(s, a, b, n).to_multiset() == s.to_multiset(),
        ranges_swapped(s, a, b, n).len() == s.len(),
    decreases n,
{
    if n == 0 {
        assert(ranges_swapped(s, a, b, 0) =~= s);
    } else {
        lemma_ranges_swapped_multiset(s, a, b, n - 1);
        lemma_ranges_swapped_step(s, a, b, n - 1);
        lemma_swapped_multiset(ranges_swapped(s, a, b, n - 1), a + n - 1, b + n - 1);
    }
}

/// Exchanging the same two ranges twice gives back the sequence.
pub proof fn lemma_ranges_swapped_twice<T>(s: Seq<T>, a: int, b: int, n: int)
    requires
        disjoint_ranges(s.len() as int, a, b, n),
    ensures
        ranges_swapped(ranges_swapped(s, a, b, n), a, b, n) == s,
{
    assert(ranges_swapped(ranges_swapped(s, a, b, n), a, b, n) =~= s);
}

/// Exchanges the elements at positions `a` and `b`.
pub fn swap_elements<T>(data: &mut [T], a: usize, b: usize)
    requires
        a < old(data)@.len(),
        b < old(data)@.len(),
    ensures
        final(data)@ == swapped(old(data)@, a as int, b as int),
        permutes(old(data)@, final(data)@),
{
    data.swap(a, b);
    proof {
        lemma_swapped_multiset(old(data)@, a as int, b as int);
    }
}

/// Exchanges the `n` elements from position `a` on with the `n` elements from
/// position `b` on. The two ranges must lie inside the slice and apart.
pub fn swap_ranges<T>(data: &mut [T], a: usize, b: usize, n: usize)
    requires
        disjoint_ranges(old(data)@.len() as int, a as int, b as int, n as int),
    ensures
        final(data)@ == ranges_swapped(old(data)@, a as int, b as int, n as int),
        permutes(old(data)@, final(data)@),
{
    let len = data.len();
    let mut k: usize = 0;
    proof {
        assert(ranges_swapped(old(data)@, a as int, b as int, 0) =~= old(data)@);
    }
    while k < n
        invariant
            k <= n,
            len == old(data)@.len(),
            disjoint_ranges(old(data)@.len() as int, a as int, b as int, n as int),
            data@.len() == old(data)@.len(),
            data@ == ranges_swapped(old(data)@, a as int, b as int, k as int),
        decreases n - k,
    {
        proof {
            lemma_ranges_swapped_step(old(data)@, a as int, b as int, k as int);
        }
        data.swap(a + k, b + k);
        k = k + 1;
    }
    proof {
        lemma_ranges_swapped_multiset(old(data)@, a as int, b as int, n as int);
    }
}

/// The part of `data` from `start` up to `end`, to be changed in place. What
/// lies before and behind it stays as it is.
pub fn subslice_mut<T>(data: &mut [T], start: usize, end: usize) -> (part: &mut [T])
    requires
        start <= end <= old(data)@.len(),
    ensures
        part@ == old(data)@.subrange(start as int, end as int),
        final(data)@ == old(data)@.subrange(0, start as int) + final(part)@ + old(data)@.subrange(
            end as int,
            old(data)@.len() as int,
        ),
{
    let (_, rest) = data.split_at_mut(start);
    let (part, _) = rest.split_at_mut(end - start);
    part
}

/// Replacing a part of a sequence by a rearrangement of the same length keeps
/// the multiset of the whole.
pub proof fn lemma_replace_part_multiset<T>(s: Seq<T>, start: int, end: int, part: Seq<T>)
    requires
        0 <= start <= end <= s.len(),
        permutes(s.subrange(start, end), part),
    ensures
        permutes(s, s.subrange(0, start) + part + s.subrange(end, s.len() as int)),
{
    let head = s.subrange(0, start);
    let mid = s.subrange(start, end);
    let tail = s.subrange(end, s.len() as int);
    assert(s =~= head + mid + tail);
    vstd::seq_lib::lemma_multiset_commutative(head + mid, tail);
    vstd::seq_lib::lemma_multiset_commutative(head, mid);
    vstd::seq_lib::lemma_multiset_commutative(head + part, tail);
    vstd::seq_lib::lemma_multiset_commutative(head, part);
    mid.to_multiset_ensures();
    part.to_multiset_ensures();
}

} // verus!
