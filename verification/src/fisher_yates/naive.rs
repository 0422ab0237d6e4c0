//! The plain form, one draw and one exchange per position.

use crate::fisher_yates::{are_partners, is_fisher_yates, lemma_swapped_down, swapped_down};
use crate::slices::{permutes, swap_elements};
use crate::uniform_index::gen_index;
use rand::Rng;
use vstd::prelude::*;

verus! {

/// Rearranges `data` into a uniformly random order.
pub fn fisher_yates<R: Rng, T>(rng: &mut R, data: &mut [T])
    ensures
        permutes(old(data)@, final(data)@),
        is_fisher_yates(old(data)@, final(data)@),
{
    let n = data.len();
    let ghost mut partners: Seq<int> = Seq::new(n as nat, |k: int| k);
    let mut i: usize = n;
    while i > 1
        invariant
            n == data@.len(),
            n == old(data)@.len(),
            i <= n,
            n > 0 ==> i >= 1,
            permutes(old(data)@, data@),
            are_partners(partners, n as int),
            data@ == swapped_down(old(data)@, partners, i as int),
        decreases i,
    {
        i = i - 1;
        let j = gen_index(rng, i + 1);
        proof {
            let drawn = partners.update(i as int, j as int);
            lemma_swapped_down(old(data)@, drawn, partners, i + 1);
            partners = drawn;
        }
        swap_elements(data, i, j);
    }
    proof {
        if n == 0 {
            assert(swapped_down(old(data)@, partners, 0) == old(data)@);
            assert(swapped_down(old(data)@, partners, 1) == old(data)@);
        }
        assert(data@ == swapped_down(old(data)@, partners, 1));
        assert(are_partners(partners, old(data)@.len() as int));
    }
}

} // verus!
