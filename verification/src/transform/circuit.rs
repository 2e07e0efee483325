//! What a converted circuit adds to the one that it is made from.

use crate::util::integer;
use vstd::arithmetic::power2::pow2;
use vstd::prelude::*;

verus! {

/// Where each of `2^k` rows goes: it stays where it is.
pub fn row_mapping(k: u32) -> (r: Vec<usize>)
    requires
        pow2(k as nat) <= usize::MAX,
    ensures
        r@ == Seq::new(pow2(k as nat), |i: int| i as usize),
{
    let n = integer::pow2_usize(k as usize);
    let mut r: Vec<usize> = Vec::new();
    let mut i: usize = 0;
    while i < n
        invariant
            i <= n,
            n == pow2(k as nat),
            r@.len() == i,
            forall|j: int| 0 <= j < i ==> #[trigger] r@[j] == j,
        decreases n - i,
    {
        r.push(i);
        i = i + 1;
    }
    assert(r@ =~= Seq::new(pow2(k as nat), |i: int| i as usize));
    r
}

} // verus!
