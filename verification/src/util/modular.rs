//! Congruence of integers, and how it passes through ring operations.

use vstd::arithmetic::div_mod::*;
use vstd::arithmetic::mul::*;
use vstd::prelude::*;

verus! {

/// `a` and `b` leave the same remainder modulo `m`.
pub open spec fn cong(a: int, b: int, m: int) -> bool {
    a % m == b % m
}

/// `a` and `b` have the same length and are congruent entry by entry.
pub open spec fn cong_seq(a: Seq<int>, b: Seq<int>, m: int) -> bool {
    &&& a.len() == b.len()
    &&& forall|i: int| 0 <= i < a.len() ==> cong(#[trigger] a[i], b[i], m)
}

/// The entries of `s`, each reduced modulo `m`.
pub open spec fn reduce_seq(s: Seq<int>, m: int) -> Seq<int> {
    s.map_values(|v: int| v % m)
}

/// Reducing does not change the residue.
pub proof fn lemma_cong_reduced(a: int, m: int)
    requires
        m > 0,
    ensures
        cong(a % m, a, m),
{
    lemma_mod_twice(a, m);
}

/// A value already in range is its own remainder.
pub proof fn lemma_small(a: int, m: int)
    requires
        0 <= a < m,
    ensures
        a % m == a,
{
    lemma_small_mod(a as nat, m as nat);
}

/// Sums of congruent values are congruent.
pub proof fn lemma_cong_add(a: int, b: int, c: int, d: int, m: int)
    requires
        m > 0,
        cong(a, b, m),
        cong(c, d, m),
    ensures
        cong(a + c, b + d, m),
{
    lemma_add_mod_noop(a, c, m);
    lemma_add_mod_noop(b, d, m);
}

/// Differences of congruent values are congruent.
pub proof fn lemma_cong_sub(a: int, b: int, c: int, d: int, m: int)
    requires
        m > 0,
        cong(a, b, m),
        cong(c, d, m),
    ensures
        cong(a - c, b - d, m),
{
    lemma_sub_mod_noop(a, c, m);
    lemma_sub_mod_noop(b, d, m);
}

/// Products of congruent values are congruent.
pub proof fn lemma_cong_mul(a: int, b: int, c: int, d: int, m: int)
    requires
        m > 0,
        cong(a, b, m),
        cong(c, d, m),
    ensures
        cong(a * c, b * d, m),
{
    lemma_mul_mod_noop(a, c, m);
    lemma_mul_mod_noop(b, d, m);
}

} // verus!
