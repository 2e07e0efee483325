//! Finite sums of integers.

use crate::util::modular;
use vstd::prelude::*;

verus! {

/// `f(0) + f(1) + ... + f(n - 1)`.
pub open spec fn sum_to(f: spec_fn(int) -> int, n: nat) -> int
    decreases n,
{
    if n == 0 {
        0
    } else {
        sum_to(f, (n - 1) as nat) + f(n - 1)
    }
}

/// The inner product of the first `a.len()` entries of `a` and `b`.
pub open spec fn dot(a: Seq<int>, b: Seq<int>) -> int {
    sum_to(|i: int| a[i] * b[i], a.len())
}

/// Sums with equal terms are equal.
pub proof fn lemma_sum_eq(f: spec_fn(int) -> int, g: spec_fn(int) -> int, n: nat)
    requires
        forall|i: int| 0 <= i < n ==> #[trigger] f(i) == g(i),
    ensures
        sum_to(f, n) == sum_to(g, n),
    decreases n,
{
    if n > 0 {
        lemma_sum_eq(f, g, (n - 1) as nat);
        assert(f(n - 1) == g(n - 1));
    }
}

/// Sums with congruent terms are congruent.
pub proof fn lemma_sum_cong(f: spec_fn(int) -> int, g: spec_fn(int) -> int, n: nat, m: int)
    requires
        m > 0,
        forall|i: int| 0 <= i < n ==> modular::cong(#[trigger] f(i), g(i), m),
    ensures
        modular::cong(sum_to(f, n), sum_to(g, n), m),
    decreases n,
{
    if n > 0 {
        lemma_sum_cong(f, g, (n - 1) as nat, m);
        assert(modular::cong(f(n - 1), g(n - 1), m));
        modular::lemma_cong_add(sum_to(f, (n - 1) as nat), sum_to(g, (n - 1) as nat), f(n - 1), g(n - 1), m);
    }
}

/// A sum of zeros is zero.
pub proof fn lemma_sum_zero(f: spec_fn(int) -> int, n: nat)
    requires
        forall|i: int| 0 <= i < n ==> #[trigger] f(i) == 0,
    ensures
        sum_to(f, n) == 0,
    decreases n,
{
    if n > 0 {
        lemma_sum_zero(f, (n - 1) as nat);
        assert(f(n - 1) == 0);
    }
}

/// Sums add term by term.
pub proof fn lemma_sum_add(
    f: spec_fn(int) -> int,
    g: spec_fn(int) -> int,
    h: spec_fn(int) -> int,
    n: nat,
)
    requires
        forall|i: int| 0 <= i < n ==> #[trigger] h(i) == f(i) + g(i),
    ensures
        sum_to(h, n) == sum_to(f, n) + sum_to(g, n),
    decreases n,
{
    if n > 0 {
        lemma_sum_add(f, g, h, (n - 1) as nat);
        assert(h(n - 1) == f(n - 1) + g(n - 1));
    }
}

/// A constant factor moves out of a sum.
pub proof fn lemma_sum_scale(f: spec_fn(int) -> int, h: spec_fn(int) -> int, c: int, n: nat)
    requires
        forall|i: int| 0 <= i < n ==> #[trigger] h(i) == c * f(i),
    ensures
        sum_to(h, n) == c * sum_to(f, n),
    decreases n,
{
    if n > 0 {
        lemma_sum_scale(f, h, c, (n - 1) as nat);
        assert(h(n - 1) == c * f(n - 1));
        let s = sum_to(f, (n - 1) as nat);
        let t = f(n - 1);
        assert(c * s + c * t == c * (s + t)) by (nonlinear_arith);
    }
}

/// A sum over an even range, taken in pairs of neighbours.
pub proof fn lemma_sum_pairs(f: spec_fn(int) -> int, g: spec_fn(int) -> int, h: nat)
    requires
        forall|b: int| 0 <= b < h ==> #[trigger] g(b) == f(2 * b) + f(2 * b + 1),
    ensures
        sum_to(f, 2 * h) == sum_to(g, h),
    decreases h,
{
    if h > 0 {
        lemma_sum_pairs(f, g, (h - 1) as nat);
        assert(g(h - 1) == f(2 * (h - 1)) + f(2 * (h - 1) + 1));
        reveal_with_fuel(sum_to, 3);
        assert(sum_to(f, 2 * h) == sum_to(f, (2 * h - 1) as nat) + f(2 * h - 1));
        assert(sum_to(f, (2 * h - 1) as nat) == sum_to(f, (2 * h - 2) as nat) + f(2 * h - 2));
        assert((2 * (h - 1)) as nat == (2 * h - 2) as nat);
    }
}

/// A sum over a range, split at `k`.
pub proof fn lemma_sum_split(f: spec_fn(int) -> int, g: spec_fn(int) -> int, k: nat, n: nat)
    requires
        forall|i: int| 0 <= i < n ==> #[trigger] g(i) == f(k + i),
    ensures
        sum_to(f, k + n) == sum_to(f, k) + sum_to(g, n),
    decreases n,
{
    if n > 0 {
        lemma_sum_split(f, g, k, (n - 1) as nat);
        assert(g(n - 1) == f(k + n - 1));
        assert((k + (n - 1)) as nat == (k + n - 1) as nat);
    }
}

/// The order of a double sum does not matter.
pub proof fn lemma_sum_swap(f: spec_fn(int) -> spec_fn(int) -> int, n: nat, k: nat)
    ensures
        sum_to(|i: int| sum_to(|j: int| f(i)(j), k), n) == sum_to(
            |j: int| sum_to(|i: int| f(i)(j), n),
            k,
        ),
    decreases n,
{
    let outer = |i: int| sum_to(|j: int| f(i)(j), k);
    let inner = |j: int| sum_to(|i: int| f(i)(j), n);
    if n == 0 {
        lemma_sum_zero(inner, k);
    } else {
        let p = (n - 1) as nat;
        lemma_sum_swap(f, p, k);
        let inner_p = |j: int| sum_to(|i: int| f(i)(j), p);
        let last = |j: int| f(n - 1)(j);
        assert forall|j: int| 0 <= j < k implies #[trigger] inner(j) == inner_p(j) + last(j) by {
            let col = |i: int| f(i)(j);
            assert(sum_to(col, n) == sum_to(col, p) + col(n - 1));
        }
        lemma_sum_add(inner_p, last, inner, k);
        assert(sum_to(outer, n) == sum_to(outer, p) + outer(n - 1));
        lemma_sum_eq(|j: int| f(n - 1)(j), last, k);
    }
}

/// A sum over a whole range does not change when the range is rotated.
pub proof fn lemma_sum_rotate(f: spec_fn(int) -> int, g: spec_fn(int) -> int, k: nat, n: nat)
    requires
        k < n,
        forall|i: int| 0 <= i < n ==> #[trigger] g(i) == f((i + k) % (n as int)),
    ensures
        sum_to(f, n) == sum_to(g, n),
{
    let r = (n - k) as nat;
    let hi = |i: int| f(k + i);
    let lo = |i: int| g(r + i);
    lemma_sum_split(f, hi, k, r);
    lemma_sum_split(g, lo, r, k);
    assert forall|i: int| 0 <= i < r implies #[trigger] g(i) == hi(i) by {
        modular::lemma_small(i + k, n as int);
    }
    lemma_sum_eq(g, hi, r);
    assert forall|i: int| 0 <= i < k implies #[trigger] lo(i) == f(i) by {
        assert(g(r + i) == f((r + i + k) % (n as int)));
        vstd::arithmetic::div_mod::lemma_mod_add_multiples_vanish(i, n as int);
        modular::lemma_small(i, n as int);
    }
    lemma_sum_eq(lo, f, k);
}

/// Inner products of congruent sequences are congruent.
pub proof fn lemma_dot_cong(a: Seq<int>, b: Seq<int>, c: Seq<int>, d: Seq<int>, m: int)
    requires
        m > 0,
        modular::cong_seq(a, c, m),
        modular::cong_seq(b, d, m),
        a.len() == b.len(),
    ensures
        modular::cong(dot(a, b), dot(c, d), m),
{
    let f = |i: int| a[i] * b[i];
    let g = |i: int| c[i] * d[i];
    assert forall|i: int| 0 <= i < a.len() implies modular::cong(#[trigger] f(i), g(i), m) by {
        assert(modular::cong(a[i], c[i], m));
        assert(modular::cong(b[i], d[i], m));
        modular::lemma_cong_mul(a[i], c[i], b[i], d[i], m);
    }
    lemma_sum_cong(f, g, a.len(), m);
}

/// A sum in which only the entry `k` is not zero.
pub proof fn lemma_sum_single(f: spec_fn(int) -> int, k: int, n: nat)
    requires
        0 <= k < n,
        forall|i: int| 0 <= i < n && i != k ==> #[trigger] f(i) == 0,
    ensures
        sum_to(f, n) == f(k),
    decreases n,
{
    if k == n - 1 {
        lemma_sum_zero(f, (n - 1) as nat);
    } else {
        lemma_sum_single(f, k, (n - 1) as nat);
    }
}

} // verus!
