//! Multilinear extensions over the boolean hypercube, as integer expressions.
//!
//! A function on `{0, 1}^n` is the sequence of its `2^n` values; bit `j` of an
//! index (least significant first) is the value of variable `j`.

use crate::util::modular;
use crate::util::sum;
use vstd::arithmetic::power2;
use vstd::arithmetic::power2::pow2;
use vstd::prelude::*;

verus! {

/// Bit `j` of `i`.
pub open spec fn bit(i: int, j: nat) -> bool {
    (i / pow2(j) as int) % 2 == 1
}

/// The `n` least significant bits of `i`, least significant first.
pub open spec fn bits_of(i: int, n: nat) -> Seq<bool> {
    Seq::new(n, |j: int| bit(i, j as nat))
}

/// What the bit `b` contributes to `eq` at the coordinate `y`: `b * y + (1 - b) * (1 - y)`.
pub open spec fn eq_factor(b: bool, y: int) -> int {
    if b {
        y
    } else {
        1 - y
    }
}

/// `eq(bits, point)`: the product of the factors of all coordinates.
pub open spec fn eq_bits(bits: Seq<bool>, point: Seq<int>) -> int
    decreases bits.len(),
{
    if bits.len() == 0 {
        1
    } else {
        eq_bits(bits.drop_last(), point.drop_last()) * eq_factor(bits.last(), point.last())
    }
}

/// `eq(i, point)`, where `i` stands for its bits.
pub open spec fn eq_at(i: int, point: Seq<int>) -> int
    decreases point.len(),
{
    if point.len() == 0 {
        1
    } else {
        eq_factor(i % 2 == 1, point[0]) * eq_at(i / 2, point.drop_first())
    }
}

/// `eq(x, point)` for all `x` on the hypercube.
pub open spec fn tensor(point: Seq<int>) -> Seq<int> {
    Seq::new(pow2(point.len()), |i: int| eq_at(i, point))
}

/// The value at `point` of the multilinear extension of `evals`.
pub open spec fn mle(evals: Seq<int>, point: Seq<int>) -> int {
    sum::sum_to(|i: int| evals[i] * eq_at(i, point), evals.len())
}

/// `evals` with its first variable set to `x`.
pub open spec fn fold(evals: Seq<int>, x: int) -> Seq<int> {
    Seq::new(
        (evals.len() / 2) as nat,
        |b: int| evals[2 * b] + x * (evals[2 * b + 1] - evals[2 * b]),
    )
}

/// `evals` with its last variable set to `x`.
pub open spec fn fold_last(evals: Seq<int>, x: int) -> Seq<int> {
    let h = (evals.len() / 2) as nat;
    Seq::new(h, |b: int| evals[b] + x * (evals[b + h] - evals[b]))
}

/// The function `x -> f((x + k) mod n)` on the indices below `n`.
pub open spec fn shift(f: Seq<int>, k: int) -> Seq<int> {
    Seq::new(f.len(), |x: int| f[(x + k) % (f.len() as int)])
}

/// The weights `i -> eq((i - k) mod 2^n, r)`.
pub open spec fn weights(k: int, r: Seq<int>) -> Seq<int> {
    let n = pow2(r.len());
    Seq::new(n, |i: int| eq_at((i - k) % (n as int), r))
}

/// One more variable doubles the hypercube.
pub proof fn lemma_pow2_step(n: nat)
    ensures
        pow2(n + 1) == 2 * pow2(n),
        pow2(n) > 0,
        pow2(0) == 1,
{
    power2::lemma_pow2_pos(n);
    power2::lemma_pow2_unfold(n + 1);
    power2::lemma2_to64();
}

/// Bits of the half of a number.
proof fn lemma_bit_half(i: int, j: nat)
    requires
        i >= 0,
    ensures
        bit(i / 2, j) == bit(i, j + 1),
        bit(i, 0) == (i % 2 == 1),
{
    lemma_pow2_step(j);
    vstd::arithmetic::div_mod::lemma_div_denominator(i, 2, pow2(j) as int);
}

/// `eq_bits`, unfolded at its first coordinate.
proof fn lemma_eq_bits_first(bits: Seq<bool>, point: Seq<int>)
    requires
        bits.len() == point.len(),
        bits.len() > 0,
    ensures
        eq_bits(bits, point) == eq_factor(bits[0], point[0]) * eq_bits(
            bits.drop_first(),
            point.drop_first(),
        ),
    decreases bits.len(),
{
    if bits.len() == 1 {
        reveal_with_fuel(eq_bits, 2);
    } else {
        lemma_eq_bits_first(bits.drop_last(), point.drop_last());
        assert(bits.drop_last().drop_first() =~= bits.drop_first().drop_last());
        assert(point.drop_last().drop_first() =~= point.drop_first().drop_last());
        let a = eq_factor(bits[0], point[0]);
        let b = eq_bits(bits.drop_first().drop_last(), point.drop_first().drop_last());
        let c = eq_factor(bits.last(), point.last());
        assert((a * b) * c == a * (b * c)) by (nonlinear_arith);
    }
}

/// The two ways to write `eq` at an index agree.
pub proof fn lemma_eq_bits_of(i: int, point: Seq<int>)
    requires
        i >= 0,
    ensures
        eq_bits(bits_of(i, point.len()), point) == eq_at(i, point),
    decreases point.len(),
{
    let bits = bits_of(i, point.len());
    if point.len() > 0 {
        lemma_eq_bits_first(bits, point);
        lemma_bit_half(i, 0);
        assert(bits.drop_first() =~= bits_of(i / 2, point.drop_first().len())) by {
            assert forall|j: int| 0 <= j < point.len() - 1 implies bits.drop_first()[j] == bit(
                i / 2,
                j as nat,
            ) by {
                lemma_bit_half(i, j as nat);
            }
        }
        lemma_eq_bits_of(i / 2, point.drop_first());
    }
}

/// `eq` with one more, most significant, coordinate.
pub proof fn lemma_eq_at_push(i: int, point: Seq<int>, x: int)
    requires
        0 <= i < pow2(point.len()),
    ensures
        eq_at(i, point.push(x)) == eq_at(i, point) * (1 - x),
        eq_at(i + pow2(point.len()), point.push(x)) == eq_at(i, point) * x,
    decreases point.len(),
{
    let n = point.len();
    let p = point.push(x);
    let big = pow2(n) as int;
    lemma_pow2_step(n);
    if n == 0 {
        let none = Seq::<int>::empty();
        assert(p.drop_first() =~= none);
        assert(point =~= none);
        assert(eq_at(0, none) == 1);
        assert(eq_at(0, p) == (1 - x) * eq_at(0, none));
        assert(eq_at(1, p) == x * eq_at(0, none));
        assert(i == 0 && big == 1);
    } else {
        lemma_pow2_step((n - 1) as nat);
        let rest = point.drop_first();
        assert(p.drop_first() =~= rest.push(x));
        lemma_eq_at_push(i / 2, rest, x);
        let half = pow2((n - 1) as nat) as int;
        assert((i + big) / 2 == i / 2 + half && (i + big) % 2 == i % 2);
        let a = eq_factor(i % 2 == 1, point[0]);
        let b = eq_at(i / 2, rest);
        assert(p[0] == point[0]);
        assert(eq_at(i, p) == a * eq_at(i / 2, rest.push(x)));
        assert(eq_at(i + big, p) == a * eq_at(i / 2 + half, rest.push(x)));
        assert(eq_at(i, point) == a * b);
        assert(a * (b * (1 - x)) == (a * b) * (1 - x)) by (nonlinear_arith);
        assert(a * (b * x) == (a * b) * x) by (nonlinear_arith);
    }
}

/// Setting the first variable and then evaluating the rest evaluates the whole.
pub proof fn lemma_mle_fold(evals: Seq<int>, point: Seq<int>)
    requires
        point.len() > 0,
        evals.len() % 2 == 0,
    ensures
        mle(evals, point) == mle(fold(evals, point[0]), point.drop_first()),
{
    let h = (evals.len() / 2) as nat;
    let x = point[0];
    let rest = point.drop_first();
    let f = |i: int| evals[i] * eq_at(i, point);
    let folded = fold(evals, x);
    let g = |b: int| folded[b] * eq_at(b, rest);
    assert forall|b: int| 0 <= b < h implies #[trigger] g(b) == f(2 * b) + f(2 * b + 1) by {
        let e = eq_at(b, rest);
        let lo = evals[2 * b];
        let hi = evals[2 * b + 1];
        assert((2 * b) % 2 == 0 && (2 * b) / 2 == b);
        assert((2 * b + 1) % 2 == 1 && (2 * b + 1) / 2 == b);
        assert(eq_at(2 * b, point) == (1 - x) * e);
        assert(eq_at(2 * b + 1, point) == x * e);
        assert((lo + x * (hi - lo)) * e == lo * ((1 - x) * e) + hi * (x * e)) by (nonlinear_arith);
    }
    lemma_sum_pairs_len(evals.len(), h);
    sum::lemma_sum_pairs(f, g, h);
}

proof fn lemma_sum_pairs_len(n: nat, h: nat)
    requires
        n % 2 == 0,
        h == n / 2,
    ensures
        2 * h == n,
{
}

/// Setting the last variable and then evaluating the rest evaluates the whole.
pub proof fn lemma_mle_fold_last(evals: Seq<int>, point: Seq<int>)
    requires
        point.len() > 0,
        evals.len() == pow2(point.len()),
    ensures
        mle(evals, point) == mle(fold_last(evals, point.last()), point.drop_last()),
{
    let n = (point.len() - 1) as nat;
    lemma_pow2_step(n);
    let h = pow2(n);
    let x = point.last();
    let rest = point.drop_last();
    assert(point =~= rest.push(x));
    let f = |i: int| evals[i] * eq_at(i, point);
    let hi = |i: int| f(h + i);
    sum::lemma_sum_split(f, hi, h, h);
    let folded = fold_last(evals, x);
    let g = |b: int| folded[b] * eq_at(b, rest);
    assert forall|b: int| 0 <= b < h implies #[trigger] g(b) == f(b) + hi(b) by {
        lemma_eq_at_push(b, rest, x);
        let e = eq_at(b, rest);
        let l = evals[b];
        let u = evals[b + h];
        assert((l + x * (u - l)) * e == l * (e * (1 - x)) + u * (e * x)) by (nonlinear_arith);
    }
    sum::lemma_sum_add(f, hi, g, h);
    assert(evals.len() == h + h);
}

/// The extension of a single value is that value.
pub proof fn lemma_mle_single(evals: Seq<int>, point: Seq<int>)
    requires
        evals.len() == 1,
        point.len() == 0,
    ensures
        mle(evals, point) == evals[0],
{
    reveal_with_fuel(sum::sum_to, 2);
}

/// `eq` of congruent points is congruent.
pub proof fn lemma_eq_at_cong(i: int, p: Seq<int>, q: Seq<int>, m: int)
    requires
        m > 0,
        modular::cong_seq(p, q, m),
    ensures
        modular::cong(eq_at(i, p), eq_at(i, q), m),
    decreases p.len(),
{
    if p.len() > 0 {
        assert(modular::cong(p[0], q[0], m));
        modular::lemma_cong_sub(1, 1, p[0], q[0], m);
        let a = eq_factor(i % 2 == 1, p[0]);
        let b = eq_factor(i % 2 == 1, q[0]);
        assert(modular::cong(a, b, m));
        assert(modular::cong_seq(p.drop_first(), q.drop_first(), m)) by {
            assert forall|j: int| 0 <= j < p.len() - 1 implies modular::cong(
                #[trigger] p.drop_first()[j],
                q.drop_first()[j],
                m,
            ) by {
                assert(modular::cong(p[j + 1], q[j + 1], m));
            }
        }
        lemma_eq_at_cong(i / 2, p.drop_first(), q.drop_first(), m);
        modular::lemma_cong_mul(a, b, eq_at(i / 2, p.drop_first()), eq_at(i / 2, q.drop_first()), m);
    }
}

/// Extensions of congruent values at congruent points are congruent.
pub proof fn lemma_mle_cong(a: Seq<int>, b: Seq<int>, p: Seq<int>, q: Seq<int>, m: int)
    requires
        m > 0,
        modular::cong_seq(a, b, m),
        modular::cong_seq(p, q, m),
    ensures
        modular::cong(mle(a, p), mle(b, q), m),
{
    let f = |i: int| a[i] * eq_at(i, p);
    let g = |i: int| b[i] * eq_at(i, q);
    assert forall|i: int| 0 <= i < a.len() implies modular::cong(#[trigger] f(i), g(i), m) by {
        assert(modular::cong(a[i], b[i], m));
        lemma_eq_at_cong(i, p, q, m);
        modular::lemma_cong_mul(a[i], b[i], eq_at(i, p), eq_at(i, q), m);
    }
    sum::lemma_sum_cong(f, g, a.len(), m);
}

/// The extension of the shifted function at `r` is the inner product of the
/// function with the weights: `G(r) = sum over i of f(i) * eq((i - k) mod 2^n, r)`.
pub proof fn law_shift_is_weighted_sum(f: Seq<int>, k: int, r: Seq<int>)
    requires
        f.len() == pow2(r.len()),
    ensures
        mle(shift(f, k), r) == sum::dot(f, weights(k, r)),
{
    let n = pow2(r.len());
    lemma_pow2_step(r.len());
    let ni = n as int;
    let kk = (k % ni) as nat;
    let w = weights(k, r);
    let prod = |i: int| f[i] * w[i];
    let g = |x: int| shift(f, k)[x] * eq_at(x, r);
    assert forall|x: int| 0 <= x < n implies #[trigger] g(x) == prod((x + kk) % ni) by {
        let i = (x + kk) % ni;
        assert(0 <= i < n);
        vstd::arithmetic::div_mod::lemma_add_mod_noop(x, k, ni);
        modular::lemma_small(x, ni);
        assert(i == (x + k) % ni);
        vstd::arithmetic::div_mod::lemma_sub_mod_noop(x + k, k, ni);
        vstd::arithmetic::div_mod::lemma_sub_mod_noop(i, k, ni);
        modular::lemma_cong_reduced(x + k, ni);
        assert((i - k) % ni == x);
    }
    sum::lemma_sum_rotate(prod, g, kk, n);
}

/// Shifting by zero changes nothing.
pub proof fn law_shift_by_zero(f: Seq<int>)
    ensures
        shift(f, 0) == f,
{
    assert forall|x: int| 0 <= x < f.len() implies shift(f, 0)[x] == f[x] by {
        modular::lemma_small(x, f.len() as int);
    }
    assert(shift(f, 0) =~= f);
}

/// Shifting by the whole length changes nothing, and so on for every further turn.
pub proof fn law_shift_is_cyclic(f: Seq<int>, k: int)
    ensures
        shift(f, k + f.len()) == shift(f, k),
{
    assert forall|x: int| 0 <= x < f.len() implies shift(f, k + f.len())[x] == shift(f, k)[x] by {
        vstd::arithmetic::div_mod::lemma_mod_add_multiples_vanish(x + k, f.len() as int);
    }
    assert(shift(f, k + f.len()) =~= shift(f, k));
}

/// Two shifts make one.
pub proof fn law_shift_composes(f: Seq<int>, j: int, k: int)
    ensures
        shift(shift(f, j), k) == shift(f, j + k),
{
    let n = f.len() as int;
    assert forall|x: int| 0 <= x < f.len() implies shift(shift(f, j), k)[x] == shift(f, j + k)[x] by {
        let y = (x + k) % n;
        vstd::arithmetic::div_mod::lemma_add_mod_noop(x + k, j, n);
        vstd::arithmetic::div_mod::lemma_add_mod_noop(y, j, n);
        modular::lemma_cong_reduced(x + k, n);
    }
    assert(shift(shift(f, j), k) =~= shift(f, j + k));
}

/// The corner of the hypercube that `i` stands for: its bits, as zeros and ones.
pub open spec fn corner(i: int, n: nat) -> Seq<int> {
    Seq::new(
        n,
        |j: int|
            if bit(i, j as nat) {
                1
            } else {
                0
            },
    )
}

/// On the corners of the hypercube, `eq` is one if its arguments are the same, and zero if
/// they are not.
pub proof fn law_eq_on_corners(i: int, j: int, n: nat)
    requires
        0 <= i < pow2(n),
        0 <= j < pow2(n),
    ensures
        eq_at(i, corner(j, n)) == if i == j {
            1int
        } else {
            0
        },
    decreases n,
{
    if n == 0 {
        lemma_pow2_step(0);
    } else {
        let h = (n - 1) as nat;
        lemma_pow2_step(h);
        lemma_pow2_step(0);
        law_eq_on_corners(i / 2, j / 2, h);
        let c = corner(j, n);
        assert(c.drop_first() =~= corner(j / 2, h)) by {
            assert forall|t: int| 0 <= t < h implies c.drop_first()[t] == corner(j / 2, h)[t] by {
                lemma_bit_half(j, t as nat);
            }
        }
        assert(bit(j, 0) == (j % 2 == 1)) by {
            assert(j / 1 == j);
        }
        let e = eq_at(i / 2, corner(j / 2, h));
        assert(0 * e == 0 && 1 * e == e);
    }
}

/// A multilinear extension takes the function's own values on the corners.
pub proof fn law_extension_extends(evals: Seq<int>, i: int, n: nat)
    requires
        evals.len() == pow2(n),
        0 <= i < pow2(n),
    ensures
        mle(evals, corner(i, n)) == evals[i],
{
    let f = |j: int| evals[j] * eq_at(j, corner(i, n));
    assert forall|j: int| 0 <= j < evals.len() implies #[trigger] f(j) == (if j == i {
        evals[i]
    } else {
        0
    }) by {
        law_eq_on_corners(j, i, n);
        let e = evals[j];
        assert(e * 0 == 0 && e * 1 == e);
    }
    sum::lemma_sum_single(f, i, evals.len());
}

/// On the corners, the extension of the weights is the weight there.
pub proof fn law_weight_on_corners(k: int, r: Seq<int>, i: int)
    requires
        0 <= i < pow2(r.len()),
    ensures
        mle(weights(k, r), corner(i, r.len())) == eq_at((i - k) % (pow2(r.len()) as int), r),
{
    law_extension_extends(weights(k, r), i, r.len());
}

/// The shifted function takes at `x` the value that the function takes `k` places on, where
/// the end is followed by the beginning.
pub proof fn law_shift_moves_values(f: Seq<int>, k: int, x: int)
    requires
        0 <= x < f.len(),
    ensures
        shift(f, k).len() == f.len(),
        0 <= k && x + k < f.len() ==> shift(f, k)[x] == f[x + k],
        0 <= k && f.len() <= x + k < 2 * f.len() ==> shift(f, k)[x] == f[x + k - f.len()],
{
    let n = f.len() as int;
    if 0 <= k && x + k < n {
        modular::lemma_small(x + k, n);
    }
    if 0 <= k && n <= x + k < 2 * n {
        vstd::arithmetic::div_mod::lemma_mod_sub_multiples_vanish(x + k, n);
        modular::lemma_small(x + k - n, n);
    }
}

/// `eq` is affine in each coordinate of its point.
pub proof fn law_eq_is_affine(i: int, point: Seq<int>, j: int, a: int)
    requires
        0 <= j < point.len(),
    ensures
        eq_at(i, point.update(j, a)) == (1 - a) * eq_at(i, point.update(j, 0)) + a * eq_at(
            i,
            point.update(j, 1),
        ),
    decreases point.len(),
{
    let p = point.update(j, a);
    let p0 = point.update(j, 0);
    let p1 = point.update(j, 1);
    if j == 0 {
        let rest = point.drop_first();
        assert(p.drop_first() =~= rest);
        assert(p0.drop_first() =~= rest);
        assert(p1.drop_first() =~= rest);
        let e = eq_at(i / 2, rest);
        if i % 2 == 1 {
            assert(a * e == (1 - a) * (0 * e) + a * (1 * e)) by (nonlinear_arith);
        } else {
            assert((1 - a) * e == (1 - a) * (1 * e) + a * (0 * e)) by (nonlinear_arith);
        }
    } else {
        let rest = point.drop_first();
        assert(p.drop_first() =~= rest.update(j - 1, a));
        assert(p0.drop_first() =~= rest.update(j - 1, 0));
        assert(p1.drop_first() =~= rest.update(j - 1, 1));
        law_eq_is_affine(i / 2, rest, j - 1, a);
        let f = eq_factor(i % 2 == 1, point[0]);
        let e0 = eq_at(i / 2, rest.update(j - 1, 0));
        let e1 = eq_at(i / 2, rest.update(j - 1, 1));
        assert(f * ((1 - a) * e0 + a * e1) == (1 - a) * (f * e0) + a * (f * e1))
            by (nonlinear_arith);
    }
}

/// A multilinear extension is affine in each coordinate of its point. Together with its
/// values on the corners, this determines it.
pub proof fn law_extension_is_multilinear(evals: Seq<int>, point: Seq<int>, j: int, a: int)
    requires
        0 <= j < point.len(),
    ensures
        mle(evals, point.update(j, a)) == (1 - a) * mle(evals, point.update(j, 0)) + a * mle(
            evals,
            point.update(j, 1),
        ),
{
    let n = evals.len();
    let f = |i: int| evals[i] * eq_at(i, point.update(j, a));
    let f0 = |i: int| evals[i] * eq_at(i, point.update(j, 0));
    let f1 = |i: int| evals[i] * eq_at(i, point.update(j, 1));
    let g0 = |i: int| (1 - a) * f0(i);
    let g1 = |i: int| a * f1(i);
    assert forall|i: int| 0 <= i < n implies #[trigger] f(i) == g0(i) + g1(i) by {
        law_eq_is_affine(i, point, j, a);
        let v = evals[i];
        let e0 = eq_at(i, point.update(j, 0));
        let e1 = eq_at(i, point.update(j, 1));
        assert(v * ((1 - a) * e0 + a * e1) == (1 - a) * (v * e0) + a * (v * e1))
            by (nonlinear_arith);
    }
    sum::lemma_sum_add(g0, g1, f, n);
    sum::lemma_sum_scale(f0, g0, 1 - a, n);
    sum::lemma_sum_scale(f1, g1, a, n);
}

} // verus!
