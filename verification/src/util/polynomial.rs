//! Polynomials in one variable, by their coefficients.

use crate::util::modular;
use crate::util::sum;
use vstd::arithmetic::power;
use vstd::arithmetic::power::pow;
use vstd::prelude::*;

verus! {

/// The value at `x` of the polynomial with the given coefficients, constant first.
pub open spec fn polynomial_at(coeffs: Seq<int>, x: int) -> int {
    sum::sum_to(|k: int| pow(x, k as nat) * coeffs[k], coeffs.len())
}

/// The same value, by Horner's rule.
pub open spec fn horner(coeffs: Seq<int>, x: int) -> int
    decreases coeffs.len(),
{
    if coeffs.len() == 0 {
        0
    } else {
        coeffs[0] + x * horner(coeffs.drop_first(), x)
    }
}

/// Horner's rule.
pub proof fn lemma_horner(coeffs: Seq<int>, x: int)
    ensures
        polynomial_at(coeffs, x) == horner(coeffs, x),
    decreases coeffs.len(),
{
    let n = coeffs.len();
    if n > 0 {
        let rest = coeffs.drop_first();
        let k = (n - 1) as nat;
        lemma_horner(rest, x);
        let f = |j: int| pow(x, j as nat) * coeffs[j];
        let g = |j: int| f(j + 1);
        let h = |j: int| pow(x, j as nat) * rest[j];
        sum::lemma_sum_split(f, g, 1, k);
        assert forall|j: int| 0 <= j < k implies #[trigger] g(j) == x * h(j) by {
            reveal_with_fuel(pow, 2);
            let p = pow(x, j as nat);
            let c = rest[j];
            assert(pow(x, (j + 1) as nat) == x * p);
            assert((x * p) * c == x * (p * c)) by (nonlinear_arith);
        }
        sum::lemma_sum_scale(h, g, x, k);
        power::lemma_pow0(x);
        assert(sum::sum_to(f, 1) == f(0)) by {
            reveal_with_fuel(sum::sum_to, 2);
        }
        assert(f(0) == coeffs[0]);
    }
}

/// A product that is a multiple of `m` has a factor that is one, as with a prime.
pub open spec fn no_zero_divisors(m: int) -> bool {
    forall|a: int, b: int| #[trigger] ((a * b) % m) == 0 ==> a % m == 0 || b % m == 0
}

/// What is left of a polynomial when `x - r` is divided out.
pub open spec fn quotient(coeffs: Seq<int>, r: int) -> Seq<int>
    decreases coeffs.len(),
{
    if coeffs.len() <= 1 {
        Seq::empty()
    } else {
        seq![horner(coeffs.drop_first(), r)] + quotient(coeffs.drop_first(), r)
    }
}

/// A polynomial is its value at `r`, plus `x - r` times the quotient.
pub proof fn lemma_quotient(coeffs: Seq<int>, r: int, x: int)
    ensures
        quotient(coeffs, r).len() == if coeffs.len() == 0 {
            0
        } else {
            coeffs.len() - 1
        },
        horner(coeffs, x) == horner(coeffs, r) + (x - r) * horner(quotient(coeffs, r), x),
    decreases coeffs.len(),
{
    if coeffs.len() > 0 {
        let rest = coeffs.drop_first();
        lemma_quotient(rest, r, x);
        let q = horner(quotient(rest, r), x);
        let e = horner(rest, r);
        let a = coeffs[0];
        if coeffs.len() > 1 {
            assert(quotient(coeffs, r).drop_first() =~= quotient(rest, r));
            assert(a + x * (e + (x - r) * q) == (a + r * e) + (x - r) * (e + x * q))
                by (nonlinear_arith);
        } else {
            assert(horner(rest, x) == 0 && horner(rest, r) == 0);
            assert(x * 0 == 0 && r * 0 == 0 && (x - r) * 0 == 0) by (nonlinear_arith);
        }
    } else {
        assert((x - r) * 0 == 0) by (nonlinear_arith);
    }
}

/// If the value at `r` and the quotient vanish, so do the coefficients.
pub proof fn lemma_vanishes(coeffs: Seq<int>, r: int, m: int)
    requires
        m > 0,
        horner(coeffs, r) % m == 0,
        forall|k: int|
            0 <= k < quotient(coeffs, r).len() ==> (#[trigger] quotient(coeffs, r)[k]) % m == 0,
    ensures
        forall|k: int| 0 <= k < coeffs.len() ==> (#[trigger] coeffs[k]) % m == 0,
    decreases coeffs.len(),
{
    if coeffs.len() > 0 {
        let rest = coeffs.drop_first();
        let e = horner(rest, r);
        lemma_quotient(coeffs, r, r);
        lemma_quotient(rest, r, r);
        modular::lemma_small(0, m);
        let q = quotient(coeffs, r);
        if coeffs.len() > 1 {
            assert(q[0] == e);
            assert(q.drop_first() =~= quotient(rest, r));
            assert forall|k: int| 0 <= k < quotient(rest, r).len() implies (
            #[trigger] quotient(rest, r)[k]) % m == 0 by {
                assert(q[k + 1] == quotient(rest, r)[k]);
            }
            lemma_vanishes(rest, r, m);
        }
        assert(e % m == 0);
        modular::lemma_cong_mul(r, r, e, 0, m);
        assert(r * 0 == 0) by (nonlinear_arith);
        modular::lemma_cong_sub(horner(coeffs, r), 0, r * e, 0, m);
        assert(horner(coeffs, r) - r * e == coeffs[0]);
        assert forall|k: int| 0 <= k < coeffs.len() implies (#[trigger] coeffs[k]) % m == 0 by {
            if k > 0 {
                assert(coeffs[k] == rest[k - 1]);
            }
        }
    }
}

/// A polynomial with as many different roots as coefficients vanishes.
pub proof fn law_roots(coeffs: Seq<int>, xs: Seq<int>, m: int)
    requires
        m > 0,
        no_zero_divisors(m),
        xs.len() >= coeffs.len(),
        forall|i: int, j: int|
            0 <= i < j < xs.len() ==> #[trigger] xs[i] % m != #[trigger] xs[j] % m,
        forall|i: int| 0 <= i < xs.len() ==> horner(coeffs, #[trigger] xs[i]) % m == 0,
    ensures
        forall|k: int| 0 <= k < coeffs.len() ==> (#[trigger] coeffs[k]) % m == 0,
    decreases coeffs.len(),
{
    if coeffs.len() > 0 {
        let r = xs[0];
        let more = xs.drop_first();
        let q = quotient(coeffs, r);
        lemma_quotient(coeffs, r, r);
        modular::lemma_small(0, m);
        assert forall|i: int, j: int| 0 <= i < j < more.len() implies #[trigger] more[i] % m
            != #[trigger] more[j] % m by {
            assert(xs[i + 1] % m != xs[j + 1] % m);
        }
        assert forall|i: int| 0 <= i < more.len() implies horner(q, #[trigger] more[i]) % m == 0 by {
            let x = more[i];
            assert(x == xs[i + 1]);
            lemma_quotient(coeffs, r, x);
            modular::lemma_cong_sub(horner(coeffs, x), 0, horner(coeffs, r), 0, m);
            let a = x - r;
            let b = horner(q, x);
            assert((a * b) % m == 0);
            if a % m == 0 {
                modular::lemma_cong_add(a, 0, r, r, m);
                assert(xs[0] % m != xs[i + 1] % m);
            }
        }
        law_roots(q, more, m);
        lemma_vanishes(coeffs, r, m);
    }
}

/// The difference of two polynomials.
pub proof fn lemma_horner_sub(a: Seq<int>, b: Seq<int>, x: int)
    requires
        a.len() == b.len(),
    ensures
        horner(Seq::new(a.len(), |k: int| a[k] - b[k]), x) == horner(a, x) - horner(b, x),
    decreases a.len(),
{
    let d = Seq::new(a.len(), |k: int| a[k] - b[k]);
    if a.len() > 0 {
        let a1 = a.drop_first();
        let b1 = b.drop_first();
        lemma_horner_sub(a1, b1, x);
        assert(d.drop_first() =~= Seq::new(a1.len(), |k: int| a1[k] - b1[k]));
        let p = horner(a1, x);
        let q = horner(b1, x);
        assert(x * (p - q) == x * p - x * q) by (nonlinear_arith);
    }
}

} // verus!
