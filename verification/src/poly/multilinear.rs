//! Multilinear polynomials, held as their values on the boolean hypercube.

use crate::poly::hypercube;
use crate::util::field;
use crate::util::field::PrimeField;
use crate::util::integer;
use crate::util::modular;
use vstd::arithmetic::div_mod::*;
use vstd::arithmetic::power2;
use vstd::arithmetic::power2::pow2;
use vstd::prelude::*;

verus! {

/// A polynomial that is linear in each of its variables.
#[derive(Debug)]
pub struct MultilinearPolynomial<F> {
    evals: Vec<F>,
    num_vars: usize,
}

impl<F> View for MultilinearPolynomial<F> {
    type V = Seq<F>;

    /// The values on the hypercube.
    closed spec fn view(&self) -> Seq<F> {
        self.evals@
    }
}

impl<F> MultilinearPolynomial<F> {
    #[verifier::type_invariant]
    spec fn wf(self) -> bool {
        self.evals@.len() == pow2(self.num_vars as nat)
    }
}

impl<F: Copy> Clone for MultilinearPolynomial<F> {
    fn clone(&self) -> (r: Self)
        ensures
            r@ == self@,
    {
        proof {
            use_type_invariant(self);
        }
        MultilinearPolynomial { evals: clone_elements(&self.evals), num_vars: self.num_vars }
    }
}

impl<F: PrimeField> MultilinearPolynomial<F> {
    /// The representatives of the values on the hypercube.
    pub open spec fn vals(&self) -> Seq<int> {
        field::vals(self@)
    }

    /// The polynomial with the given values.
    pub fn new(evals: Vec<F>) -> (r: Self)
        requires
            integer::is_pow2(evals@.len() as int),
        ensures
            r@ == evals@,
    {
        let num_vars = integer::floor_log2_usize(evals.len());
        proof {
            let k = choose|k: nat| #[trigger] pow2(k) == evals@.len();
            integer::lemma_log2_of_pow2(k);
        }
        MultilinearPolynomial { evals, num_vars }
    }

    /// The number of variables.
    pub fn num_vars(&self) -> (r: usize)
        ensures
            self@.len() == pow2(r as nat),
            r == integer::floor_log2(self@.len()),
            r < self@.len(),
    {
        proof {
            use_type_invariant(self);
            integer::lemma_log2_of_pow2(self.num_vars as nat);
            power2::lemma_pow2_pos(self.num_vars as nat);
            lemma_exponent_below_power(self.num_vars as nat);
        }
        self.num_vars
    }

    /// The values on the hypercube.
    pub fn evals(&self) -> (r: &Vec<F>)
        ensures
            r@ == self@,
    {
        &self.evals
    }

    /// The value at `point`.
    pub fn evaluate(&self, point: &[F]) -> (r: F)
        requires
            self@.len() == pow2(point@.len()),
        ensures
            r.val() == hypercube::mle(self.vals(), field::vals(point@)) % F::modulus(),
    {
        let ghost m = F::modulus();
        let ghost p = field::vals(point@);
        let ghost start = self.vals();
        let ghost mut now = start;
        let mut cur: Vec<F> = clone_elements(&self.evals);
        let mut j: usize = 0;
        proof {
            F::modulus_is_odd();
            field::lemma_represents_vals(cur@);
            assert(p.skip(0) =~= p);
        }
        while j < point.len()
            invariant
                j <= point.len(),
                m == F::modulus(),
                m > 2,
                p == field::vals(point@),
                field::represents(cur@, now),
                now.len() == pow2((point@.len() - j) as nat),
                hypercube::mle(now, p.skip(j as int)) == hypercube::mle(start, p),
            decreases point.len() - j,
        {
            proof {
                hypercube::lemma_pow2_step((point@.len() - j - 1) as nat);
                hypercube::lemma_mle_fold(now, p.skip(j as int));
                assert(p.skip(j as int).drop_first() =~= p.skip(j + 1));
                field::lemma_represents_cong(cur@, now);
                lemma_fold_cong(field::vals(cur@), now, point@[j as int].val(), m);
            }
            let next = fix_first_var(&cur, point[j]);
            proof {
                now = hypercube::fold(now, p[j as int]);
                lemma_represents_trans(
                    next@,
                    hypercube::fold(field::vals(cur@), point@[j as int].val()),
                    now,
                );
            }
            cur = next;
            j = j + 1;
        }
        proof {
            power2::lemma2_to64();
            hypercube::lemma_mle_single(now, p.skip(j as int));
        }
        cur[0]
    }

    /// The polynomial `x -> eq(x, point)`.
    pub fn eq_xy(point: &[F]) -> (r: Self)
        requires
            pow2(point@.len()) <= usize::MAX,
        ensures
            r@.len() == pow2(point@.len()),
            forall|i: int|
                0 <= i < r@.len() ==> (#[trigger] r@[i]).val() == hypercube::eq_at(
                    i,
                    field::vals(point@),
                ) % F::modulus(),
    {
        let tensor = compute_tensor_product(point);
        assert(integer::is_pow2(tensor@.len() as int));
        Self::new(tensor)
    }
}

/// An exponent is below its power of two.
proof fn lemma_exponent_below_power(k: nat)
    ensures
        k < pow2(k),
    decreases k,
{
    power2::lemma2_to64();
    if k > 0 {
        lemma_exponent_below_power((k - 1) as nat);
        power2::lemma_pow2_unfold(k);
    }
}

/// Being represented carries over to congruent integers.
pub proof fn lemma_represents_trans<F: PrimeField>(s: Seq<F>, v: Seq<int>, w: Seq<int>)
    requires
        field::represents(s, v),
        modular::cong_seq(v, w, F::modulus()),
    ensures
        field::represents(s, w),
{
    assert forall|i: int| 0 <= i < s.len() implies (#[trigger] s[i]).val() == w[i] % F::modulus() by {
        assert(modular::cong(v[i], w[i], F::modulus()));
    }
}

/// Setting a variable keeps congruence.
pub proof fn lemma_fold_cong(a: Seq<int>, b: Seq<int>, x: int, m: int)
    requires
        m > 0,
        modular::cong_seq(a, b, m),
        a.len() % 2 == 0,
    ensures
        modular::cong_seq(hypercube::fold(a, x), hypercube::fold(b, x), m),
{
    let fa = hypercube::fold(a, x);
    let fb = hypercube::fold(b, x);
    assert forall|i: int| 0 <= i < fa.len() implies modular::cong(#[trigger] fa[i], fb[i], m) by {
        assert(modular::cong(a[2 * i], b[2 * i], m));
        assert(modular::cong(a[2 * i + 1], b[2 * i + 1], m));
        modular::lemma_cong_sub(a[2 * i + 1], b[2 * i + 1], a[2 * i], b[2 * i], m);
        modular::lemma_cong_mul(x, x, a[2 * i + 1] - a[2 * i], b[2 * i + 1] - b[2 * i], m);
        modular::lemma_cong_add(
            a[2 * i],
            b[2 * i],
            x * (a[2 * i + 1] - a[2 * i]),
            x * (b[2 * i + 1] - b[2 * i]),
            m,
        );
    }
}

/// A copy of `s`.
pub(crate) fn clone_elements<F: Copy>(s: &[F]) -> (r: Vec<F>)
    ensures
        r@ == s@,
{
    let mut r: Vec<F> = Vec::new();
    let mut i: usize = 0;
    while i < s.len()
        invariant
            i <= s.len(),
            r@ == s@.take(i as int),
        decreases s.len() - i,
    {
        r.push(s[i]);
        i = i + 1;
        assert(r@ =~= s@.take(i as int));
    }
    assert(s@.take(s@.len() as int) =~= s@);
    r
}

/// `lo + x * (hi - lo)`.
pub(crate) fn interpolate<F: PrimeField>(lo: F, hi: F, x: F) -> (r: F)
    ensures
        r.val() == (lo.val() + x.val() * (hi.val() - lo.val())) % F::modulus(),
{
    let ghost m = F::modulus();
    let d = hi.sub(lo);
    let t = x.mul(d);
    proof {
        F::modulus_is_odd();
        let diff = hi.val() - lo.val();
        modular::lemma_cong_reduced(diff, m);
        modular::lemma_cong_mul(x.val(), x.val(), d.val(), diff, m);
        modular::lemma_cong_reduced(x.val() * d.val(), m);
        modular::lemma_cong_add(lo.val(), lo.val(), t.val(), x.val() * diff, m);
    }
    lo.add(t)
}

/// `evals` with its first variable set to `x`.
pub fn fix_first_var<F: PrimeField>(evals: &[F], x: F) -> (r: Vec<F>)
    ensures
        field::represents(r@, hypercube::fold(field::vals(evals@), x.val())),
{
    let n = evals.len();
    let h = n / 2;
    let mut r: Vec<F> = Vec::new();
    let mut b: usize = 0;
    while b < h
        invariant
            b <= h,
            n == evals@.len(),
            h == n / 2,
            r@.len() == b,
            forall|i: int|
                0 <= i < b ==> (#[trigger] r@[i]).val() == hypercube::fold(
                    field::vals(evals@),
                    x.val(),
                )[i] % F::modulus(),
        decreases h - b,
    {
        let v = interpolate(evals[2 * b], evals[2 * b + 1], x);
        r.push(v);
        b = b + 1;
    }
    r
}

/// `eq(x, point)` for all `x` in `{0, 1}^n`.
pub fn compute_tensor_product<F: PrimeField>(point: &[F]) -> (r: Vec<F>)
    requires
        pow2(point@.len()) <= usize::MAX,
    ensures
        r@.len() == pow2(point@.len()),
        forall|i: int|
            0 <= i < r@.len() ==> (#[trigger] r@[i]).val() == hypercube::eq_at(
                i,
                field::vals(point@),
            ) % F::modulus(),
{
    let ghost m = F::modulus();
    let ghost p = field::vals(point@);
    let mut r: Vec<F> = Vec::new();
    r.push(F::one());
    proof {
        F::modulus_is_odd();
        modular::lemma_small(1, m);
        power2::lemma2_to64();
        assert(p.take(0) =~= Seq::empty());
    }
    let one = F::one();
    let mut i: usize = 0;
    while i < point.len()
        invariant
            i <= point.len(),
            m == F::modulus(),
            m > 2,
            p == field::vals(point@),
            one.val() == 1,
            pow2(point@.len()) <= usize::MAX,
            r@.len() == pow2(i as nat),
            forall|j: int|
                0 <= j < r@.len() ==> (#[trigger] r@[j]).val() == hypercube::eq_at(
                    j,
                    p.take(i as int),
                ) % m,
        decreases point.len() - i,
    {
        let x = point[i];
        let y = one.sub(x);
        let ghost head = p.take(i as int);
        let ghost before = r@;
        let half = r.len();
        proof {
            hypercube::lemma_pow2_step(i as nat);
            integer::lemma_pow2_monotone((i + 1) as nat, point@.len());
            assert(p.take(i + 1) =~= head.push(x.val()));
        }
        let mut j: usize = 0;
        while j < half
            invariant
                j <= half,
                half == pow2(i as nat),
                half == before.len(),
                m == F::modulus(),
                m > 2,
                head.len() == i,
                y.val() == (1 - x.val()) % m,
                2 * half <= usize::MAX,
                r@.len() == half + j,
                forall|t: int|
                    0 <= t < half ==> (#[trigger] before[t]).val() == hypercube::eq_at(t, head) % m,
                forall|t: int| j <= t < half ==> #[trigger] r@[t] == before[t],
                forall|t: int|
                    0 <= t < j ==> (#[trigger] r@[t]).val() == hypercube::eq_at(
                        t,
                        head.push(x.val()),
                    ) % m,
                forall|t: int|
                    half <= t < half + j ==> (#[trigger] r@[t]).val() == hypercube::eq_at(
                        t,
                        head.push(x.val()),
                    ) % m,
            decreases half - j,
        {
            let old_value = r[j];
            let hi = old_value.mul(x);
            let lo = old_value.mul(y);
            proof {
                let e = hypercube::eq_at(j as int, head);
                assert(old_value == before[j as int]);
                hypercube::lemma_eq_at_push(j as int, head, x.val());
                modular::lemma_cong_reduced(e, m);
                modular::lemma_cong_mul(old_value.val(), e, x.val(), x.val(), m);
                modular::lemma_cong_reduced(1 - x.val(), m);
                modular::lemma_cong_mul(old_value.val(), e, y.val(), 1 - x.val(), m);
            }
            let ghost prev = r@;
            r.push(hi);
            r.set(j, lo);
            assert(r@ == prev.push(hi).update(j as int, lo));
            j = j + 1;
        }
        i = i + 1;
    }
    assert(p.take(p.len() as int) =~= p);
    r
}

} // verus!
