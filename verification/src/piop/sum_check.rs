//! The sum-check protocol for sums of scaled products of two multilinear polynomials.

pub mod acceptance;
pub mod soundness;

use crate::poly::hypercube;
use crate::poly::multilinear;
use crate::util::field;
use crate::util::field::PrimeField;
use crate::util::modular;
use crate::util::sum;
use crate::util::text;
use crate::util::transcript;
use crate::util::transcript::{Halt, Model, State, TranscriptRead, TranscriptWrite};
use crate::{Error, ErrorView};
use vstd::arithmetic::div_mod::*;
use vstd::arithmetic::power2::pow2;
use vstd::prelude::*;

verus! {

/// How the prover sends the polynomial of a round.
#[derive(Clone, Copy, Debug, PartialEq, Eq, Structural)]
pub enum Form {
    /// By its values at zero, one and two.
    Evaluations,
    /// By its coefficients, constant first.
    Coefficients,
}

/// `scalar * lhs(x) * rhs(x)`, by the values of both factors on the hypercube.
#[derive(Clone, Debug)]
pub struct Product<F> {
    pub scalar: F,
    pub lhs: Vec<F>,
    pub rhs: Vec<F>,
}

/// The representatives of a [`Product`].
#[verifier::ext_equal]
pub struct ProductView {
    pub scalar: int,
    pub lhs: Seq<int>,
    pub rhs: Seq<int>,
}

impl<F: PrimeField> Product<F> {
    pub open spec fn vals(self) -> ProductView {
        ProductView {
            scalar: self.scalar.val(),
            lhs: field::vals(self.lhs@),
            rhs: field::vals(self.rhs@),
        }
    }
}

/// The representatives of a sum of products.
pub open spec fn products_vals<F: PrimeField>(ts: Seq<Product<F>>) -> Seq<ProductView> {
    ts.map_values(|t: Product<F>| t.vals())
}

/// The factors of every product have `2^n` values.
pub open spec fn of_size(ts: Seq<ProductView>, n: nat) -> bool {
    forall|i: int|
        0 <= i < ts.len() ==> (#[trigger] ts[i]).lhs.len() == pow2(n) && ts[i].rhs.len() == pow2(n)
}

/// The sum of the products over the whole hypercube.
pub open spec fn claim(ts: Seq<ProductView>) -> int
    decreases ts.len(),
{
    if ts.len() == 0 {
        0
    } else {
        claim(ts.drop_last()) + ts.last().scalar * sum::dot(ts.last().lhs, ts.last().rhs)
    }
}

/// The products where the first variable is zero.
pub open spec fn at_zero(t: ProductView) -> int {
    sum::sum_to(|b: int| t.lhs[2 * b] * t.rhs[2 * b], (t.lhs.len() / 2) as nat)
}

/// The products where the first variable is one.
pub open spec fn at_one(t: ProductView) -> int {
    sum::sum_to(|b: int| t.lhs[2 * b + 1] * t.rhs[2 * b + 1], (t.lhs.len() / 2) as nat)
}

/// The coefficient of the square of the first variable.
pub open spec fn square(t: ProductView) -> int {
    sum::sum_to(
        |b: int| (t.lhs[2 * b + 1] - t.lhs[2 * b]) * (t.rhs[2 * b + 1] - t.rhs[2 * b]),
        (t.lhs.len() / 2) as nat,
    )
}

/// The sum over all products of the scaled values of one of the three functions above.
pub open spec fn scaled_sum(ts: Seq<ProductView>, f: spec_fn(ProductView) -> int) -> int
    decreases ts.len(),
{
    if ts.len() == 0 {
        0
    } else {
        scaled_sum(ts.drop_last(), f) + ts.last().scalar * f(ts.last())
    }
}

/// The round polynomial's value at zero.
pub open spec fn value_at_zero(ts: Seq<ProductView>) -> int {
    scaled_sum(ts, |t: ProductView| at_zero(t))
}

/// The round polynomial's value at one.
pub open spec fn value_at_one(ts: Seq<ProductView>) -> int {
    scaled_sum(ts, |t: ProductView| at_one(t))
}

/// The round polynomial's quadratic coefficient.
pub open spec fn quadratic(ts: Seq<ProductView>) -> int {
    scaled_sum(ts, |t: ProductView| square(t))
}

/// The round polynomial's value at `x`.
pub open spec fn round_value(ts: Seq<ProductView>, x: int) -> int {
    let c0 = value_at_zero(ts);
    let c2 = quadratic(ts);
    let c1 = value_at_one(ts) - c0 - c2;
    c0 + x * (c1 + x * c2)
}

/// The message that an honest prover sends for the round.
pub open spec fn round_message(form: Form, ts: Seq<ProductView>, m: int) -> Seq<int> {
    let c0 = value_at_zero(ts);
    let e1 = value_at_one(ts);
    let c2 = quadratic(ts);
    match form {
        Form::Evaluations => seq![c0 % m, e1 % m, (2 * (c2 + e1) - c0) % m],
        Form::Coefficients => seq![c0 % m, (e1 - c0 - c2) % m, c2 % m],
    }
}

/// The sum at zero and one of the polynomial that a message stands for.
pub open spec fn message_sum(form: Form, msg: Seq<int>) -> int {
    match form {
        Form::Evaluations => msg[0] + msg[1],
        Form::Coefficients => msg[0] + (msg[0] + msg[1] + msg[2]),
    }
}

/// The value at `x` of the polynomial that a message stands for.
pub open spec fn message_value(form: Form, msg: Seq<int>, x: int, m: int) -> int {
    let c0 = msg[0];
    match form {
        Form::Evaluations => {
            let c2 = (msg[2] - 2 * msg[1] + msg[0]) * ((m + 1) / 2);
            c0 + x * ((msg[1] - c0 - c2) + x * c2)
        },
        Form::Coefficients => c0 + x * (msg[1] + x * msg[2]),
    }
}

/// `v` with its first variable set to `x`, reduced.
pub open spec fn fold_reduced(v: Seq<int>, x: int, m: int) -> Seq<int> {
    modular::reduce_seq(hypercube::fold(v, x), m)
}

/// A product with its first variable set to `x`.
pub open spec fn fold_product(t: ProductView, x: int, m: int) -> ProductView {
    ProductView {
        scalar: t.scalar,
        lhs: fold_reduced(t.lhs, x, m),
        rhs: fold_reduced(t.rhs, x, m),
    }
}

/// All products with their first variable set to `x`.
pub open spec fn fold_products(ts: Seq<ProductView>, x: int, m: int) -> Seq<ProductView> {
    ts.map_values(|t: ProductView| fold_product(t, x, m))
}

/// Where a prover stands after some rounds.
#[verifier::ext_equal]
pub struct Progress<C> {
    pub state: State<C>,
    pub products: Seq<ProductView>,
    pub sum: int,
    pub challenges: Seq<int>,
}

/// The prover's next round.
pub open spec fn prove_round<C>(form: Form, mo: Model<C>, p: Progress<C>, m: int) -> Result<
    Progress<C>,
    Halt<C>,
> {
    let msg = round_message(form, p.products, m);
    match transcript::write_fields(mo, p.state, msg) {
        Err(e) => Err(e),
        Ok(s) => {
            let (c, t) = transcript::squeeze(mo, s);
            Ok(
                Progress {
                    state: t,
                    products: fold_products(p.products, c, m),
                    sum: message_value(form, msg, c, m) % m,
                    challenges: p.challenges.push(c),
                },
            )
        },
    }
}

/// The prover's first `n` rounds on the claim that the products sum to `total`.
pub open spec fn prove_rounds<C>(
    form: Form,
    mo: Model<C>,
    st: State<C>,
    ts: Seq<ProductView>,
    total: int,
    n: nat,
    m: int,
) -> Result<Progress<C>, Halt<C>>
    decreases n,
{
    if n == 0 {
        Ok(Progress { state: st, products: ts, sum: total, challenges: Seq::empty() })
    } else {
        match prove_rounds(form, mo, st, ts, total, (n - 1) as nat, m) {
            Err(e) => Err(e),
            Ok(p) => prove_round(form, mo, p, m),
        }
    }
}

/// The messages and challenges of the verifier's first `n` rounds.
pub open spec fn read_rounds<C>(mo: Model<C>, st: State<C>, n: nat) -> Result<
    (State<C>, Seq<Seq<int>>, Seq<int>),
    Halt<C>,
>
    decreases n,
{
    if n == 0 {
        Ok((st, Seq::empty(), Seq::empty()))
    } else {
        match read_rounds(mo, st, (n - 1) as nat) {
            Err(e) => Err(e),
            Ok((s, msgs, cs)) => match transcript::read_fields(mo, s, 3) {
                Err(e) => Err(e),
                Ok((msg, t)) => {
                    let (c, u) = transcript::squeeze(mo, t);
                    Ok((u, msgs.push(msg), cs.push(c)))
                },
            },
        }
    }
}

/// What the sum comes to after the first `n` messages, if each fits the one before.
pub open spec fn check_rounds(
    form: Form,
    msgs: Seq<Seq<int>>,
    cs: Seq<int>,
    total: int,
    n: nat,
    m: int,
) -> Result<int, ErrorView>
    decreases n,
{
    if n == 0 {
        Ok(total)
    } else {
        match check_rounds(form, msgs, cs, total, (n - 1) as nat, m) {
            Err(e) => Err(e),
            Ok(s) => if s != message_sum(form, msgs[n - 1]) % m {
                Err(inconsistent((n - 1) as nat))
            } else {
                Ok(message_value(form, msgs[n - 1], cs[n - 1], m) % m)
            },
        }
    }
}

/// The error for a message that does not fit.
pub open spec fn inconsistent(round: nat) -> ErrorView {
    ErrorView::InvalidSumcheck("Consistency failure at round "@ + text::decimal(round) + ""@)
}

/// The verifier: reads the messages, then checks them.
pub open spec fn verify_rounds<C>(
    form: Form,
    mo: Model<C>,
    st: State<C>,
    total: int,
    n: nat,
    m: int,
) -> Result<(State<C>, int, Seq<int>), Halt<C>> {
    match read_rounds(mo, st, n) {
        Err(e) => Err(e),
        Ok((s, msgs, cs)) => match check_rounds(form, msgs, cs, total, n, m) {
            Err(e) => Err(Halt { error: e, state: s }),
            Ok(v) => Ok((s, v, cs)),
        },
    }
}

/// The three sums of one product.
fn product_sums<F: PrimeField>(t: &Product<F>) -> (r: (F, F, F))
    requires
        t.lhs@.len() == t.rhs@.len(),
    ensures
        r.0.val() == at_zero(t.vals()) % F::modulus(),
        r.1.val() == at_one(t.vals()) % F::modulus(),
        r.2.val() == square(t.vals()) % F::modulus(),
{
    let ghost m = F::modulus();
    let ghost v = t.vals();
    let ghost f0 = |b: int| v.lhs[2 * b] * v.rhs[2 * b];
    let ghost f1 = |b: int| v.lhs[2 * b + 1] * v.rhs[2 * b + 1];
    let ghost f2 = |b: int|
        (v.lhs[2 * b + 1] - v.lhs[2 * b]) * (v.rhs[2 * b + 1] - v.rhs[2 * b]);
    proof {
        F::modulus_is_odd();
        modular::lemma_small(0, m);
    }
    let n = t.lhs.len();
    let h = n / 2;
    let mut s0 = F::zero();
    let mut s1 = F::zero();
    let mut s2 = F::zero();
    let mut b: usize = 0;
    while b < h
        invariant
            b <= h,
            h == n / 2,
            n == t.lhs@.len(),
            n == t.rhs@.len(),
            m == F::modulus(),
            m > 2,
            v == t.vals(),
            f0 == (|b: int| v.lhs[2 * b] * v.rhs[2 * b]),
            f1 == (|b: int| v.lhs[2 * b + 1] * v.rhs[2 * b + 1]),
            f2 == (|b: int|
                (v.lhs[2 * b + 1] - v.lhs[2 * b]) * (v.rhs[2 * b + 1] - v.rhs[2 * b])),
            s0.val() == sum::sum_to(f0, b as nat) % m,
            s1.val() == sum::sum_to(f1, b as nat) % m,
            s2.val() == sum::sum_to(f2, b as nat) % m,
        decreases h - b,
    {
        let l0 = t.lhs[2 * b];
        let l1 = t.lhs[2 * b + 1];
        let r0 = t.rhs[2 * b];
        let r1 = t.rhs[2 * b + 1];
        let dl = l1.sub(l0);
        let dr = r1.sub(r0);
        s0 = s0.add(l0.mul(r0));
        s1 = s1.add(l1.mul(r1));
        s2 = s2.add(dl.mul(dr));
        proof {
            lemma_add_mod_noop(sum::sum_to(f0, b as nat), f0(b as int), m);
            lemma_add_mod_noop(sum::sum_to(f1, b as nat), f1(b as int), m);
            lemma_add_mod_noop(sum::sum_to(f2, b as nat), f2(b as int), m);
            lemma_mul_mod_noop(l1.val() - l0.val(), r1.val() - r0.val(), m);
        }
        b = b + 1;
    }
    (s0, s1, s2)
}

/// A prefix of the products, one longer.
proof fn lemma_take_next<A>(s: Seq<A>, i: int)
    requires
        0 <= i < s.len(),
    ensures
        s.take(i + 1).drop_last() == s.take(i),
        s.take(i + 1).last() == s[i],
{
    assert(s.take(i + 1).drop_last() =~= s.take(i));
}

/// `(acc + c * x) % m`, from remainders.
proof fn lemma_accumulate(acc: int, c: int, x: int, m: int)
    requires
        m > 0,
    ensures
        (acc % m + (c * (x % m)) % m) % m == (acc + c * x) % m,
{
    lemma_mul_mod_noop_right(c, x, m);
    lemma_add_mod_noop(acc, c * x, m);
}

/// The values at zero and one and the quadratic coefficient of the round polynomial.
fn round_sums<F: PrimeField>(ts: &Vec<Product<F>>) -> (r: (F, F, F))
    requires
        forall|i: int| 0 <= i < ts@.len() ==> (#[trigger] ts@[i]).lhs@.len() == ts@[i].rhs@.len(),
    ensures
        r.0.val() == value_at_zero(products_vals(ts@)) % F::modulus(),
        r.1.val() == value_at_one(products_vals(ts@)) % F::modulus(),
        r.2.val() == quadratic(products_vals(ts@)) % F::modulus(),
{
    let ghost m = F::modulus();
    let ghost v = products_vals(ts@);
    proof {
        F::modulus_is_odd();
        modular::lemma_small(0, m);
    }
    let mut s0 = F::zero();
    let mut s1 = F::zero();
    let mut s2 = F::zero();
    let mut i: usize = 0;
    while i < ts.len()
        invariant
            i <= ts.len(),
            m == F::modulus(),
            m > 2,
            v == products_vals(ts@),
            forall|i: int|
                0 <= i < ts@.len() ==> (#[trigger] ts@[i]).lhs@.len() == ts@[i].rhs@.len(),
            s0.val() == value_at_zero(v.take(i as int)) % m,
            s1.val() == value_at_one(v.take(i as int)) % m,
            s2.val() == quadratic(v.take(i as int)) % m,
        decreases ts.len() - i,
    {
        let t = &ts[i];
        let (a, b, c) = product_sums(t);
        proof {
            lemma_take_next(v, i as int);
            let w = v.take(i as int);
            lemma_accumulate(value_at_zero(w), t.scalar.val(), at_zero(v[i as int]), m);
            lemma_accumulate(value_at_one(w), t.scalar.val(), at_one(v[i as int]), m);
            lemma_accumulate(quadratic(w), t.scalar.val(), square(v[i as int]), m);
        }
        s0 = s0.add(t.scalar.mul(a));
        s1 = s1.add(t.scalar.mul(b));
        s2 = s2.add(t.scalar.mul(c));
        i = i + 1;
    }
    assert(v.take(v.len() as int) =~= v);
    (s0, s1, s2)
}

/// The message for the round.
fn message<F: PrimeField>(form: Form, ts: &Vec<Product<F>>) -> (r: Vec<F>)
    requires
        forall|i: int| 0 <= i < ts@.len() ==> (#[trigger] ts@[i]).lhs@.len() == ts@[i].rhs@.len(),
    ensures
        field::vals(r@) == round_message(form, products_vals(ts@), F::modulus()),
{
    let ghost m = F::modulus();
    let ghost v = products_vals(ts@);
    let (s0, s1, s2) = round_sums(ts);
    proof {
        F::modulus_is_odd();
    }
    let mut r: Vec<F> = Vec::new();
    match form {
        Form::Evaluations => {
            let t = s2.add(s1);
            let d = t.add(t);
            let e2 = d.sub(s0);
            proof {
                let c0 = value_at_zero(v);
                let e1 = value_at_one(v);
                let c2 = quadratic(v);
                lemma_add_mod_noop(c2, e1, m);
                lemma_add_mod_noop(c2 + e1, c2 + e1, m);
                lemma_sub_mod_noop(2 * (c2 + e1), c0, m);
            }
            r.push(s0);
            r.push(s1);
            r.push(e2);
        },
        Form::Coefficients => {
            let d = s1.sub(s0);
            let c1 = d.sub(s2);
            proof {
                let c0 = value_at_zero(v);
                let e1 = value_at_one(v);
                let c2 = quadratic(v);
                lemma_sub_mod_noop(e1, c0, m);
                lemma_sub_mod_noop(e1 - c0, c2, m);
            }
            r.push(s0);
            r.push(c1);
            r.push(s2);
        },
    }
    assert(field::vals(r@) =~= round_message(form, v, m));
    r
}

/// `c0 + x * (c1 + x * c2)`.
fn horner<F: PrimeField>(c0: F, c1: F, c2: F, x: F) -> (r: F)
    ensures
        r.val() == (c0.val() + x.val() * (c1.val() + x.val() * c2.val())) % F::modulus(),
{
    let ghost m = F::modulus();
    let a = x.mul(c2);
    let b = c1.add(a);
    let c = x.mul(b);
    proof {
        F::modulus_is_odd();
        let inner = x.val() * c2.val();
        modular::lemma_cong_reduced(inner, m);
        modular::lemma_cong_add(c1.val(), c1.val(), a.val(), inner, m);
        let mid = c1.val() + inner;
        modular::lemma_cong_reduced(c1.val() + a.val(), m);
        modular::lemma_cong_mul(x.val(), x.val(), b.val(), mid, m);
        modular::lemma_cong_reduced(x.val() * b.val(), m);
        modular::lemma_cong_add(c0.val(), c0.val(), c.val(), x.val() * mid, m);
    }
    c0.add(c)
}

/// The reduced inverse of two is `(m + 1) / 2`.
proof fn lemma_two_inv(h: int, m: int)
    requires
        m > 2,
        m % 2 == 1,
        0 <= h < m,
        (2 * h) % m == 1,
    ensures
        h == (m + 1) / 2,
{
    lemma_fundamental_div_mod(2 * h, m);
    let q = (2 * h) / m;
    assert(2 * h == m * q + 1);
    assert(q == 1) by (nonlinear_arith)
        requires
            2 * h == m * q + 1,
            0 <= h < m,
            m > 2,
            m % 2 == 1,
    {
        if q <= 0 {
            assert(m * q <= 0);
            if q == 0 {
                assert(2 * h == 1);
            } else {
                assert(m * q <= -m);
            }
        } else if q >= 2 {
            assert(m * q >= 2 * m);
        }
    }
    assert(m * q == m) by (nonlinear_arith)
        requires
            q == 1,
    ;
}

/// The value of a message's polynomial at `x`.
fn evaluate_message<F: PrimeField>(form: Form, msg: &Vec<F>, x: F) -> (r: F)
    requires
        msg@.len() == 3,
    ensures
        r.val() == message_value(form, field::vals(msg@), x.val(), F::modulus()) % F::modulus(),
{
    match form {
        Form::Evaluations => {
            let ghost m = F::modulus();
            let half = F::two_inv();
            let twice = msg[1].add(msg[1]);
            let d = msg[2].sub(twice);
            let e = d.add(msg[0]);
            let c2 = e.mul(half);
            let f = msg[1].sub(msg[0]);
            let c1 = f.sub(c2);
            let r = horner(msg[0], c1, c2, x);
            proof {
                F::modulus_is_odd();
                F::val_in_range(half);
                lemma_two_inv(half.val(), m);
                let v = field::vals(msg@);
                lemma_sub_mod_noop_right(v[2], 2 * v[1], m);
                assert(d.val() == (v[2] - 2 * v[1]) % m);
                modular::lemma_cong_reduced(v[2] - 2 * v[1], m);
                modular::lemma_cong_add(d.val(), v[2] - 2 * v[1], v[0], v[0], m);
                let ee = v[2] - 2 * v[1] + v[0];
                assert(e.val() == ee % m);
                lemma_mul_mod_noop_left(ee, half.val(), m);
                let cc2 = ee * half.val();
                assert(c2.val() == cc2 % m);
                lemma_sub_mod_noop(v[1] - v[0], cc2, m);
                let cc1 = v[1] - v[0] - cc2;
                assert(c1.val() == cc1 % m);
                modular::lemma_cong_reduced(cc1, m);
                modular::lemma_cong_reduced(cc2, m);
                lemma_horner_cong(v[0], v[0], c1.val(), cc1, c2.val(), cc2, x.val(), m);
            }
            r
        },
        Form::Coefficients => horner(msg[0], msg[1], msg[2], x),
    }
}

/// The sum at zero and one of a message's polynomial.
fn sum_message<F: PrimeField>(form: Form, msg: &Vec<F>) -> (r: F)
    requires
        msg@.len() == 3,
    ensures
        r.val() == message_sum(form, field::vals(msg@)) % F::modulus(),
{
    let ghost m = F::modulus();
    proof {
        F::modulus_is_odd();
    }
    match form {
        Form::Evaluations => msg[0].add(msg[1]),
        Form::Coefficients => {
            let a = msg[0].add(msg[1]);
            let b = a.add(msg[2]);
            proof {
                let v = field::vals(msg@);
                modular::lemma_cong_reduced(v[0] + v[1], m);
                modular::lemma_cong_add(a.val(), v[0] + v[1], v[2], v[2], m);
                modular::lemma_cong_reduced(a.val() + v[2], m);
                modular::lemma_cong_add(v[0], v[0], b.val(), v[0] + v[1] + v[2], m);
            }
            msg[0].add(b)
        },
    }
}

/// Sets the first variable of every product to `x`.
fn fold_all<F: PrimeField>(ts: Vec<Product<F>>, x: F) -> (r: Vec<Product<F>>)
    ensures
        products_vals(r@) == fold_products(products_vals(ts@), x.val(), F::modulus()),
{
    let ghost m = F::modulus();
    let mut r: Vec<Product<F>> = Vec::new();
    let mut i: usize = 0;
    while i < ts.len()
        invariant
            i <= ts.len(),
            r@.len() == i,
            m == F::modulus(),
            forall|j: int|
                0 <= j < i ==> (#[trigger] r@[j]).vals() == fold_product(ts@[j].vals(), x.val(), m),
        decreases ts.len() - i,
    {
        let t = &ts[i];
        let lhs = multilinear::fix_first_var(&t.lhs, x);
        let rhs = multilinear::fix_first_var(&t.rhs, x);
        let p = Product { scalar: t.scalar, lhs, rhs };
        assert(p.vals().lhs =~= fold_reduced(t.vals().lhs, x.val(), m));
        assert(p.vals().rhs =~= fold_reduced(t.vals().rhs, x.val(), m));
        r.push(p);
        i = i + 1;
    }
    assert(products_vals(r@) =~= fold_products(products_vals(ts@), x.val(), m));
    r
}

/// An error in an early round stops the prover.
proof fn lemma_prove_rounds_prefix<C>(
    form: Form,
    mo: Model<C>,
    st: State<C>,
    ts: Seq<ProductView>,
    total: int,
    k: nat,
    n: nat,
    m: int,
)
    requires
        k <= n,
        prove_rounds(form, mo, st, ts, total, k, m) is Err,
    ensures
        prove_rounds(form, mo, st, ts, total, n, m) == prove_rounds(form, mo, st, ts, total, k, m),
    decreases n - k,
{
    if k < n {
        lemma_prove_rounds_prefix(form, mo, st, ts, total, k + 1, n, m);
    }
}

/// An error in an early round stops the reader.
proof fn lemma_read_rounds_prefix<C>(mo: Model<C>, st: State<C>, k: nat, n: nat)
    requires
        k <= n,
        read_rounds(mo, st, k) is Err,
    ensures
        read_rounds(mo, st, n) == read_rounds(mo, st, k),
    decreases n - k,
{
    if k < n {
        lemma_read_rounds_prefix(mo, st, k + 1, n);
    }
}

/// A message that does not fit stops the check.
proof fn lemma_check_rounds_prefix(
    form: Form,
    msgs: Seq<Seq<int>>,
    cs: Seq<int>,
    total: int,
    k: nat,
    n: nat,
    m: int,
)
    requires
        k <= n,
        check_rounds(form, msgs, cs, total, k, m) is Err,
    ensures
        check_rounds(form, msgs, cs, total, n, m) == check_rounds(form, msgs, cs, total, k, m),
    decreases n - k,
{
    if k < n {
        lemma_check_rounds_prefix(form, msgs, cs, total, k + 1, n, m);
    }
}

/// Proves that `products` sum to `total` over the hypercube. Returns the value that
/// is left to check, and the challenges.
pub fn prove<C, F: PrimeField, T: TranscriptWrite<C, F>>(
    form: Form,
    num_vars: usize,
    products: Vec<Product<F>>,
    total: F,
    transcript: &mut T,
) -> (r: Result<(F, Vec<F>), Error>)
    requires
        of_size(products_vals(products@), num_vars as nat),
    ensures
        match prove_rounds(
            form,
            T::model(),
            old(transcript).state(),
            products_vals(products@),
            total.val(),
            num_vars as nat,
            F::modulus(),
        ) {
            Ok(p) => r is Ok && r->Ok_0.0.val() == p.sum && field::vals(r->Ok_0.1@) == p.challenges
                && final(transcript).state() == p.state,
            Err(h) => transcript::halted(r, final(transcript).state(), h),
        },
{
    let ghost m = F::modulus();
    let ghost mo = T::model();
    let ghost st = transcript.state();
    let ghost ts = products_vals(products@);
    let mut cur = products;
    let mut sum = total;
    let mut challenges: Vec<F> = Vec::new();
    let mut i: usize = 0;
    assert(field::vals(challenges@) =~= Seq::<int>::empty());
    while i < num_vars
        invariant
            i <= num_vars,
            m == F::modulus(),
            mo == T::model(),
            st == old(transcript).state(),
            ts == products_vals(products@),
            of_size(products_vals(cur@), (num_vars - i) as nat),
            prove_rounds(form, mo, st, ts, total.val(), i as nat, m) == Ok::<Progress<C>, Halt<C>>(
                Progress {
                    state: transcript.state(),
                    products: products_vals(cur@),
                    sum: sum.val(),
                    challenges: field::vals(challenges@),
                },
            ),
        decreases num_vars - i,
    {
        let ghost before = challenges@;
        let ghost v = products_vals(cur@);
        assert forall|j: int| 0 <= j < cur@.len() implies (#[trigger] cur@[j]).lhs@.len()
            == cur@[j].rhs@.len() by {
            assert(v[j] == cur@[j].vals());
        }
        let msg = message(form, &cur);
        assert(msg@.len() == field::vals(msg@).len());
        match transcript::write_field_elements(transcript, &msg) {
            Err(e) => {
                proof {
                    lemma_prove_rounds_prefix(
                        form,
                        mo,
                        st,
                        ts,
                        total.val(),
                        (i + 1) as nat,
                        num_vars as nat,
                        m,
                    );
                }
                return Err(e);
            },
            Ok(()) => {},
        }
        let c = transcript.squeeze_challenge();
        sum = evaluate_message(form, &msg, c);
        cur = fold_all(cur, c);
        challenges.push(c);
        proof {
            assert(field::vals(challenges@) =~= field::vals(before).push(c.val()));
            lemma_fold_size(v, c.val(), (num_vars - i - 1) as nat, m);
        }
        i = i + 1;
    }
    Ok((sum, challenges))
}

/// Setting a variable halves the factors.
proof fn lemma_fold_size(ts: Seq<ProductView>, x: int, n: nat, m: int)
    requires
        of_size(ts, n + 1),
    ensures
        of_size(fold_products(ts, x, m), n),
{
    hypercube::lemma_pow2_step(n);
    let after = fold_products(ts, x, m);
    assert forall|i: int| 0 <= i < after.len() implies (#[trigger] after[i]).lhs.len() == pow2(n)
        && after[i].rhs.len() == pow2(n) by {
        assert(ts[i].lhs.len() == pow2(n + 1));
    }
}

/// The representatives of the messages of several rounds.
spec fn messages_vals<F: PrimeField>(msgs: Seq<Vec<F>>) -> Seq<Seq<int>> {
    msgs.map_values(|v: Vec<F>| field::vals(v@))
}

/// Verifies a proof that some products sum to `total` over the hypercube. Returns the
/// value that is left to check, and the challenges.
pub fn verify<C, F: PrimeField, T: TranscriptRead<C, F>>(
    form: Form,
    num_vars: usize,
    total: F,
    transcript: &mut T,
) -> (r: Result<(F, Vec<F>), Error>)
    ensures
        match verify_rounds(
            form,
            T::model(),
            old(transcript).state(),
            total.val(),
            num_vars as nat,
            F::modulus(),
        ) {
            Ok((s, v, cs)) => r is Ok && r->Ok_0.0.val() == v && field::vals(r->Ok_0.1@) == cs
                && final(transcript).state() == s,
            Err(h) => transcript::halted(r, final(transcript).state(), h),
        },
{
    let ghost m = F::modulus();
    let ghost mo = T::model();
    let ghost st = transcript.state();
    let mut msgs: Vec<Vec<F>> = Vec::new();
    let mut challenges: Vec<F> = Vec::new();
    let mut i: usize = 0;
    assert(field::vals(challenges@) =~= Seq::<int>::empty());
    assert(messages_vals(msgs@) =~= Seq::<Seq<int>>::empty());
    while i < num_vars
        invariant
            i <= num_vars,
            mo == T::model(),
            st == old(transcript).state(),
            msgs@.len() == i,
            challenges@.len() == i,
            forall|j: int| 0 <= j < i ==> (#[trigger] msgs@[j])@.len() == 3,
            read_rounds(mo, st, i as nat) == Ok::<(State<C>, Seq<Seq<int>>, Seq<int>), Halt<C>>(
                (transcript.state(), messages_vals(msgs@), field::vals(challenges@)),
            ),
        decreases num_vars - i,
    {
        let ghost msgs_before = msgs@;
        let ghost before = challenges@;
        let ghost here = transcript.state();
        match transcript::read_field_elements::<C, F, T>(transcript, 3) {
            Err(e) => {
                proof {
                    lemma_read_rounds_prefix(mo, st, (i + 1) as nat, num_vars as nat);
                }
                return Err(e);
            },
            Ok(msg) => {
                let c = transcript.squeeze_challenge();
                proof {
                    transcript::lemma_read_fields_len(mo, here, 3);
                    assert(field::vals(msg@).len() == msg@.len());
                }
                let ghost v = field::vals(msg@);
                msgs.push(msg);
                challenges.push(c);
                assert(field::vals(challenges@) =~= field::vals(before).push(c.val()));
                assert(messages_vals(msgs@) =~= messages_vals(msgs_before).push(v));
            },
        }
        i = i + 1;
    }
    let ghost mv = messages_vals(msgs@);
    let ghost cv = field::vals(challenges@);
    let mut sum = total;
    let mut j: usize = 0;
    while j < num_vars
        invariant
            j <= num_vars,
            m == F::modulus(),
            mv == messages_vals(msgs@),
            cv == field::vals(challenges@),
            msgs@.len() == num_vars,
            challenges@.len() == num_vars,
            forall|j: int| 0 <= j < num_vars ==> (#[trigger] msgs@[j])@.len() == 3,
            check_rounds(form, mv, cv, total.val(), j as nat, m) == Ok::<int, ErrorView>(sum.val()),
            mo == T::model(),
            st == old(transcript).state(),
            read_rounds(mo, st, num_vars as nat) == Ok::<
                (State<C>, Seq<Seq<int>>, Seq<int>),
                Halt<C>,
            >((transcript.state(), mv, cv)),
        decreases num_vars - j,
    {
        let msg = &msgs[j];
        assert(mv[j as int] == field::vals(msg@));
        let expected = sum_message(form, msg);
        if !sum.equals(expected) {
            proof {
                lemma_check_rounds_prefix(
                    form,
                    mv,
                    cv,
                    total.val(),
                    (j + 1) as nat,
                    num_vars as nat,
                    m,
                );
            }
            return Err(
                Error::InvalidSumcheck(text::with_number("Consistency failure at round ", j, "")),
            );
        }
        sum = evaluate_message(form, msg, challenges[j]);
        j = j + 1;
    }
    Ok((sum, challenges))
}

/// The inner product of both factors, by the first variable.
proof fn lemma_dot_split(t: ProductView)
    requires
        t.lhs.len() % 2 == 0,
    ensures
        sum::dot(t.lhs, t.rhs) == at_zero(t) + at_one(t),
{
    let h = (t.lhs.len() / 2) as nat;
    let f = |i: int| t.lhs[i] * t.rhs[i];
    let f0 = |b: int| t.lhs[2 * b] * t.rhs[2 * b];
    let f1 = |b: int| t.lhs[2 * b + 1] * t.rhs[2 * b + 1];
    let g = |b: int| f0(b) + f1(b);
    assert forall|b: int| 0 <= b < h implies #[trigger] g(b) == f(2 * b) + f(2 * b + 1) by {}
    sum::lemma_sum_pairs(f, g, h);
    sum::lemma_sum_add(f0, f1, g, h);
    assert(2 * h == t.lhs.len());
}

/// The product of two linear interpolations, as a polynomial in `x`.
proof fn lemma_interpolations(l0: int, l1: int, r0: int, r1: int, x: int)
    ensures
        (l0 + x * (l1 - l0)) * (r0 + x * (r1 - r0)) == l0 * r0 + x * ((l1 * r1 - l0 * r0 - (l1 - l0)
            * (r1 - r0)) + x * ((l1 - l0) * (r1 - r0))),
{
    let dl = l1 - l0;
    let dr = r1 - r0;
    assert(l1 == l0 + dl && r1 == r0 + dr);
    let p = x * dl;
    let q = x * dr;
    assert((l0 + p) * (r0 + q) == l0 * r0 + l0 * q + p * r0 + p * q) by (nonlinear_arith);
    assert(l0 * (x * dr) == x * (l0 * dr)) by (nonlinear_arith);
    assert((x * dl) * r0 == x * (dl * r0)) by (nonlinear_arith);
    assert((x * dl) * (x * dr) == x * (x * (dl * dr))) by (nonlinear_arith);
    let g = l0 * dr;
    let h = dl * r0;
    assert(x * (g + h) == x * g + x * h) by (nonlinear_arith);
    assert((l0 + dl) * (r0 + dr) - l0 * r0 - dl * dr == l0 * dr + dl * r0) by (nonlinear_arith);
    let a = l0 * dr + dl * r0;
    let b = x * (dl * dr);
    assert(x * (a + b) == x * a + x * b) by (nonlinear_arith);
}

/// `c0 + x * (c1 + x * c2)` is additive in its coefficients.
proof fn lemma_horner_add(a0: int, a1: int, a2: int, b0: int, b1: int, b2: int, x: int)
    ensures
        (a0 + x * (a1 + x * a2)) + (b0 + x * (b1 + x * b2)) == (a0 + b0) + x * ((a1 + b1) + x * (a2
            + b2)),
{
    assert(x * (a2 + b2) == x * a2 + x * b2) by (nonlinear_arith);
    let a = a1 + x * a2;
    let b = b1 + x * b2;
    assert(x * (a + b) == x * a + x * b) by (nonlinear_arith);
}

/// `s * (c0 + x * (c1 + x * c2))`, with the factor moved inside.
proof fn lemma_horner_scale(s: int, a0: int, a1: int, a2: int, x: int)
    ensures
        s * (a0 + x * (a1 + x * a2)) == s * a0 + x * (s * a1 + x * (s * a2)),
{
    assert(s * (a0 + x * (a1 + x * a2)) == s * a0 + x * (s * a1 + x * (s * a2)))
        by (nonlinear_arith);
}

/// A single product with its first variable set to `x` sums to its quadratic's value.
proof fn lemma_dot_fold(t: ProductView, x: int, n: nat)
    requires
        n <= t.lhs.len() / 2,
        t.lhs.len() == t.rhs.len(),
    ensures
        ({
            let fl = hypercube::fold(t.lhs, x);
            let fr = hypercube::fold(t.rhs, x);
            let s0 = sum::sum_to(|b: int| t.lhs[2 * b] * t.rhs[2 * b], n);
            let s1 = sum::sum_to(|b: int| t.lhs[2 * b + 1] * t.rhs[2 * b + 1], n);
            let s2 = sum::sum_to(
                |b: int| (t.lhs[2 * b + 1] - t.lhs[2 * b]) * (t.rhs[2 * b + 1] - t.rhs[2 * b]),
                n,
            );
            sum::sum_to(|i: int| fl[i] * fr[i], n) == s0 + x * ((s1 - s0 - s2) + x * s2)
        }),
    decreases n,
{
    if n > 0 {
        let p = (n - 1) as nat;
        lemma_dot_fold(t, x, p);
        let l0 = t.lhs[2 * (n - 1)];
        let l1 = t.lhs[2 * (n - 1) + 1];
        let r0 = t.rhs[2 * (n - 1)];
        let r1 = t.rhs[2 * (n - 1) + 1];
        lemma_interpolations(l0, l1, r0, r1, x);
        let s0 = sum::sum_to(|b: int| t.lhs[2 * b] * t.rhs[2 * b], p);
        let s1 = sum::sum_to(|b: int| t.lhs[2 * b + 1] * t.rhs[2 * b + 1], p);
        let s2 = sum::sum_to(
            |b: int| (t.lhs[2 * b + 1] - t.lhs[2 * b]) * (t.rhs[2 * b + 1] - t.rhs[2 * b]),
            p,
        );
        let q = (l1 - l0) * (r1 - r0);
        lemma_horner_add(s0, s1 - s0 - s2, s2, l0 * r0, l1 * r1 - l0 * r0 - q, q, x);
    } else {
        assert(x * (0 + x * 0) == 0) by (nonlinear_arith);
    }
}

/// The products sum to the round polynomial's values at zero and one together.
proof fn lemma_claim_split(ts: Seq<ProductView>, n: nat)
    requires
        of_size(ts, n + 1),
    ensures
        claim(ts) == value_at_zero(ts) + value_at_one(ts),
    decreases ts.len(),
{
    if ts.len() > 0 {
        let t = ts.last();
        hypercube::lemma_pow2_step(n);
        assert(t == ts[ts.len() - 1]);
        assert(of_size(ts.drop_last(), n + 1)) by {
            assert forall|i: int| 0 <= i < ts.len() - 1 implies (#[trigger] ts.drop_last()[i]).lhs.len()
                == pow2(n + 1) && ts.drop_last()[i].rhs.len() == pow2(n + 1) by {
                assert(ts[i].lhs.len() == pow2(n + 1));
            }
        }
        lemma_claim_split(ts.drop_last(), n);
        lemma_dot_split(t);
        let s = t.scalar;
        let a = at_zero(t);
        let b = at_one(t);
        assert(s * (a + b) == s * a + s * b) by (nonlinear_arith);
    }
}

/// The products with their first variable set to `x` sum to the round polynomial's
/// value at `x`.
proof fn lemma_claim_fold(ts: Seq<ProductView>, x: int, n: nat, m: int)
    requires
        m > 0,
        of_size(ts, n + 1),
    ensures
        modular::cong(claim(fold_products(ts, x, m)), round_value(ts, x), m),
    decreases ts.len(),
{
    if ts.len() == 0 {
        assert(x * (0 + x * 0) == 0) by (nonlinear_arith);
        assert(x * (0 - 0 - 0 + x * 0) == 0) by (nonlinear_arith);
    } else {
        let t = ts.last();
        let rest = ts.drop_last();
        hypercube::lemma_pow2_step(n);
        assert(t == ts[ts.len() - 1]);
        assert(of_size(rest, n + 1)) by {
            assert forall|i: int| 0 <= i < rest.len() implies (#[trigger] rest[i]).lhs.len() == pow2(
                n + 1,
            ) && rest[i].rhs.len() == pow2(n + 1) by {
                assert(ts[i].lhs.len() == pow2(n + 1));
            }
        }
        lemma_claim_fold(rest, x, n, m);
        let folded = fold_products(ts, x, m);
        assert(folded.drop_last() =~= fold_products(rest, x, m));
        assert(folded.last() == fold_product(t, x, m));
        let fl = hypercube::fold(t.lhs, x);
        let fr = hypercube::fold(t.rhs, x);
        lemma_dot_fold(t, x, fl.len());
        lemma_reduced_cong(fl, m);
        lemma_reduced_cong(fr, m);
        let gl = fold_reduced(t.lhs, x, m);
        let gr = fold_reduced(t.rhs, x, m);
        sum::lemma_dot_cong(gl, gr, fl, fr, m);
        let s = t.scalar;
        modular::lemma_cong_mul(s, s, sum::dot(gl, gr), sum::dot(fl, fr), m);
        let a0 = at_zero(t);
        let a1 = at_one(t);
        let a2 = square(t);
        assert(sum::dot(fl, fr) == a0 + x * ((a1 - a0 - a2) + x * a2));
        lemma_horner_scale(s, a0, a1 - a0 - a2, a2, x);
        assert(s * (a1 - a0 - a2) == s * a1 - s * a0 - s * a2) by (nonlinear_arith);
        let b0 = value_at_zero(rest);
        let b1 = value_at_one(rest);
        let b2 = quadratic(rest);
        lemma_horner_add(b0, b1 - b0 - b2, b2, s * a0, s * a1 - s * a0 - s * a2, s * a2, x);
        modular::lemma_cong_add(
            claim(fold_products(rest, x, m)),
            round_value(rest, x),
            s * sum::dot(gl, gr),
            s * sum::dot(fl, fr),
            m,
        );
    }
}

/// A reduced sequence is congruent to what it was.
pub proof fn lemma_reduced_cong(s: Seq<int>, m: int)
    requires
        m > 0,
    ensures
        modular::cong_seq(modular::reduce_seq(s, m), s, m),
{
    let r = modular::reduce_seq(s, m);
    assert forall|i: int| 0 <= i < r.len() implies modular::cong(#[trigger] r[i], s[i], m) by {
        modular::lemma_cong_reduced(s[i], m);
    }
}

/// An honest message stands for the round polynomial.
proof fn lemma_message(form: Form, ts: Seq<ProductView>, x: int, n: nat, m: int)
    requires
        m > 2,
        m % 2 == 1,
        of_size(ts, n + 1),
    ensures
        modular::cong(message_sum(form, round_message(form, ts, m)), claim(ts), m),
        modular::cong(message_value(form, round_message(form, ts, m), x, m), round_value(ts, x), m),
        transcript::in_range(round_message(form, ts, m), m),
        round_message(form, ts, m).len() == 3,
{
    let c0 = value_at_zero(ts);
    let e1 = value_at_one(ts);
    let c2 = quadratic(ts);
    let c1 = e1 - c0 - c2;
    let msg = round_message(form, ts, m);
    lemma_claim_split(ts, n);
    modular::lemma_cong_reduced(c0, m);
    modular::lemma_cong_reduced(e1, m);
    modular::lemma_cong_reduced(c1, m);
    modular::lemma_cong_reduced(c2, m);
    match form {
        Form::Evaluations => {
            let e2 = 2 * (c2 + e1) - c0;
            modular::lemma_cong_reduced(e2, m);
            modular::lemma_cong_add(msg[0], c0, msg[1], e1, m);
            let h = (m + 1) / 2;
            assert(2 * h == m + 1);
            modular::lemma_cong_mul(2, 2, msg[1], e1, m);
            modular::lemma_cong_sub(msg[2], e2, 2 * msg[1], 2 * e1, m);
            modular::lemma_cong_add(msg[2] - 2 * msg[1], e2 - 2 * e1, msg[0], c0, m);
            let d = msg[2] - 2 * msg[1] + msg[0];
            assert(e2 - 2 * e1 + c0 == 2 * c2);
            modular::lemma_cong_mul(d, 2 * c2, h, h, m);
            assert((2 * c2) * h == c2 * (2 * h)) by (nonlinear_arith);
            assert(c2 * (m + 1) == c2 + m * c2) by (nonlinear_arith);
            lemma_mod_multiples_vanish(c2, c2, m);
            let k2 = d * h;
            assert(modular::cong(k2, c2, m));
            modular::lemma_cong_sub(msg[1], e1, msg[0], c0, m);
            modular::lemma_cong_sub(msg[1] - msg[0], e1 - c0, k2, c2, m);
            lemma_horner_cong(msg[0], c0, msg[1] - msg[0] - k2, c1, k2, c2, x, m);
        },
        Form::Coefficients => {
            modular::lemma_cong_add(msg[0], c0, msg[1], c1, m);
            modular::lemma_cong_add(msg[0] + msg[1], c0 + c1, msg[2], c2, m);
            modular::lemma_cong_add(msg[0], c0, msg[0] + msg[1] + msg[2], c0 + c1 + c2, m);
            lemma_horner_cong(msg[0], c0, msg[1], c1, msg[2], c2, x, m);
        },
    }
}

/// Horner's rule on congruent coefficients.
proof fn lemma_horner_cong(
    a0: int,
    b0: int,
    a1: int,
    b1: int,
    a2: int,
    b2: int,
    x: int,
    m: int,
)
    requires
        m > 0,
        modular::cong(a0, b0, m),
        modular::cong(a1, b1, m),
        modular::cong(a2, b2, m),
    ensures
        modular::cong(a0 + x * (a1 + x * a2), b0 + x * (b1 + x * b2), m),
{
    modular::lemma_cong_mul(x, x, a2, b2, m);
    modular::lemma_cong_add(a1, b1, x * a2, x * b2, m);
    modular::lemma_cong_mul(x, x, a1 + x * a2, b1 + x * b2, m);
    modular::lemma_cong_add(a0, b0, x * (a1 + x * a2), x * (b1 + x * b2), m);
}

/// The sum of the scaled products of the factors' extensions at `point`.
pub open spec fn value_at(ts: Seq<ProductView>, point: Seq<int>) -> int
    decreases ts.len(),
{
    if ts.len() == 0 {
        0
    } else {
        value_at(ts.drop_last(), point) + ts.last().scalar * (hypercube::mle(ts.last().lhs, point)
            * hypercube::mle(ts.last().rhs, point))
    }
}

/// The prover's rounds only ever append.
pub proof fn lemma_prove_rounds_appends<C>(
    form: Form,
    mo: Model<C>,
    st: State<C>,
    ts: Seq<ProductView>,
    total: int,
    n: nat,
    m: int,
)
    requires
        prove_rounds(form, mo, st, ts, total, n, m) is Ok,
    ensures
        transcript::starts_with(prove_rounds(form, mo, st, ts, total, n, m)->Ok_0.state.proof, st),
    decreases n,
{
    if n == 0 {
        assert(st.proof.subrange(0, st.proof.len() as int) =~= st.proof);
    } else {
        lemma_prove_rounds_appends(form, mo, st, ts, total, (n - 1) as nat, m);
        let p = prove_rounds(form, mo, st, ts, total, (n - 1) as nat, m)->Ok_0;
        let q = prove_rounds(form, mo, st, ts, total, n, m)->Ok_0;
        transcript::lemma_write_fields_appends(mo, p.state, round_message(form, p.products, m));
        transcript::lemma_starts_trans(q.state.proof, st, p.state);
    }
}

/// Proving succeeds on a transcript that refuses nothing.
pub proof fn lemma_prove_rounds_succeeds<C>(
    form: Form,
    mo: Model<C>,
    st: State<C>,
    ts: Seq<ProductView>,
    total: int,
    n: nat,
    m: int,
)
    requires
        transcript::never_refuses(mo),
    ensures
        prove_rounds(form, mo, st, ts, total, n, m) is Ok,
    decreases n,
{
    if n > 0 {
        lemma_prove_rounds_succeeds(form, mo, st, ts, total, (n - 1) as nat, m);
        let p = prove_rounds(form, mo, st, ts, total, (n - 1) as nat, m)->Ok_0;
        transcript::lemma_write_fields_succeeds(mo, p.state, round_message(form, p.products, m));
    }
}

/// The sizes of the products after some rounds, and their extensions.
proof fn lemma_rounds_mle<C>(
    form: Form,
    mo: Model<C>,
    st: State<C>,
    ts: Seq<ProductView>,
    total: int,
    k: nat,
    n: nat,
    m: int,
    i: int,
    rest: Seq<int>,
)
    requires
        m > 0,
        k <= n,
        of_size(ts, n),
        0 <= i < ts.len(),
        prove_rounds(form, mo, st, ts, total, k, m) is Ok,
    ensures
        ({
            let p = prove_rounds(form, mo, st, ts, total, k, m)->Ok_0;
            &&& p.challenges.len() == k
            &&& p.products.len() == ts.len()
            &&& of_size(p.products, (n - k) as nat)
            &&& p.products[i].scalar == ts[i].scalar
            &&& modular::cong(
                hypercube::mle(p.products[i].lhs, rest),
                hypercube::mle(ts[i].lhs, p.challenges + rest),
                m,
            )
            &&& modular::cong(
                hypercube::mle(p.products[i].rhs, rest),
                hypercube::mle(ts[i].rhs, p.challenges + rest),
                m,
            )
        }),
    decreases k,
{
    let q = prove_rounds(form, mo, st, ts, total, k, m)->Ok_0;
    if k == 0 {
        assert(q.challenges + rest =~= rest);
    } else {
        let p = prove_rounds(form, mo, st, ts, total, (k - 1) as nat, m)->Ok_0;
        let c = q.challenges.last();
        let longer = seq![c] + rest;
        lemma_rounds_mle(form, mo, st, ts, total, (k - 1) as nat, n, m, i, longer);
        assert(q.challenges =~= p.challenges.push(c));
        assert(q.challenges + rest =~= p.challenges + longer);
        lemma_fold_size(p.products, c, (n - k) as nat, m);
        hypercube::lemma_pow2_step((n - k) as nat);
        let t = p.products[i];
        assert(t.lhs.len() == pow2((n - k + 1) as nat));
        assert(longer.drop_first() =~= rest);
        hypercube::lemma_mle_fold(t.lhs, longer);
        hypercube::lemma_mle_fold(t.rhs, longer);
        lemma_reduced_cong(hypercube::fold(t.lhs, c), m);
        lemma_reduced_cong(hypercube::fold(t.rhs, c), m);
        assert(modular::cong_seq(rest, rest, m));
        hypercube::lemma_mle_cong(q.products[i].lhs, hypercube::fold(t.lhs, c), rest, rest, m);
        hypercube::lemma_mle_cong(q.products[i].rhs, hypercube::fold(t.rhs, c), rest, rest, m);
    }
}

/// Checking some messages does not depend on the later ones.
proof fn lemma_check_rounds_push(
    form: Form,
    msgs: Seq<Seq<int>>,
    cs: Seq<int>,
    msg: Seq<int>,
    c: int,
    total: int,
    n: nat,
    m: int,
)
    requires
        n <= msgs.len(),
        n <= cs.len(),
    ensures
        check_rounds(form, msgs.push(msg), cs.push(c), total, n, m) == check_rounds(
            form,
            msgs,
            cs,
            total,
            n,
            m,
        ),
    decreases n,
{
    if n > 0 {
        lemma_check_rounds_push(form, msgs, cs, msg, c, total, (n - 1) as nat, m);
    }
}

/// The verifier after some rounds of an honest proof.
proof fn lemma_honest_rounds<C>(
    form: Form,
    mo: Model<C>,
    w: State<C>,
    r: State<C>,
    ts: Seq<ProductView>,
    total: int,
    k: nat,
    n: nat,
    m: int,
    whole: Seq<u8>,
)
    requires
        m > 2,
        m % 2 == 1,
        k <= n,
        transcript::round_trips(mo, m),
        of_size(ts, n),
        total == claim(ts) % m,
        prove_rounds(form, mo, w, ts, total, k, m) is Ok,
        transcript::mirrors(w, r, whole),
        transcript::starts_with(whole, prove_rounds(form, mo, w, ts, total, k, m)->Ok_0.state),
    ensures
        ({
            let p = prove_rounds(form, mo, w, ts, total, k, m)->Ok_0;
            &&& of_size(p.products, (n - k) as nat)
            &&& p.sum == claim(p.products) % m
            &&& read_rounds(mo, r, k) matches Ok((s, msgs, cs)) && {
                &&& cs == p.challenges
                &&& cs.len() == k
                &&& msgs.len() == k
                &&& transcript::mirrors(p.state, s, whole)
                &&& check_rounds(form, msgs, cs, total, k, m) == Ok::<int, ErrorView>(p.sum)
            }
        }),
    decreases k,
{
    if k > 0 {
        let j = (k - 1) as nat;
        let p = prove_rounds(form, mo, w, ts, total, j, m)->Ok_0;
        let q = prove_rounds(form, mo, w, ts, total, k, m)->Ok_0;
        let msg = round_message(form, p.products, m);
        let sent = transcript::write_fields(mo, p.state, msg)->Ok_0;
        let (c, after) = transcript::squeeze(mo, sent);
        transcript::lemma_write_fields_appends(mo, p.state, msg);
        transcript::lemma_starts_trans(whole, p.state, sent);
        lemma_honest_rounds(form, mo, w, r, ts, total, j, n, m, whole);
        let (s, msgs, cs) = read_rounds(mo, r, j)->Ok_0;
        let left = (n - k) as nat;
        assert(of_size(p.products, left + 1));
        lemma_message(form, p.products, c, left, m);
        transcript::lemma_fields_read_back(mo, m, p.state, s, msg, whole);
        lemma_check_rounds_push(form, msgs, cs, msg, c, total, j, m);
        lemma_claim_fold(p.products, c, left, m);
        lemma_fold_size(p.products, c, left, m);
        assert(msgs.push(msg)[k - 1] == msg);
        assert(cs.push(c)[k - 1] == c);
    }
}

/// The values left at the end are the products' values at the challenges.
proof fn lemma_claim_single(
    ts: Seq<ProductView>,
    us: Seq<ProductView>,
    point: Seq<int>,
    m: int,
)
    requires
        m > 0,
        ts.len() == us.len(),
        of_size(us, 0),
        forall|i: int|
            0 <= i < us.len() ==> {
                &&& (#[trigger] us[i]).scalar == ts[i].scalar
                &&& modular::cong(
                    hypercube::mle(us[i].lhs, Seq::empty()),
                    hypercube::mle(ts[i].lhs, point),
                    m,
                )
                &&& modular::cong(
                    hypercube::mle(us[i].rhs, Seq::empty()),
                    hypercube::mle(ts[i].rhs, point),
                    m,
                )
            },
    ensures
        modular::cong(claim(us), value_at(ts, point), m),
    decreases ts.len(),
{
    if ts.len() > 0 {
        let t = ts.last();
        let u = us.last();
        assert(u == us[us.len() - 1]);
        assert(of_size(us.drop_last(), 0)) by {
            assert forall|i: int| 0 <= i < us.len() - 1 implies (#[trigger] us.drop_last()[i]).lhs.len()
                == pow2(0) && us.drop_last()[i].rhs.len() == pow2(0) by {
                assert(us[i].lhs.len() == pow2(0));
            }
        }
        assert forall|i: int| 0 <= i < us.drop_last().len() implies {
            &&& (#[trigger] us.drop_last()[i]).scalar == ts.drop_last()[i].scalar
            &&& modular::cong(
                hypercube::mle(us.drop_last()[i].lhs, Seq::empty()),
                hypercube::mle(ts.drop_last()[i].lhs, point),
                m,
            )
            &&& modular::cong(
                hypercube::mle(us.drop_last()[i].rhs, Seq::empty()),
                hypercube::mle(ts.drop_last()[i].rhs, point),
                m,
            )
        } by {
            assert(us[i].scalar == ts[i].scalar);
        }
        lemma_claim_single(ts.drop_last(), us.drop_last(), point, m);
        hypercube::lemma_pow2_step(0);
        let none = Seq::<int>::empty();
        hypercube::lemma_mle_single(u.lhs, none);
        hypercube::lemma_mle_single(u.rhs, none);
        reveal_with_fuel(sum::sum_to, 2);
        assert(sum::dot(u.lhs, u.rhs) == u.lhs[0] * u.rhs[0]);
        let a = hypercube::mle(t.lhs, point);
        let b = hypercube::mle(t.rhs, point);
        modular::lemma_cong_mul(u.lhs[0], a, u.rhs[0], b, m);
        modular::lemma_cong_mul(u.scalar, u.scalar, u.lhs[0] * u.rhs[0], a * b, m);
        modular::lemma_cong_add(
            claim(us.drop_last()),
            value_at(ts.drop_last(), point),
            u.scalar * (u.lhs[0] * u.rhs[0]),
            u.scalar * (a * b),
            m,
        );
    }
}

/// Completeness: whoever reads an honest proof of a true claim accepts it, ends up with
/// the prover's challenges, and is left with the products' value at the challenges.
pub proof fn law_honest_proof_is_accepted<C>(
    form: Form,
    mo: Model<C>,
    w: State<C>,
    r: State<C>,
    ts: Seq<ProductView>,
    n: nat,
    m: int,
    whole: Seq<u8>,
)
    requires
        m > 2,
        m % 2 == 1,
        transcript::round_trips(mo, m),
        of_size(ts, n),
        prove_rounds(form, mo, w, ts, claim(ts) % m, n, m) is Ok,
        transcript::mirrors(w, r, whole),
        transcript::starts_with(
            whole,
            prove_rounds(form, mo, w, ts, claim(ts) % m, n, m)->Ok_0.state,
        ),
    ensures
        ({
            let p = prove_rounds(form, mo, w, ts, claim(ts) % m, n, m)->Ok_0;
            &&& p.challenges.len() == n
            &&& p.sum == value_at(ts, p.challenges) % m
            &&& verify_rounds(form, mo, r, claim(ts) % m, n, m) matches Ok((s, v, cs)) && {
                &&& v == p.sum
                &&& cs == p.challenges
                &&& transcript::mirrors(p.state, s, whole)
            }
        }),
{
    let total = claim(ts) % m;
    let p = prove_rounds(form, mo, w, ts, total, n, m)->Ok_0;
    lemma_honest_rounds(form, mo, w, r, ts, total, n, n, m, whole);
    let none = Seq::<int>::empty();
    assert(p.challenges + none =~= p.challenges);
    lemma_rounds_len(form, mo, w, ts, total, n, m);
    assert forall|i: int| 0 <= i < p.products.len() implies {
        &&& (#[trigger] p.products[i]).scalar == ts[i].scalar
        &&& modular::cong(
            hypercube::mle(p.products[i].lhs, none),
            hypercube::mle(ts[i].lhs, p.challenges),
            m,
        )
        &&& modular::cong(
            hypercube::mle(p.products[i].rhs, none),
            hypercube::mle(ts[i].rhs, p.challenges),
            m,
        )
    } by {
        lemma_rounds_mle(form, mo, w, ts, total, n, n, m, i, none);
    }
    lemma_claim_single(ts, p.products, p.challenges, m);
}

/// The rounds' first message stands at the beginning of what they write.
proof fn lemma_first_message_leads<C>(
    form: Form,
    mo: Model<C>,
    w: State<C>,
    ts: Seq<ProductView>,
    total: int,
    n: nat,
    m: int,
)
    requires
        n > 0,
        prove_rounds(form, mo, w, ts, total, n, m) is Ok,
    ensures
        transcript::write_fields(mo, w, round_message(form, ts, m)) matches Ok(s)
            && transcript::starts_with(
            prove_rounds(form, mo, w, ts, total, n, m)->Ok_0.state.proof,
            s,
        ),
    decreases n,
{
    let q = prove_rounds(form, mo, w, ts, total, n, m)->Ok_0;
    if n == 1 {
        reveal_with_fuel(prove_rounds, 2);
        let s = transcript::write_fields(mo, w, round_message(form, ts, m))->Ok_0;
        assert(q.state.proof == s.proof);
        assert(s.proof.subrange(0, s.proof.len() as int) =~= s.proof);
    } else {
        lemma_first_message_leads(form, mo, w, ts, total, (n - 1) as nat, m);
        let p = prove_rounds(form, mo, w, ts, total, (n - 1) as nat, m)->Ok_0;
        let s = transcript::write_fields(mo, w, round_message(form, ts, m))->Ok_0;
        transcript::lemma_write_fields_appends(mo, p.state, round_message(form, p.products, m));
        transcript::lemma_starts_trans(q.state.proof, s, p.state);
    }
}

/// Reading on does not change the first message.
proof fn lemma_first_message_stays<C>(mo: Model<C>, st: State<C>, n: nat)
    requires
        n > 0,
        read_rounds(mo, st, n) is Ok,
    ensures
        transcript::read_fields(mo, st, 3) matches Ok((msg, _)) && {
            let msgs = read_rounds(mo, st, n)->Ok_0.1;
            msgs.len() == n && msgs[0] == msg
        },
    decreases n,
{
    if n == 1 {
        reveal_with_fuel(read_rounds, 2);
    } else {
        lemma_first_message_stays(mo, st, (n - 1) as nat);
    }
}

/// Whoever reads the messages of an honest proof, but was told another sum, refuses them,
/// whatever challenges they draw.
pub proof fn law_another_sum_is_refused<C>(
    form: Form,
    mo: Model<C>,
    w: State<C>,
    r: State<C>,
    ts: Seq<ProductView>,
    total: int,
    n: nat,
    m: int,
    whole: Seq<u8>,
)
    requires
        m > 2,
        m % 2 == 1,
        n > 0,
        transcript::round_trips(mo, m),
        of_size(ts, n),
        prove_rounds(form, mo, w, ts, claim(ts) % m, n, m) is Ok,
        w.proof + r.proof == whole,
        transcript::starts_with(
            whole,
            prove_rounds(form, mo, w, ts, claim(ts) % m, n, m)->Ok_0.state,
        ),
        total != claim(ts) % m,
    ensures
        verify_rounds(form, mo, r, total, n, m) is Err,
{
    let honest = claim(ts) % m;
    let p = prove_rounds(form, mo, w, ts, honest, n, m)->Ok_0;
    let msg = round_message(form, ts, m);
    lemma_message(form, ts, 0, (n - 1) as nat, m);
    lemma_first_message_leads(form, mo, w, ts, honest, n, m);
    let s = transcript::write_fields(mo, w, msg)->Ok_0;
    transcript::lemma_starts_trans(whole, s, p.state);
    let v = State { events: r.events, proof: w.proof };
    transcript::lemma_write_fields_any_events(mo, w, v, msg);
    transcript::lemma_fields_read_back(mo, m, v, r, msg, whole);
    if read_rounds(mo, r, n) is Ok {
        lemma_first_message_stays(mo, r, n);
        let (_, msgs, cs) = read_rounds(mo, r, n)->Ok_0;
        reveal_with_fuel(check_rounds, 2);
        assert(check_rounds(form, msgs, cs, total, 1, m) is Err);
        lemma_check_rounds_prefix(form, msgs, cs, total, 1, n, m);
    }
}

/// The number of products never changes.
proof fn lemma_rounds_len<C>(
    form: Form,
    mo: Model<C>,
    st: State<C>,
    ts: Seq<ProductView>,
    total: int,
    n: nat,
    m: int,
)
    requires
        prove_rounds(form, mo, st, ts, total, n, m) is Ok,
    ensures
        prove_rounds(form, mo, st, ts, total, n, m)->Ok_0.products.len() == ts.len(),
    decreases n,
{
    if n > 0 {
        lemma_rounds_len(form, mo, st, ts, total, (n - 1) as nat, m);
    }
}

/// There is one challenge per round.
pub proof fn lemma_challenges_len<C>(
    form: Form,
    mo: Model<C>,
    st: State<C>,
    ts: Seq<ProductView>,
    total: int,
    n: nat,
    m: int,
)
    requires
        prove_rounds(form, mo, st, ts, total, n, m) is Ok,
    ensures
        prove_rounds(form, mo, st, ts, total, n, m)->Ok_0.challenges.len() == n,
    decreases n,
{
    if n > 0 {
        lemma_challenges_len(form, mo, st, ts, total, (n - 1) as nat, m);
    }
}

/// There is one challenge per round.
pub proof fn lemma_read_challenges_len<C>(mo: Model<C>, st: State<C>, n: nat)
    ensures
        read_rounds(mo, st, n) matches Ok((s, msgs, cs)) ==> cs.len() == n,
    decreases n,
{
    if n > 0 {
        lemma_read_challenges_len(mo, st, (n - 1) as nat);
    }
}

} // verus!
