//! What an honest common opening comes to.

use crate::pcs;
use crate::pcs::multilinear as claims;
use crate::pcs::multilinear::additive;
use crate::pcs::{Additive, EvaluationView, PolynomialCommitmentScheme, ShiftEvaluationView};
use crate::piop::sum_check;
use crate::piop::sum_check::{Form, ProductView};
use crate::poly::hypercube;
use crate::util::field::PrimeField;
use crate::util::integer;
use crate::util::modular;
use crate::util::sum;
use crate::util::transcript;
use crate::util::transcript::{Model, State};
use vstd::arithmetic::power2::pow2;
use vstd::prelude::*;

verus! {

/// The extension of a combination of polynomials is the combination of the extensions.
pub proof fn law_weighted_extension(
    polys: Seq<Seq<int>>,
    picks: Seq<int>,
    weights: Seq<int>,
    size: nat,
    z: Seq<int>,
    m: int,
)
    requires
        m > 0,
        forall|i: int| 0 <= i < picks.len() ==> polys[#[trigger] picks[i]].len() == size,
    ensures
        modular::cong(
            hypercube::mle(additive::weighted(polys, picks, weights, size, m), z),
            sum::sum_to(|i: int| weights[i] * hypercube::mle(polys[picks[i]], z), picks.len()),
            m,
        ),
{
    let n = picks.len();
    let all = additive::weighted(polys, picks, weights, size, m);
    let e = |b: int| hypercube::eq_at(b, z);
    let f = |i: int| |b: int| (weights[i] * polys[picks[i]][b]) * e(b);
    let raw = Seq::new(
        size,
        |b: int| sum::sum_to(|i: int| weights[i] * polys[picks[i]][b], n),
    );
    assert(all =~= modular::reduce_seq(raw, m));
    sum_check::lemma_reduced_cong(raw, m);
    assert(modular::cong_seq(z, z, m));
    hypercube::lemma_mle_cong(all, raw, z, z, m);
    let left = |b: int| raw[b] * hypercube::eq_at(b, z);
    let left_sum = |b: int| sum::sum_to(|i: int| f(i)(b), n);
    assert forall|b: int| 0 <= b < size implies #[trigger] left(b) == left_sum(b) by {
        let g = |i: int| weights[i] * polys[picks[i]][b];
        let h = |i: int| f(i)(b);
        assert forall|i: int| 0 <= i < n implies #[trigger] h(i) == e(b) * g(i) by {
            let a = weights[i] * polys[picks[i]][b];
            assert(a * e(b) == e(b) * a) by (nonlinear_arith);
        }
        sum::lemma_sum_scale(g, h, e(b), n);
        sum::lemma_sum_eq(h, |i: int| f(i)(b), n);
        let s = sum::sum_to(g, n);
        assert(s * e(b) == e(b) * s) by (nonlinear_arith);
        assert(raw[b] == s);
    }
    sum::lemma_sum_eq(left, left_sum, size);
    sum::lemma_sum_swap(f, n, size);
    let right = |i: int| sum::sum_to(|b: int| f(i)(b), size);
    let goal = |i: int| weights[i] * hypercube::mle(polys[picks[i]], z);
    assert forall|i: int| 0 <= i < n implies #[trigger] right(i) == goal(i) by {
        let p = polys[picks[i]];
        assert(p.len() == size);
        let w = weights[i];
        let g = |b: int| p[b] * hypercube::eq_at(b, z);
        let h = |b: int| f(i)(b);
        assert forall|b: int| 0 <= b < size implies #[trigger] h(b) == w * g(b) by {
            let x = p[b];
            let y = e(b);
            assert((w * x) * y == w * (x * y)) by (nonlinear_arith);
        }
        sum::lemma_sum_scale(g, h, w, size);
        sum::lemma_sum_eq(h, |b: int| f(i)(b), size);
    }
    sum::lemma_sum_eq(right, goal, n);
}

/// The extension of `x -> eq(x, y)` is `eq` of two points.
pub proof fn law_eq_extension(x: Seq<int>, y: Seq<int>)
    requires
        x.len() == y.len(),
    ensures
        hypercube::mle(hypercube::tensor(y), x) == additive::eq_points(x, y),
    decreases x.len(),
{
    hypercube::lemma_pow2_step(0);
    let t = hypercube::tensor(y);
    if x.len() == 0 {
        hypercube::lemma_mle_single(t, x);
    } else {
        let a = x.last();
        let b = y.last();
        let xs = x.drop_last();
        let ys = y.drop_last();
        law_eq_extension(xs, ys);
        hypercube::lemma_mle_fold_last(t, x);
        hypercube::lemma_pow2_step(ys.len());
        let h = pow2(ys.len());
        assert(y =~= ys.push(b));
        let folded = hypercube::fold_last(t, a);
        let c = a * b + (1 - a) * (1 - b);
        let inner = hypercube::tensor(ys);
        let f = |i: int| inner[i] * hypercube::eq_at(i, xs);
        let g = |i: int| folded[i] * hypercube::eq_at(i, xs);
        assert forall|i: int| 0 <= i < h implies #[trigger] g(i) == c * f(i) by {
            hypercube::lemma_eq_at_push(i, ys, b);
            let e = hypercube::eq_at(i, ys);
            let w = hypercube::eq_at(i, xs);
            let lo = e * (1 - b);
            let hi = e * b;
            assert(folded[i] == lo + a * (hi - lo));
            lemma_eq_step(a, b, e);
            assert((c * e) * w == c * (e * w)) by (nonlinear_arith);
        }
        sum::lemma_sum_scale(f, g, c, h);
        let s = additive::eq_points(xs, ys);
        assert(c * s == s * c) by (nonlinear_arith);
    }
}

/// One coordinate of `eq`.
proof fn lemma_eq_step(a: int, b: int, e: int)
    ensures
        e * (1 - b) + a * (e * b - e * (1 - b)) == (a * b + (1 - a) * (1 - b)) * e,
{
    let p = e * b;
    assert(e * (1 - b) == e - p) by (nonlinear_arith)
        requires
            p == e * b,
    ;
    assert(a * (p - (e - p)) == 2 * (a * p) - a * e) by (nonlinear_arith);
    assert((1 - a) * (1 - b) == 1 - a - b + a * b) by (nonlinear_arith);
    assert(a * p == (a * b) * e) by (nonlinear_arith)
        requires
            p == e * b,
    ;
    let q = a * b;
    assert((q + (1 - a - b + q)) * e == 2 * (q * e) + e - a * e - b * e) by (nonlinear_arith);
    assert(b * e == e * b) by (nonlinear_arith);
}

/// What products sum to, as a sum over their indices.
proof fn lemma_claim_as_sum(ts: Seq<ProductView>)
    ensures
        sum_check::claim(ts) == sum::sum_to(
            |p: int| ts[p].scalar * sum::dot(ts[p].lhs, ts[p].rhs),
            ts.len(),
        ),
    decreases ts.len(),
{
    if ts.len() > 0 {
        let init = ts.drop_last();
        lemma_claim_as_sum(init);
        let f = |p: int| ts[p].scalar * sum::dot(ts[p].lhs, ts[p].rhs);
        let g = |p: int| init[p].scalar * sum::dot(init[p].lhs, init[p].rhs);
        assert forall|p: int| 0 <= p < init.len() implies #[trigger] f(p) == g(p) by {}
        sum::lemma_sum_eq(f, g, init.len());
    }
}

/// The value of products at a point, as a sum over their indices.
proof fn lemma_value_as_sum(ts: Seq<ProductView>, u: Seq<int>)
    ensures
        sum_check::value_at(ts, u) == sum::sum_to(
            |p: int|
                ts[p].scalar * (hypercube::mle(ts[p].lhs, u) * hypercube::mle(ts[p].rhs, u)),
            ts.len(),
        ),
    decreases ts.len(),
{
    if ts.len() > 0 {
        let init = ts.drop_last();
        lemma_value_as_sum(init, u);
        let f = |p: int|
            ts[p].scalar * (hypercube::mle(ts[p].lhs, u) * hypercube::mle(ts[p].rhs, u));
        let g = |p: int|
            init[p].scalar * (hypercube::mle(init[p].lhs, u) * hypercube::mle(init[p].rhs, u));
        assert forall|p: int| 0 <= p < init.len() implies #[trigger] f(p) == g(p) by {}
        sum::lemma_sum_eq(f, g, init.len());
    }
}

/// The claims state the values that their polynomials take at their points.
pub open spec fn claims_hold(
    polys: Seq<Seq<int>>,
    points: Seq<Seq<int>>,
    evals: Seq<EvaluationView>,
    m: int,
) -> bool {
    forall|i: int|
        0 <= i < evals.len() ==> (#[trigger] evals[i]).value == hypercube::mle(
            polys[evals[i].poly],
            points[evals[i].point],
        ) % m
}

/// True claims sum to what the sum-check is run on.
proof fn lemma_total(
    num_vars: nat,
    polys: Seq<Seq<int>>,
    points: Seq<Seq<int>>,
    evals: Seq<EvaluationView>,
    t: Seq<int>,
    m: int,
)
    requires
        m > 0,
        additive::well_posed(num_vars, polys, points, evals),
        claims_hold(polys, points, evals, m),
    ensures
        sum_check::claim(
            additive::merged_products(polys, points, evals, t, pow2(num_vars), m),
        ) % m == additive::weighted_value(
            additive::values_of(evals),
            additive::factors(t, evals.len(), m),
            m,
        ),
{
    let size = pow2(num_vars);
    let ts = additive::merged_products(polys, points, evals, t, size, m);
    let picks = additive::picked(evals);
    let n = evals.len();
    let k = points.len();
    lemma_claim_as_sum(ts);
    let claims_sum = |p: int| ts[p].scalar * sum::dot(ts[p].lhs, ts[p].rhs);
    let f = |i: int|
        |p: int|
            additive::masked(evals, t, p, m)[i] * hypercube::mle(polys[picks[i]], points[p]);
    let outer = |p: int| sum::sum_to(|i: int| f(i)(p), n);
    assert forall|i: int| 0 <= i < picks.len() implies polys[#[trigger] picks[i]].len() == size by {
        assert(0 <= evals[i].poly < polys.len());
    }
    assert forall|p: int| 0 <= p < k implies modular::cong(#[trigger] claims_sum(p), outer(p), m) by {
        assert(points[p].len() == num_vars);
        let all = additive::merged(polys, evals, t, p, size, m);
        let eq = hypercube::tensor(points[p]);
        sum_check::lemma_reduced_cong(eq, m);
        assert(modular::cong_seq(all, all, m));
        sum::lemma_dot_cong(all, modular::reduce_seq(eq, m), all, eq, m);
        let a = |b: int| all[b] * eq[b];
        let c = |b: int| all[b] * hypercube::eq_at(b, points[p]);
        assert forall|b: int| 0 <= b < size implies #[trigger] a(b) == c(b) by {}
        sum::lemma_sum_eq(a, c, size);
        let weights = additive::masked(evals, t, p, m);
        law_weighted_extension(polys, picks, weights, size, points[p], m);
        let g = |i: int| weights[i] * hypercube::mle(polys[picks[i]], points[p]);
        let h = |i: int| f(i)(p);
        assert forall|i: int| 0 <= i < n implies #[trigger] g(i) == h(i) by {}
        sum::lemma_sum_eq(g, h, n);
        let d = sum::dot(ts[p].lhs, ts[p].rhs);
        assert(1 * d == d);
    }
    sum::lemma_sum_cong(claims_sum, outer, k, m);
    sum::lemma_sum_swap(f, n, k);
    let by_claim = |i: int| sum::sum_to(|p: int| f(i)(p), k);
    let values = additive::values_of(evals);
    let fs = additive::factors(t, n, m);
    let goal = |i: int| values[i] * fs[i];
    assert forall|i: int| 0 <= i < n implies modular::cong(#[trigger] by_claim(i), goal(i), m) by {
        assert(0 <= evals[i].point < points.len());
        let h = |p: int| f(i)(p);
        let q = evals[i].point;
        assert forall|p: int| 0 <= p < k && p != q implies #[trigger] h(p) == 0 by {
            let v = hypercube::mle(polys[picks[i]], points[p]);
            assert(0 * v == 0);
        }
        sum::lemma_sum_single(h, q, k);
        sum::lemma_sum_eq(h, |p: int| f(i)(p), k);
        let v = hypercube::mle(polys[picks[i]], points[q]);
        modular::lemma_cong_reduced(v, m);
        modular::lemma_cong_mul(fs[i], fs[i], v, v % m, m);
        let w = v % m;
        assert(fs[i] * w == w * fs[i]) by (nonlinear_arith);
    }
    sum::lemma_sum_cong(by_claim, goal, n, m);
}

/// The polynomial that is opened in the end takes, at the challenges, the value that the
/// sum-check leaves.
proof fn lemma_final(
    num_vars: nat,
    polys: Seq<Seq<int>>,
    points: Seq<Seq<int>>,
    evals: Seq<EvaluationView>,
    t: Seq<int>,
    u: Seq<int>,
    m: int,
)
    requires
        m > 0,
        additive::well_posed(num_vars, polys, points, evals),
        u.len() == num_vars,
    ensures
        sum_check::value_at(
            additive::merged_products(polys, points, evals, t, pow2(num_vars), m),
            u,
        ) % m == hypercube::mle(
            additive::g_prime(polys, points, evals, t, u, pow2(num_vars), m),
            u,
        ) % m,
{
    let size = pow2(num_vars);
    let k = points.len();
    let ts = additive::merged_products(polys, points, evals, t, size, m);
    let g = additive::g_prime(polys, points, evals, t, u, size, m);
    let ms = Seq::new(k, |p: int| additive::merged(polys, evals, t, p, size, m));
    let order = Seq::new(k, |p: int| p);
    let pf = additive::point_factors(u, points, m);
    let w = additive::weighted(ms, order, pf, size, m);
    assert(w =~= g) by {
        assert forall|b: int| 0 <= b < size implies w[b] == g[b] by {
            let f = |i: int| pf[i] * ms[order[i]][b];
            let h = |p: int|
                additive::point_factors(u, points, m)[p] * additive::merged(
                    polys,
                    evals,
                    t,
                    p,
                    size,
                    m,
                )[b];
            assert forall|i: int| 0 <= i < k implies #[trigger] f(i) == h(i) by {}
            sum::lemma_sum_eq(f, h, k);
        }
    }
    law_weighted_extension(ms, order, pf, size, u, m);
    lemma_value_as_sum(ts, u);
    let a = |p: int| ts[p].scalar * (hypercube::mle(ts[p].lhs, u) * hypercube::mle(ts[p].rhs, u));
    let b = |i: int| pf[i] * hypercube::mle(ms[order[i]], u);
    assert forall|p: int| 0 <= p < k implies modular::cong(#[trigger] a(p), b(p), m) by {
        assert(points[p].len() == num_vars);
        let eq = hypercube::tensor(points[p]);
        sum_check::lemma_reduced_cong(eq, m);
        assert(modular::cong_seq(u, u, m));
        hypercube::lemma_mle_cong(modular::reduce_seq(eq, m), eq, u, u, m);
        law_eq_extension(u, points[p]);
        let e = additive::eq_points(u, points[p]);
        let r = hypercube::mle(ts[p].rhs, u);
        let l = hypercube::mle(ts[p].lhs, u);
        modular::lemma_cong_reduced(e, m);
        assert(modular::cong(r, pf[p], m));
        modular::lemma_cong_mul(l, l, r, pf[p], m);
        let x = l * r;
        assert(1 * x == x);
        assert(l * pf[p] == pf[p] * l) by (nonlinear_arith);
    }
    sum::lemma_sum_cong(a, b, k, m);
}

/// If all entries are as expected, none is other.
proof fn lemma_all_as_expected(s: Seq<nat>, expected: nat)
    requires
        forall|i: int| 0 <= i < s.len() ==> #[trigger] s[i] == expected,
    ensures
        claims::first_other(s, expected) is None,
    decreases s.len(),
{
    if s.len() > 0 {
        assert(s[0] == expected);
        assert forall|i: int| 0 <= i < s.drop_first().len() implies #[trigger] s.drop_first()[i]
            == expected by {
            assert(s[i + 1] == expected);
        }
        lemma_all_as_expected(s.drop_first(), expected);
    }
}

/// Completeness: true claims that are opened together are accepted together, if the
/// combination of their commitments, with the factors of the verifier, is a commitment
/// that the combination of their polynomials opens honestly against.
pub proof fn law_honest_batch_is_accepted<F: PrimeField, Pcs: PolynomialCommitmentScheme<F>>(
    pp: Pcs::ProverParam,
    vp: Pcs::VerifierParam,
    num_vars: nat,
    polys: Seq<Seq<int>>,
    comms: Seq<Pcs::Commitment>,
    points: Seq<Seq<int>>,
    evals: Seq<EvaluationView>,
    mo: Model<Pcs::CommitmentChunk>,
    w: State<Pcs::CommitmentChunk>,
    r: State<Pcs::CommitmentChunk>,
    whole: Seq<u8>,
) where Pcs::Commitment: Additive<F>
    requires
        points.len() > 0,
        additive::well_posed(num_vars, polys, points, evals),
        claims_hold(polys, points, evals, F::modulus()),
        transcript::round_trips(mo, F::modulus()),
        transcript::mirrors(w, r, whole),
        ({
            let m = F::modulus();
            let size = pow2(num_vars);
            let opened = additive::batch_open_spec::<F, Pcs>(
                pp,
                num_vars,
                polys,
                points,
                evals,
                mo,
                w,
            );
            let (t, s) = additive::draw_factors(mo, w, evals.len());
            let u = sum_check::prove_rounds(
                Form::Coefficients,
                mo,
                s,
                additive::merged_products(polys, points, evals, t, size, m),
                additive::weighted_value(
                    additive::values_of(evals),
                    additive::factors(t, evals.len(), m),
                    m,
                ),
                num_vars,
                m,
            )->Ok_0.challenges;
            &&& opened is Ok
            &&& transcript::starts_with(whole, opened->Ok_0)
            &&& pcs::opens_honestly::<F, Pcs>(
                pp,
                vp,
                Pcs::no_commitment(),
                Pcs::Commitment::msm_spec(
                    additive::comm_factors(points, evals, t, u, m),
                    additive::picked_comms(comms, additive::picked(evals)),
                ),
                additive::g_prime(polys, points, evals, t, u, size, m),
                num_vars,
                mo,
            )
        }),
    ensures
        additive::batch_verify_spec::<F, Pcs>(vp, num_vars, comms, points, evals, mo, r) matches Ok(s)
            && transcript::mirrors(
            additive::batch_open_spec::<F, Pcs>(pp, num_vars, polys, points, evals, mo, w)->Ok_0,
            s,
            whole,
        ),
{
    let m = F::modulus();
    F::modulus_is_odd();
    let size = pow2(num_vars);
    let done = additive::batch_open_spec::<F, Pcs>(pp, num_vars, polys, points, evals, mo, w)->Ok_0;
    let (t, s) = additive::draw_factors(mo, w, evals.len());
    let ts = additive::merged_products(polys, points, evals, t, size, m);
    let total = additive::weighted_value(
        additive::values_of(evals),
        additive::factors(t, evals.len(), m),
        m,
    );
    let p = sum_check::prove_rounds(Form::Coefficients, mo, s, ts, total, num_vars, m)->Ok_0;
    let u = p.challenges;
    let g = additive::g_prime(polys, points, evals, t, u, size, m);
    let none = Pcs::no_commitment();
    transcript::lemma_squeeze_many_mirrors(
        mo,
        w,
        r,
        integer::ceil_log2(evals.len()),
        whole,
    );
    let rs = additive::draw_factors(mo, r, evals.len()).1;
    sum_check::lemma_challenges_len(Form::Coefficients, mo, s, ts, total, num_vars, m);
    lemma_total(num_vars, polys, points, evals, t, m);
    lemma_final(num_vars, polys, points, evals, t, u, m);
    assert(sum_check::of_size(ts, num_vars)) by {
        assert forall|i: int| 0 <= i < ts.len() implies (#[trigger] ts[i]).lhs.len() == size
            && ts[i].rhs.len() == size by {
            assert(points[i].len() == num_vars);
        }
    }
    assert(Pcs::open_spec(pp, g, none, u, p.sum, mo, p.state) is Ok);
    transcript::lemma_starts_trans(whole, p.state, done);
    sum_check::law_honest_proof_is_accepted(
        Form::Coefficients,
        mo,
        s,
        rs,
        ts,
        num_vars,
        m,
        whole,
    );
    let (r1, left, cs) = sum_check::verify_rounds(
        Form::Coefficients,
        mo,
        rs,
        total,
        num_vars,
        m,
    )->Ok_0;
    assert(transcript::mirrors(p.state, r1, whole));
    let lens = claims::lengths(points);
    assert forall|i: int| 0 <= i < lens.len() implies #[trigger] lens[i] == num_vars by {
        assert(points[i].len() == num_vars);
    }
    lemma_all_as_expected(lens, num_vars);
}

/// Opening the rotated polynomial with values `evals` at `point`, with the value `eval`,
/// writes a proof that verifies against `comm`.
pub open spec fn rotation_opens<F: PrimeField, Pcs: PolynomialCommitmentScheme<F>>(
    pp: Pcs::ProverParam,
    vp: Pcs::VerifierParam,
    comm: Pcs::Commitment,
    evals: Seq<int>,
    point: Seq<int>,
    eval: int,
    rotation: int,
    mo: Model<Pcs::CommitmentChunk>,
) -> bool {
    let given = Pcs::no_commitment();
    &&& forall|w: State<Pcs::CommitmentChunk>| #[trigger]
        Pcs::open_shift_spec(pp, evals, given, point, eval, rotation, mo, w) is Ok
            ==> transcript::starts_with(
            Pcs::open_shift_spec(pp, evals, given, point, eval, rotation, mo, w)->Ok_0.proof,
            w,
        )
    &&& forall|
        w: State<Pcs::CommitmentChunk>,
        r: State<Pcs::CommitmentChunk>,
        whole: Seq<u8>,
    |
        #![trigger Pcs::open_shift_spec(pp, evals, given, point, eval, rotation, mo, w), transcript::mirrors(w, r, whole)]
        {
            let opened = Pcs::open_shift_spec(pp, evals, given, point, eval, rotation, mo, w);
            &&& opened is Ok
            &&& transcript::mirrors(w, r, whole)
            &&& transcript::starts_with(whole, opened->Ok_0)
        } ==> {
            let opened = Pcs::open_shift_spec(pp, evals, given, point, eval, rotation, mo, w);
            Pcs::verify_shifted_evaluation_spec(
                vp,
                comm,
                point,
                eval,
                rotation,
                mo,
                r,
            ) matches Ok(s) && transcript::mirrors(opened->Ok_0, s, whole)
        }
}

/// The claims about polynomials rotated by `rotation`, combined with the factors for `t`,
/// open against the combination of their commitments.
pub open spec fn group_opens<F: PrimeField, Pcs: PolynomialCommitmentScheme<F>>(
    pp: Pcs::ProverParam,
    vp: Pcs::VerifierParam,
    polys: Seq<Seq<int>>,
    comms: Seq<Pcs::Commitment>,
    point: Seq<int>,
    evals: Seq<ShiftEvaluationView>,
    rotation: int,
    t: Seq<int>,
    mo: Model<Pcs::CommitmentChunk>,
) -> bool where Pcs::Commitment: Additive<F> {
    let m = F::modulus();
    let group = additive::claims_at(evals, rotation);
    let picks = additive::shift_picked(group);
    let weights = additive::factors(t, group.len(), m);
    rotation_opens::<F, Pcs>(
        pp,
        vp,
        Pcs::Commitment::msm_spec(weights, additive::picked_comms(comms, picks)),
        additive::weighted(polys, picks, weights, polys[0].len(), m),
        point,
        additive::weighted_value(additive::shift_values(group), weights, m),
        rotation,
        mo,
    )
}

/// Opening groups only ever appends.
proof fn lemma_groups_append<F: PrimeField, Pcs: PolynomialCommitmentScheme<F>>(
    pp: Pcs::ProverParam,
    vp: Pcs::VerifierParam,
    polys: Seq<Seq<int>>,
    comms: Seq<Pcs::Commitment>,
    point: Seq<int>,
    evals: Seq<ShiftEvaluationView>,
    rots: Seq<int>,
    mo: Model<Pcs::CommitmentChunk>,
    w: State<Pcs::CommitmentChunk>,
) where Pcs::Commitment: Additive<F>
    requires
        forall|i: int, t: Seq<int>|
            0 <= i < rots.len() ==> #[trigger] group_opens::<F, Pcs>(
                pp,
                vp,
                polys,
                comms,
                point,
                evals,
                rots[i],
                t,
                mo,
            ),
        additive::open_groups::<F, Pcs>(pp, polys, point, evals, rots, mo, w) is Ok,
    ensures
        transcript::starts_with(
            additive::open_groups::<F, Pcs>(pp, polys, point, evals, rots, mo, w)->Ok_0.proof,
            w,
        ),
    decreases rots.len(),
{
    if rots.len() == 0 {
        assert(w.proof.subrange(0, w.proof.len() as int) =~= w.proof);
    } else {
        let front = rots.drop_last();
        assert forall|i: int, t: Seq<int>| 0 <= i < front.len() implies #[trigger] group_opens::<
            F,
            Pcs,
        >(pp, vp, polys, comms, point, evals, front[i], t, mo) by {
            assert(front[i] == rots[i]);
            assert(group_opens::<F, Pcs>(pp, vp, polys, comms, point, evals, rots[i], t, mo));
        }
        lemma_groups_append::<F, Pcs>(pp, vp, polys, comms, point, evals, front, mo, w);
        let mid = additive::open_groups::<F, Pcs>(pp, polys, point, evals, front, mo, w)->Ok_0;
        let done = additive::open_groups::<F, Pcs>(pp, polys, point, evals, rots, mo, w)->Ok_0;
        let rotation = rots[rots.len() - 1];
        let n = additive::group_draws(additive::claims_at(evals, rotation).len());
        let (t, s) = transcript::squeeze_many(mo, mid, n);
        assert(group_opens::<F, Pcs>(pp, vp, polys, comms, point, evals, rotation, t, mo));
        transcript::lemma_squeeze_many_mirrors(
            mo,
            mid,
            State { events: mid.events, proof: Seq::empty() },
            n,
            mid.proof + Seq::empty(),
        );
        transcript::lemma_starts_trans(done.proof, w, mid);
    }
}

/// Groups that are opened are accepted.
proof fn lemma_groups_accepted<F: PrimeField, Pcs: PolynomialCommitmentScheme<F>>(
    pp: Pcs::ProverParam,
    vp: Pcs::VerifierParam,
    polys: Seq<Seq<int>>,
    comms: Seq<Pcs::Commitment>,
    point: Seq<int>,
    evals: Seq<ShiftEvaluationView>,
    rots: Seq<int>,
    mo: Model<Pcs::CommitmentChunk>,
    w: State<Pcs::CommitmentChunk>,
    r: State<Pcs::CommitmentChunk>,
    whole: Seq<u8>,
) where Pcs::Commitment: Additive<F>
    requires
        forall|i: int, t: Seq<int>|
            0 <= i < rots.len() ==> #[trigger] group_opens::<F, Pcs>(
                pp,
                vp,
                polys,
                comms,
                point,
                evals,
                rots[i],
                t,
                mo,
            ),
        additive::open_groups::<F, Pcs>(pp, polys, point, evals, rots, mo, w) is Ok,
        transcript::mirrors(w, r, whole),
        transcript::starts_with(
            whole,
            additive::open_groups::<F, Pcs>(pp, polys, point, evals, rots, mo, w)->Ok_0,
        ),
    ensures
        additive::verify_groups::<F, Pcs>(vp, comms, point, evals, rots, mo, r) matches Ok(s)
            && transcript::mirrors(
            additive::open_groups::<F, Pcs>(pp, polys, point, evals, rots, mo, w)->Ok_0,
            s,
            whole,
        ),
    decreases rots.len(),
{
    if rots.len() > 0 {
        let front = rots.drop_last();
        assert forall|i: int, t: Seq<int>| 0 <= i < front.len() implies #[trigger] group_opens::<
            F,
            Pcs,
        >(pp, vp, polys, comms, point, evals, front[i], t, mo) by {
            assert(front[i] == rots[i]);
            assert(group_opens::<F, Pcs>(pp, vp, polys, comms, point, evals, rots[i], t, mo));
        }
        let mid = additive::open_groups::<F, Pcs>(pp, polys, point, evals, front, mo, w)->Ok_0;
        let done = additive::open_groups::<F, Pcs>(pp, polys, point, evals, rots, mo, w)->Ok_0;
        let rotation = rots[rots.len() - 1];
        let n = additive::group_draws(additive::claims_at(evals, rotation).len());
        let (t, s) = transcript::squeeze_many(mo, mid, n);
        assert(group_opens::<F, Pcs>(pp, vp, polys, comms, point, evals, rotation, t, mo));
        transcript::lemma_squeeze_many_mirrors(
            mo,
            mid,
            State { events: mid.events, proof: Seq::empty() },
            n,
            mid.proof + Seq::empty(),
        );
        transcript::lemma_starts_trans(whole, mid, done);
        lemma_groups_accepted::<F, Pcs>(
            pp,
            vp,
            polys,
            comms,
            point,
            evals,
            front,
            mo,
            w,
            r,
            whole,
        );
        let x = additive::verify_groups::<F, Pcs>(vp, comms, point, evals, front, mo, r)->Ok_0;
        transcript::lemma_squeeze_many_mirrors(mo, mid, x, n, whole);
        let y = transcript::squeeze_many(mo, x, n).1;
        assert(transcript::mirrors(s, y, whole));
    }
}

/// Completeness with rotations: claims that are opened together are accepted together, if
/// the rotated ones open against the combinations of their commitments, and if the claims
/// about polynomials that are not rotated are true and what is opened for them opens
/// honestly. There must be at least two of those, or one and no other claim. (One among
/// others is opened without its factor, and without any nothing is opened for what is read.)
pub proof fn law_honest_shift_batch_is_accepted<F: PrimeField, Pcs: PolynomialCommitmentScheme<F>>(
    pp: Pcs::ProverParam,
    vp: Pcs::VerifierParam,
    num_vars: nat,
    polys: Seq<Seq<int>>,
    comms: Seq<Pcs::Commitment>,
    points: Seq<Seq<int>>,
    evals: Seq<ShiftEvaluationView>,
    mo: Model<Pcs::CommitmentChunk>,
    w: State<Pcs::CommitmentChunk>,
    r: State<Pcs::CommitmentChunk>,
    whole: Seq<u8>,
) where Pcs::Commitment: Additive<F>
    requires
        additive::well_posed_for_shift(num_vars, polys, points, evals),
        transcript::mirrors(w, r, whole),
        ({
            let m = F::modulus();
            let cur = additive::claims_at(evals, 0);
            let picks = additive::shift_picked(cur);
            let t = additive::draw_factors(mo, w, evals.len()).0;
            let weights = additive::factors(t, cur.len(), m);
            let opened = additive::batch_open_for_shift_spec::<F, Pcs>(
                pp,
                num_vars,
                polys,
                points,
                evals,
                mo,
                w,
            );
            &&& cur.len() >= 2 || (cur.len() == 1 && evals.len() == 1)
            &&& forall|i: int|
                0 <= i < cur.len() ==> (#[trigger] cur[i]).value == hypercube::mle(
                    polys[cur[i].poly],
                    points[0],
                ) % m
            &&& pcs::opens_honestly::<F, Pcs>(
                pp,
                vp,
                Pcs::no_commitment(),
                Pcs::Commitment::msm_spec(weights, additive::picked_comms(comms, picks)),
                additive::merged_cur(polys, cur, weights, m),
                points[0].len(),
                mo,
            )
            &&& opened is Ok
            &&& transcript::starts_with(whole, opened->Ok_0)
        }),
        forall|i: int, t: Seq<int>|
            0 <= i < additive::rotations(evals).len() ==> #[trigger] group_opens::<F, Pcs>(
                pp,
                vp,
                polys,
                comms,
                points[0],
                evals,
                additive::rotations(evals)[i],
                t,
                mo,
            ),
    ensures
        ({
            let (t, s) = additive::draw_factors(mo, r, evals.len());
            let opened = additive::batch_open_for_shift_spec::<F, Pcs>(
                pp,
                num_vars,
                polys,
                points,
                evals,
                mo,
                w,
            );
            &&& additive::verify_cur::<F, Pcs>(vp, comms, points[0], evals, t, mo, s) is Ok
            &&& additive::batch_verify_for_shift_spec::<F, Pcs>(
                vp,
                num_vars,
                comms,
                points,
                evals,
                mo,
                r,
            ) matches Ok(v)
            &&& transcript::mirrors(opened->Ok_0, v, whole)
        }),
{
    let m = F::modulus();
    F::modulus_is_odd();
    let point = points[0];
    let cur = additive::claims_at(evals, 0);
    let picks = additive::shift_picked(cur);
    let rots = additive::rotations(evals);
    let (t, s) = additive::draw_factors(mo, w, evals.len());
    let weights = additive::factors(t, cur.len(), m);
    let size = polys[0].len();
    let merged = additive::merged_cur(polys, cur, weights, m);
    let value = additive::weighted_value(additive::shift_values(cur), weights, m);
    transcript::lemma_squeeze_many_mirrors(
        mo,
        w,
        r,
        integer::ceil_log2(evals.len()),
        whole,
    );
    let rs = additive::draw_factors(mo, r, evals.len()).1;
    let none = Pcs::no_commitment();
    let opened = Pcs::open_spec(pp, merged, none, point, value, mo, s);
    assert(opened is Ok);
    let u = opened->Ok_0;
    let done = additive::open_groups::<F, Pcs>(pp, polys, point, evals, rots, mo, u)->Ok_0;
    lemma_groups_append::<F, Pcs>(pp, vp, polys, comms, point, evals, rots, mo, u);
    transcript::lemma_starts_trans(whole, u, done);
    additive::lemma_claims_at(evals, 0);
    assert forall|i: int| 0 <= i < picks.len() implies polys[#[trigger] picks[i]].len() == size by {
        assert(0 <= cur[i].poly < polys.len());
    }
    if cur.len() == 1 {
        let v = hypercube::mle(polys[cur[0].poly], point);
        integer::lemma_ceil_log2(1);
        transcript::lemma_squeeze_many_len(mo, w, integer::ceil_log2(1));
        modular::lemma_small(1, m);
        assert(weights[0] == 1);
        assert(cur[0].value == v % m);
        let values = additive::shift_values(cur);
        let h = |i: int| values[i] * weights[i];
        sum::lemma_sum_single(h, 0, 1);
        assert(values[0] == cur[0].value);
        let x = values[0];
        let one = weights[0];
        assert(x * one == x) by (nonlinear_arith)
            requires
                one == 1,
        ;
        assert(h(0) == x * one);
        assert(x == v % m);
        assert(sum::dot(values, weights) == v % m);
        modular::lemma_cong_reduced(v, m);
    } else {
        law_weighted_extension(polys, picks, weights, size, point, m);
        let f = |i: int| weights[i] * hypercube::mle(polys[picks[i]], point);
        let g = |i: int| additive::shift_values(cur)[i] * weights[i];
        assert forall|i: int| 0 <= i < cur.len() implies modular::cong(#[trigger] f(i), g(i), m) by {
            let v = hypercube::mle(polys[picks[i]], point);
            assert(cur[i].value == v % m);
            modular::lemma_cong_reduced(v, m);
            modular::lemma_cong_mul(weights[i], weights[i], v, v % m, m);
            let x = v % m;
            let y = weights[i];
            assert(y * x == x * y) by (nonlinear_arith);
        }
        sum::lemma_sum_cong(f, g, cur.len(), m);
    }
    assert(value == hypercube::mle(merged, point) % m);
    assert(transcript::mirrors(s, rs, whole));
    let ru = additive::verify_cur::<F, Pcs>(vp, comms, point, evals, t, mo, rs)->Ok_0;
    assert(transcript::mirrors(u, ru, whole));
    lemma_groups_accepted::<F, Pcs>(
        pp,
        vp,
        polys,
        comms,
        point,
        evals,
        rots,
        mo,
        u,
        ru,
        whole,
    );
}

} // verus!
