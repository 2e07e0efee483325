//! Openings of several claims through one, for commitments that can be combined linearly.

pub mod combining;
pub mod laws;

use crate::pcs;
use crate::pcs::multilinear as claims;
use crate::pcs::{
    Additive, Evaluation, EvaluationView, Evaluation_for_shift, PolynomialCommitmentScheme,
    ShiftEvaluationView,
};
use crate::piop::sum_check;
use crate::piop::sum_check::{Form, Product, ProductView};
use crate::poly::hypercube;
use crate::poly::multilinear;
use crate::poly::multilinear::MultilinearPolynomial;
use crate::util::expression::Rotation;
use crate::util::field;
use crate::util::field::PrimeField;
use crate::util::integer;
use crate::util::modular;
use crate::util::ordered;
use crate::util::sum;
use crate::util::transcript;
use crate::util::transcript::{Halt, Model, State, TranscriptRead, TranscriptWrite};
use crate::Error;
use vstd::arithmetic::div_mod::*;
use vstd::arithmetic::power2;
use vstd::arithmetic::power2::pow2;
use vstd::prelude::*;

verus! {

/// The factor of claim `i` when claims are combined by the challenges `t`.
pub open spec fn factor(t: Seq<int>, i: int, m: int) -> int {
    hypercube::eq_at(i, t) % m
}

/// The factors of the first `n` claims.
pub open spec fn factors(t: Seq<int>, n: nat, m: int) -> Seq<int> {
    Seq::new(n, |i: int| factor(t, i, m))
}

/// The sum over `i` of `weights[i]` times the polynomial that `picks[i]` names, reduced.
pub open spec fn weighted(
    polys: Seq<Seq<int>>,
    picks: Seq<int>,
    weights: Seq<int>,
    size: nat,
    m: int,
) -> Seq<int> {
    Seq::new(
        size,
        |b: int| sum::sum_to(|i: int| weights[i] * polys[picks[i]][b], picks.len()) % m,
    )
}

/// The values of the claims, combined with the given weights, reduced.
pub open spec fn weighted_value(values: Seq<int>, weights: Seq<int>, m: int) -> int {
    sum::dot(values, weights) % m
}

/// The polynomials that the claims are about.
pub open spec fn picked(evals: Seq<EvaluationView>) -> Seq<int> {
    evals.map_values(|e: EvaluationView| e.poly)
}

/// The values that the claims state.
pub open spec fn values_of(evals: Seq<EvaluationView>) -> Seq<int> {
    evals.map_values(|e: EvaluationView| e.value)
}

/// The factors of the claims at point `p`, and zero for the others.
pub open spec fn masked(evals: Seq<EvaluationView>, t: Seq<int>, p: int, m: int) -> Seq<int> {
    Seq::new(
        evals.len(),
        |i: int|
            if evals[i].point == p {
                factor(t, i, m)
            } else {
                0
            },
    )
}

/// The combination of the polynomials that are claimed to take values at point `p`.
pub open spec fn merged(
    polys: Seq<Seq<int>>,
    evals: Seq<EvaluationView>,
    t: Seq<int>,
    p: int,
    size: nat,
    m: int,
) -> Seq<int> {
    weighted(polys, picked(evals), masked(evals, t, p, m), size, m)
}

/// The sum that all claims are reduced to: over all points, the combination there times
/// `eq` of the point.
pub open spec fn merged_products(
    polys: Seq<Seq<int>>,
    points: Seq<Seq<int>>,
    evals: Seq<EvaluationView>,
    t: Seq<int>,
    size: nat,
    m: int,
) -> Seq<ProductView> {
    Seq::new(
        points.len(),
        |p: int|
            ProductView {
                scalar: 1,
                lhs: merged(polys, evals, t, p, size, m),
                rhs: modular::reduce_seq(hypercube::tensor(points[p]), m),
            },
    )
}

/// `eq(x, y)`: the product of `x * y + (1 - x) * (1 - y)` over all coordinates.
pub open spec fn eq_points(x: Seq<int>, y: Seq<int>) -> int
    decreases x.len(),
{
    if x.len() == 0 {
        1
    } else {
        eq_points(x.drop_last(), y.drop_last()) * (x.last() * y.last() + (1 - x.last()) * (1
            - y.last()))
    }
}

/// `eq` of the challenges with each of the points.
pub open spec fn point_factors(u: Seq<int>, points: Seq<Seq<int>>, m: int) -> Seq<int> {
    Seq::new(points.len(), |p: int| eq_points(u, points[p]) % m)
}

/// The polynomial that is opened in the end.
pub open spec fn g_prime(
    polys: Seq<Seq<int>>,
    points: Seq<Seq<int>>,
    evals: Seq<EvaluationView>,
    t: Seq<int>,
    u: Seq<int>,
    size: nat,
    m: int,
) -> Seq<int> {
    Seq::new(
        size,
        |b: int|
            sum::sum_to(
                |p: int| point_factors(u, points, m)[p] * merged(polys, evals, t, p, size, m)[b],
                points.len(),
            ) % m,
    )
}

/// The challenges that claims are combined by, and the state after them.
pub open spec fn draw_factors<C>(mo: Model<C>, st: State<C>, n: nat) -> (Seq<int>, State<C>) {
    transcript::squeeze_many(mo, st, integer::ceil_log2(n))
}

/// The transcript after the common opening is written.
pub open spec fn batch_open_spec<F: PrimeField, Pcs: PolynomialCommitmentScheme<F>>(
    pp: Pcs::ProverParam,
    num_vars: nat,
    polys: Seq<Seq<int>>,
    points: Seq<Seq<int>>,
    evals: Seq<EvaluationView>,
    mo: Model<Pcs::CommitmentChunk>,
    st: State<Pcs::CommitmentChunk>,
) -> Result<State<Pcs::CommitmentChunk>, Halt<Pcs::CommitmentChunk>> {
    let m = F::modulus();
    let size = pow2(num_vars);
    match claims::input_error(
        "batch open"@,
        num_vars,
        claims::variables(polys),
        claims::lengths(points),
    ) {
        Some(e) => Err(Halt { error: e, state: st }),
        None => {
            let (t, s) = draw_factors(mo, st, evals.len());
            match sum_check::prove_rounds(
                Form::Coefficients,
                mo,
                s,
                merged_products(polys, points, evals, t, size, m),
                weighted_value(values_of(evals), factors(t, evals.len(), m), m),
                num_vars,
                m,
            ) {
                Err(e) => Err(e),
                Ok(p) => Pcs::open_spec(
                    pp,
                    g_prime(polys, points, evals, t, p.challenges, size, m),
                    Pcs::no_commitment(),
                    p.challenges,
                    p.sum,
                    mo,
                    p.state,
                ),
            }
        },
    }
}

/// The factors of the claims' commitments in the combination that is verified in the end.
pub open spec fn comm_factors(
    points: Seq<Seq<int>>,
    evals: Seq<EvaluationView>,
    t: Seq<int>,
    u: Seq<int>,
    m: int,
) -> Seq<int> {
    Seq::new(
        evals.len(),
        |i: int| (point_factors(u, points, m)[evals[i].point] * factor(t, i, m)) % m,
    )
}

/// The commitments that `picks` names.
pub open spec fn picked_comms<T>(comms: Seq<T>, picks: Seq<int>) -> Seq<T> {
    Seq::new(picks.len(), |i: int| comms[picks[i]])
}

/// What the verifier makes of a common opening.
pub open spec fn batch_verify_spec<F: PrimeField, Pcs: PolynomialCommitmentScheme<F>>(
    vp: Pcs::VerifierParam,
    num_vars: nat,
    comms: Seq<Pcs::Commitment>,
    points: Seq<Seq<int>>,
    evals: Seq<EvaluationView>,
    mo: Model<Pcs::CommitmentChunk>,
    st: State<Pcs::CommitmentChunk>,
) -> Result<State<Pcs::CommitmentChunk>, Halt<Pcs::CommitmentChunk>> where Pcs::Commitment: Additive<F> {
    let m = F::modulus();
    match claims::input_error("batch verify"@, num_vars, Seq::empty(), claims::lengths(points)) {
        Some(e) => Err(Halt { error: e, state: st }),
        None => {
            let (t, s) = draw_factors(mo, st, evals.len());
            match sum_check::verify_rounds(
                Form::Coefficients,
                mo,
                s,
                weighted_value(values_of(evals), factors(t, evals.len(), m), m),
                num_vars,
                m,
            ) {
                Err(e) => Err(e),
                Ok((r, left, u)) => Pcs::verify_spec(
                    vp,
                    Pcs::Commitment::msm_spec(
                        comm_factors(points, evals, t, u, m),
                        picked_comms(comms, picked(evals)),
                    ),
                    u,
                    left,
                    mo,
                    r,
                ),
            }
        },
    }
}

/// `eq(x, y)`.
fn eq_xy_eval<F: PrimeField>(x: &[F], y: &[F]) -> (r: F)
    requires
        x@.len() == y@.len(),
    ensures
        r.val() == eq_points(field::vals(x@), field::vals(y@)) % F::modulus(),
{
    let ghost m = F::modulus();
    let ghost xv = field::vals(x@);
    let ghost yv = field::vals(y@);
    let one = F::one();
    let mut acc = F::one();
    let mut i: usize = 0;
    proof {
        F::modulus_is_odd();
        modular::lemma_small(1, m);
    }
    while i < x.len()
        invariant
            i <= x.len(),
            x@.len() == y@.len(),
            m == F::modulus(),
            m > 2,
            one.val() == 1,
            xv == field::vals(x@),
            yv == field::vals(y@),
            acc.val() == eq_points(xv.take(i as int), yv.take(i as int)) % m,
        decreases x.len() - i,
    {
        let a = x[i].mul(y[i]);
        let nx = one.sub(x[i]);
        let ny = one.sub(y[i]);
        let b = nx.mul(ny);
        let c = a.add(b);
        proof {
            let p = xv[i as int];
            let q = yv[i as int];
            assert(xv.take(i + 1).drop_last() =~= xv.take(i as int));
            assert(yv.take(i + 1).drop_last() =~= yv.take(i as int));
            modular::lemma_cong_reduced(p * q, m);
            modular::lemma_cong_reduced(1 - p, m);
            modular::lemma_cong_reduced(1 - q, m);
            modular::lemma_cong_mul(nx.val(), 1 - p, ny.val(), 1 - q, m);
            modular::lemma_cong_reduced(nx.val() * ny.val(), m);
            modular::lemma_cong_add(a.val(), p * q, b.val(), (1 - p) * (1 - q), m);
            let before = eq_points(xv.take(i as int), yv.take(i as int));
            modular::lemma_cong_reduced(before, m);
            modular::lemma_cong_reduced(a.val() + b.val(), m);
            modular::lemma_cong_mul(acc.val(), before, c.val(), p * q + (1 - p) * (1 - q), m);
        }
        acc = acc.mul(c);
        i = i + 1;
    }
    assert(xv.take(xv.len() as int) =~= xv);
    assert(yv.take(yv.len() as int) =~= yv);
    acc
}

/// The indices as mathematical integers.
pub open spec fn picks_vals(picks: Seq<usize>) -> Seq<int> {
    picks.map_values(|x: usize| x as int)
}

/// The sum over `i` of `weights[i]` times the polynomial that `picks[i]` names.
fn weigh<F: PrimeField>(
    polys: &[&MultilinearPolynomial<F>],
    picks: &Vec<usize>,
    weights: &Vec<F>,
    size: usize,
) -> (r: Vec<F>)
    requires
        picks@.len() <= weights@.len(),
        forall|i: int| 0 <= i < picks@.len() ==> (#[trigger] picks@[i]) < polys@.len(),
        forall|i: int|
            0 <= i < picks@.len() ==> pcs::polys_vals(polys@)[(#[trigger] picks@[i]) as int].len()
                == size,
    ensures
        field::vals(r@) == weighted(
            pcs::polys_vals(polys@),
            picks_vals(picks@),
            field::vals(weights@),
            size as nat,
            F::modulus(),
        ),
{
    let ghost m = F::modulus();
    let ghost pv = pcs::polys_vals(polys@);
    let ghost kv = picks_vals(picks@);
    let ghost wv = field::vals(weights@);
    proof {
        F::modulus_is_odd();
        modular::lemma_small(0, m);
    }
    let mut r: Vec<F> = Vec::new();
    let mut b: usize = 0;
    while b < size
        invariant
            b <= size,
            r@.len() == b,
            forall|t: int| 0 <= t < b ==> (#[trigger] r@[t]).val() == 0,
        decreases size - b,
    {
        r.push(F::zero());
        b = b + 1;
    }
    let mut i: usize = 0;
    while i < picks.len()
        invariant
            i <= picks.len(),
            picks@.len() <= weights@.len(),
            m == F::modulus(),
            m > 2,
            pv == pcs::polys_vals(polys@),
            kv == picks_vals(picks@),
            wv == field::vals(weights@),
            forall|i: int| 0 <= i < picks@.len() ==> (#[trigger] picks@[i]) < polys@.len(),
            forall|i: int| 0 <= i < picks@.len() ==> pv[(#[trigger] picks@[i]) as int].len() == size,
            r@.len() == size,
            forall|t: int|
                0 <= t < size ==> (#[trigger] r@[t]).val() == sum::sum_to(
                    |j: int| wv[j] * pv[kv[j]][t],
                    i as nat,
                ) % m,
        decreases picks.len() - i,
    {
        let w = weights[i];
        let pick = picks[i];
        assert(picks@[i as int] < polys@.len());
        assert(pv[picks@[i as int] as int].len() == size);
        let evals = polys[pick].evals();
        assert(pv[pick as int] == field::vals(evals@));
        let ghost before = r@;
        let mut b: usize = 0;
        while b < size
            invariant
                b <= size,
                i < picks@.len(),
                m == F::modulus(),
                m > 2,
                w.val() == wv[i as int],
                kv[i as int] == pick,
                pv[pick as int] == field::vals(evals@),
                evals@.len() == size,
                r@.len() == size,
                before.len() == size,
                forall|t: int|
                    0 <= t < size ==> (#[trigger] before[t]).val() == sum::sum_to(
                        |j: int| wv[j] * pv[kv[j]][t],
                        i as nat,
                    ) % m,
                forall|t: int| b <= t < size ==> #[trigger] r@[t] == before[t],
                forall|t: int|
                    0 <= t < b ==> (#[trigger] r@[t]).val() == sum::sum_to(
                        |j: int| wv[j] * pv[kv[j]][t],
                        (i + 1) as nat,
                    ) % m,
            decreases size - b,
        {
            let ghost f = |j: int| wv[j] * pv[kv[j]][b as int];
            assert(r@[b as int] == before[b as int]);
            assert(sum::sum_to(f, (i + 1) as nat) == sum::sum_to(f, i as nat) + f(i as int));
            let x = w.mul(evals[b]);
            proof {
                lemma_add_mod_noop(sum::sum_to(f, i as nat), f(i as int), m);
            }
            let y = r[b].add(x);
            r.set(b, y);
            b = b + 1;
        }
        i = i + 1;
    }
    assert(field::vals(r@) =~= weighted(pv, kv, wv, size as nat, m));
    r
}

/// The factors of the first `n` claims.
fn claim_factors<F: PrimeField>(t: &Vec<F>, n: usize) -> (r: Vec<F>)
    requires
        n <= pow2(t@.len()) <= usize::MAX,
    ensures
        field::vals(r@) == factors(field::vals(t@), n as nat, F::modulus()),
{
    let eq_xt = MultilinearPolynomial::eq_xy(t);
    let table = eq_xt.evals();
    let mut r: Vec<F> = Vec::new();
    let mut i: usize = 0;
    while i < n
        invariant
            i <= n,
            n <= table@.len(),
            r@ == table@.take(i as int),
        decreases n - i,
    {
        r.push(table[i]);
        i = i + 1;
        assert(r@ =~= table@.take(i as int));
    }
    assert(field::vals(r@) =~= factors(field::vals(t@), n as nat, F::modulus()));
    r
}

/// The claims' polynomials, values and the values' combination.
fn split_claims<F: PrimeField>(evals: &[Evaluation<F>]) -> (r: (Vec<usize>, Vec<F>))
    ensures
        picks_vals(r.0@) == picked(pcs::evaluations_vals(evals@)),
        field::vals(r.1@) == values_of(pcs::evaluations_vals(evals@)),
        r.0@.len() == evals@.len(),
        forall|i: int| 0 <= i < evals@.len() ==> (#[trigger] r.0@[i]) == evals@[i].poly,
{
    let mut picks: Vec<usize> = Vec::new();
    let mut values: Vec<F> = Vec::new();
    let mut i: usize = 0;
    while i < evals.len()
        invariant
            i <= evals.len(),
            picks@.len() == i,
            values@.len() == i,
            forall|j: int| 0 <= j < i ==> (#[trigger] picks@[j]) == evals@[j].poly,
            forall|j: int| 0 <= j < i ==> (#[trigger] values@[j]) == evals@[j].value,
        decreases evals.len() - i,
    {
        picks.push(evals[i].poly());
        values.push(*evals[i].value());
        i = i + 1;
    }
    assert(picks_vals(picks@) =~= picked(pcs::evaluations_vals(evals@)));
    assert(field::vals(values@) =~= values_of(pcs::evaluations_vals(evals@)));
    (picks, values)
}

/// The factors of the claims at point `p`, and zero for the others.
fn mask<F: PrimeField>(evals: &[Evaluation<F>], weights: &Vec<F>, p: usize, Ghost(t): Ghost<Seq<int>>) -> (r:
    Vec<F>)
    requires
        field::vals(weights@) == factors(t, evals@.len(), F::modulus()),
    ensures
        field::vals(r@) == masked(pcs::evaluations_vals(evals@), t, p as int, F::modulus()),
{
    let ghost ev = pcs::evaluations_vals(evals@);
    let mut r: Vec<F> = Vec::new();
    let mut i: usize = 0;
    assert(weights@.len() == field::vals(weights@).len());
    while i < evals.len()
        invariant
            i <= evals.len(),
            weights@.len() == evals@.len(),
            field::vals(weights@) == factors(t, evals@.len(), F::modulus()),
            ev == pcs::evaluations_vals(evals@),
            r@.len() == i,
            forall|j: int|
                0 <= j < i ==> (#[trigger] r@[j]).val() == masked(ev, t, p as int, F::modulus())[j],
        decreases evals.len() - i,
    {
        assert(field::vals(weights@)[i as int] == weights@[i as int].val());
        assert(ev[i as int].point == evals@[i as int].point);
        let w = if evals[i].point() == p {
            weights[i]
        } else {
            F::zero()
        };
        r.push(w);
        i = i + 1;
    }
    assert(field::vals(r@) =~= masked(ev, t, p as int, F::modulus()));
    r
}

/// `eq` of `u` with each of the points.
fn eq_with_points<F: PrimeField>(u: &Vec<F>, points: &[Vec<F>]) -> (r: Vec<F>)
    requires
        forall|p: int| 0 <= p < points@.len() ==> (#[trigger] points@[p])@.len() == u@.len(),
    ensures
        field::vals(r@) == point_factors(
            field::vals(u@),
            pcs::points_vals(points@),
            F::modulus(),
        ),
{
    let ghost uv = field::vals(u@);
    let ghost pv = pcs::points_vals(points@);
    let mut r: Vec<F> = Vec::new();
    let mut p: usize = 0;
    while p < points.len()
        invariant
            p <= points.len(),
            forall|p: int| 0 <= p < points@.len() ==> (#[trigger] points@[p])@.len() == u@.len(),
            uv == field::vals(u@),
            pv == pcs::points_vals(points@),
            r@.len() == p,
            forall|j: int|
                0 <= j < p ==> (#[trigger] r@[j]).val() == point_factors(uv, pv, F::modulus())[j],
        decreases points.len() - p,
    {
        assert(points@[p as int]@.len() == u@.len());
        assert(pv[p as int] == field::vals(points@[p as int]@));
        r.push(eq_xy_eval(u, &points[p]));
        p = p + 1;
    }
    assert(field::vals(r@) =~= point_factors(uv, pv, F::modulus()));
    r
}

/// What an opening of claims asks for, once its input is in order: the claims name
/// polynomials with `2^num_vars` values, and points.
pub open spec fn well_posed(
    num_vars: nat,
    polys: Seq<Seq<int>>,
    points: Seq<Seq<int>>,
    evals: Seq<EvaluationView>,
) -> bool {
    &&& pow2(num_vars) <= usize::MAX
    &&& pow2(integer::ceil_log2(evals.len())) <= usize::MAX
    &&& forall|i: int|
        0 <= i < evals.len() ==> {
            &&& 0 <= (#[trigger] evals[i]).poly < polys.len()
            &&& 0 <= evals[i].point < points.len()
            &&& polys[evals[i].poly].len() == pow2(num_vars)
        }
    &&& forall|p: int| 0 <= p < points.len() ==> (#[trigger] points[p]).len() == num_vars
}

/// Opens all claims through one opening at a random point.
pub fn batch_open<
    F: PrimeField,
    Pcs: PolynomialCommitmentScheme<F>,
    T: TranscriptWrite<Pcs::CommitmentChunk, F>,
>(
    pp: &Pcs::ProverParam,
    num_vars: usize,
    polys: Vec<&MultilinearPolynomial<F>>,
    _comms: Vec<&Pcs::Commitment>,
    points: &[Vec<F>],
    evals: &[Evaluation<F>],
    transcript: &mut T,
) -> (r: Result<(), Error>) where Pcs::Commitment: Additive<F>
    requires
        polys@.len() + points@.len() > 0,
        claims::input_error(
            "batch open"@,
            num_vars as nat,
            claims::variables(pcs::polys_vals(polys@)),
            claims::lengths(pcs::points_vals(points@)),
        ) is None ==> {
            &&& well_posed(
                num_vars as nat,
                pcs::polys_vals(polys@),
                pcs::points_vals(points@),
                pcs::evaluations_vals(evals@),
            )
            &&& Pcs::can_open(*pp, pow2(num_vars as nat), num_vars as nat)
        },
    ensures
        transcript::moved_to(
            r,
            final(transcript).state(),
            batch_open_spec::<F, Pcs>(
                *pp,
                num_vars as nat,
                pcs::polys_vals(polys@),
                pcs::points_vals(points@),
                pcs::evaluations_vals(evals@),
                T::model(),
                old(transcript).state(),
            ),
        ),
{
    let ghost m = F::modulus();
    let ghost pv = pcs::polys_vals(polys@);
    let ghost qv = pcs::points_vals(points@);
    let ghost ev = pcs::evaluations_vals(evals@);
    let ghost nv = num_vars as nat;
    match claims::validate_input("batch open", num_vars, &polys, points) {
        Err(e) => {
            return Err(e);
        },
        Ok(()) => {},
    }
    let n = evals.len();
    let ell = integer::ceil_log2_usize(n);
    proof {
        integer::lemma_ceil_log2(n as nat);
        transcript::lemma_squeeze_many_len(T::model(), transcript.state(), ell as nat);
    }
    let t = transcript::squeeze_challenges::<Pcs::CommitmentChunk, F, T>(transcript, ell);
    let ghost tv = field::vals(t@);
    assert(t@.len() == tv.len());
    let weights = claim_factors(&t, n);
    let (picks, values) = split_claims(evals);
    assert(weights@.len() == field::vals(weights@).len());
    assert(values@.len() == field::vals(values@).len());
    let total = field::inner_product(&values, &weights);
    let size = integer::pow2_usize(num_vars);
    assert forall|i: int| 0 <= i < picks@.len() implies (#[trigger] picks@[i]) < polys@.len()
        && pv[picks@[i] as int].len() == size by {
        assert(ev[i].poly == picks@[i]);
    }
    let ghost ts = merged_products(pv, qv, ev, tv, size as nat, m);
    let mut merged_polys: Vec<Vec<F>> = Vec::new();
    let mut products: Vec<Product<F>> = Vec::new();
    let mut p: usize = 0;
    while p < points.len()
        invariant
            p <= points.len(),
            m == F::modulus(),
            pv == pcs::polys_vals(polys@),
            qv == pcs::points_vals(points@),
            ev == pcs::evaluations_vals(evals@),
            n == evals@.len(),
            size == pow2(nv),
            picks@.len() == n,
            picks_vals(picks@) == picked(ev),
            weights@.len() == n,
            field::vals(weights@) == factors(tv, evals@.len(), m),
            forall|i: int|
                0 <= i < picks@.len() ==> (#[trigger] picks@[i]) < polys@.len()
                    && pv[picks@[i] as int].len() == size,
            forall|p: int| 0 <= p < qv.len() ==> (#[trigger] qv[p]).len() == nv,
            ts == merged_products(pv, qv, ev, tv, size as nat, m),
            merged_polys@.len() == p,
            products@.len() == p,
            forall|j: int| 0 <= j < p ==> (#[trigger] products@[j]).vals() == ts[j],
            forall|j: int|
                0 <= j < p ==> field::vals(#[trigger] merged_polys@[j]@) == merged(
                    pv,
                    ev,
                    tv,
                    j,
                    size as nat,
                    m,
                ),
        decreases points.len() - p,
    {
        let masked_weights = mask(evals, &weights, p, Ghost(tv));
        assert(masked_weights@.len() == field::vals(masked_weights@).len());
        let lhs = weigh(&polys, &picks, &masked_weights, size);
        assert(qv[p as int] == field::vals(points@[p as int]@));
        assert(qv[p as int].len() == nv);
        let rhs = multilinear::compute_tensor_product(&points[p]);
        let copy = multilinear::clone_elements(&lhs);
        let product = Product { scalar: F::one(), lhs, rhs };
        proof {
            assert(product.vals().rhs =~= ts[p as int].rhs);
            assert(product.vals() =~= ts[p as int]);
        }
        products.push(product);
        merged_polys.push(copy);
        p = p + 1;
    }
    proof {
        assert(sum_check::products_vals(products@) =~= ts);
        assert(sum_check::of_size(ts, nv));
    }
    let ghost before = transcript.state();
    let (g_prime_eval, challenges) = match sum_check::prove(
        Form::Coefficients,
        num_vars,
        products,
        total,
        transcript,
    ) {
        Err(e) => {
            return Err(e);
        },
        Ok(out) => out,
    };
    let ghost uv = field::vals(challenges@);
    proof {
        sum_check::lemma_challenges_len(
            Form::Coefficients,
            T::model(),
            before,
            ts,
            total.val(),
            nv,
            m,
        );
        assert(uv.len() == challenges@.len());
        assert forall|p: int| 0 <= p < points@.len() implies (#[trigger] points@[p])@.len()
            == challenges@.len() by {
            assert(qv[p].len() == nv);
        }
    }
    let eqs = eq_with_points(&challenges, points);
    assert(eqs@.len() == field::vals(eqs@).len());
    let g = combine_merged(
        &merged_polys,
        &eqs,
        size,
        Ghost(pv),
        Ghost(qv),
        Ghost(ev),
        Ghost(tv),
        Ghost(uv),
    );
    assert(g@.len() == field::vals(g@).len());
    assert(integer::is_pow2(g@.len() as int)) by {
        assert(pow2(nv) == g@.len());
    }
    let g_poly = MultilinearPolynomial::new(g);
    let comm = Pcs::default_commitment();
    Pcs::open(pp, &g_poly, &comm, &challenges, &g_prime_eval, transcript)
}

/// The polynomial that is opened in the end.
fn combine_merged<F: PrimeField>(
    merged_polys: &Vec<Vec<F>>,
    eqs: &Vec<F>,
    size: usize,
    Ghost(pv): Ghost<Seq<Seq<int>>>,
    Ghost(qv): Ghost<Seq<Seq<int>>>,
    Ghost(ev): Ghost<Seq<EvaluationView>>,
    Ghost(tv): Ghost<Seq<int>>,
    Ghost(uv): Ghost<Seq<int>>,
) -> (r: Vec<F>)
    requires
        merged_polys@.len() == qv.len(),
        eqs@.len() == qv.len(),
        field::vals(eqs@) == point_factors(uv, qv, F::modulus()),
        forall|j: int|
            0 <= j < qv.len() ==> field::vals(#[trigger] merged_polys@[j]@) == merged(
                pv,
                ev,
                tv,
                j,
                size as nat,
                F::modulus(),
            ),
    ensures
        field::vals(r@) == g_prime(pv, qv, ev, tv, uv, size as nat, F::modulus()),
{
    let ghost m = F::modulus();
    proof {
        F::modulus_is_odd();
        modular::lemma_small(0, m);
    }
    let n = eqs.len();
    let mut r: Vec<F> = Vec::new();
    let mut b: usize = 0;
    while b < size
        invariant
            b <= size,
            n == eqs@.len(),
            n == qv.len(),
            merged_polys@.len() == n,
            m == F::modulus(),
            m > 2,
            field::vals(eqs@) == point_factors(uv, qv, m),
            forall|j: int|
                0 <= j < qv.len() ==> field::vals(#[trigger] merged_polys@[j]@) == merged(
                    pv,
                    ev,
                    tv,
                    j,
                    size as nat,
                    m,
                ),
            r@.len() == b,
            forall|t: int|
                0 <= t < b ==> (#[trigger] r@[t]).val() == g_prime(
                    pv,
                    qv,
                    ev,
                    tv,
                    uv,
                    size as nat,
                    m,
                )[t],
        decreases size - b,
    {
        let ghost f = |p: int|
            point_factors(uv, qv, m)[p] * merged(pv, ev, tv, p, size as nat, m)[b as int];
        let mut acc = F::zero();
        let mut p: usize = 0;
        proof {
            modular::lemma_small(0, m);
        }
        while p < n
            invariant
                p <= n,
                b < size,
                n == eqs@.len(),
                n == qv.len(),
                merged_polys@.len() == n,
                m == F::modulus(),
                m > 2,
                field::vals(eqs@) == point_factors(uv, qv, m),
                forall|j: int|
                    0 <= j < qv.len() ==> field::vals(#[trigger] merged_polys@[j]@) == merged(
                        pv,
                        ev,
                        tv,
                        j,
                        size as nat,
                        m,
                    ),
                f == (|p: int|
                    point_factors(uv, qv, m)[p] * merged(pv, ev, tv, p, size as nat, m)[b as int]),
                acc.val() == sum::sum_to(f, p as nat) % m,
            decreases n - p,
        {
            assert(field::vals(merged_polys@[p as int]@).len() == size);
            assert(field::vals(merged_polys@[p as int]@)[b as int] == merged_polys@[p as int]@[b as int].val());
            assert(field::vals(eqs@)[p as int] == eqs@[p as int].val());
            let x = eqs[p].mul(merged_polys[p][b]);
            proof {
                lemma_add_mod_noop(sum::sum_to(f, p as nat), f(p as int), m);
            }
            acc = acc.add(x);
            p = p + 1;
        }
        r.push(acc);
        b = b + 1;
    }
    assert(field::vals(r@) =~= g_prime(pv, qv, ev, tv, uv, size as nat, m));
    r
}

/// Collects the commitments that `picks` names.
fn pick_comms<'a, T>(comms: &Vec<&'a T>, picks: &Vec<usize>) -> (r: Vec<&'a T>)
    requires
        forall|i: int| 0 <= i < picks@.len() ==> (#[trigger] picks@[i]) < comms@.len(),
    ensures
        pcs::pointees(r@) == picked_comms(pcs::pointees(comms@), picks_vals(picks@)),
        r@.len() == picks@.len(),
{
    let mut r: Vec<&'a T> = Vec::new();
    let mut i: usize = 0;
    while i < picks.len()
        invariant
            i <= picks.len(),
            forall|i: int| 0 <= i < picks@.len() ==> (#[trigger] picks@[i]) < comms@.len(),
            r@.len() == i,
            forall|j: int| 0 <= j < i ==> #[trigger] r@[j] == comms@[picks@[j] as int],
        decreases picks.len() - i,
    {
        assert(picks@[i as int] < comms@.len());
        r.push(comms[picks[i]]);
        i = i + 1;
    }
    assert(pcs::pointees(r@) =~= picked_comms(pcs::pointees(comms@), picks_vals(picks@)));
    r
}

/// What verifying claims asks for, once the points are in order: the claims name
/// commitments and points.
pub open spec fn well_posed_for_verifier(
    num_vars: nat,
    num_comms: nat,
    points: Seq<Seq<int>>,
    evals: Seq<EvaluationView>,
) -> bool {
    &&& pow2(integer::ceil_log2(evals.len())) <= usize::MAX
    &&& forall|i: int|
        0 <= i < evals.len() ==> 0 <= (#[trigger] evals[i]).poly < num_comms && 0 <= evals[i].point
            < points.len()
    &&& forall|p: int| 0 <= p < points.len() ==> (#[trigger] points[p]).len() == num_vars
}

/// Verifies an opening of all claims through one.
pub fn batch_verify<
    F: PrimeField,
    Pcs: PolynomialCommitmentScheme<F>,
    T: TranscriptRead<Pcs::CommitmentChunk, F>,
>(
    vp: &Pcs::VerifierParam,
    num_vars: usize,
    comms: Vec<&Pcs::Commitment>,
    points: &[Vec<F>],
    evals: &[Evaluation<F>],
    transcript: &mut T,
) -> (r: Result<(), Error>) where Pcs::Commitment: Additive<F>
    requires
        points@.len() > 0,
        claims::input_error(
            "batch verify"@,
            num_vars as nat,
            Seq::empty(),
            claims::lengths(pcs::points_vals(points@)),
        ) is None ==> {
            &&& well_posed_for_verifier(
                num_vars as nat,
                comms@.len(),
                pcs::points_vals(points@),
                pcs::evaluations_vals(evals@),
            )
            &&& Pcs::can_verify(*vp, num_vars as nat)
        },
    ensures
        transcript::moved_to(
            r,
            final(transcript).state(),
            batch_verify_spec::<F, Pcs>(
                *vp,
                num_vars as nat,
                pcs::pointees(comms@),
                pcs::points_vals(points@),
                pcs::evaluations_vals(evals@),
                T::model(),
                old(transcript).state(),
            ),
        ),
{
    let ghost m = F::modulus();
    let ghost qv = pcs::points_vals(points@);
    let ghost ev = pcs::evaluations_vals(evals@);
    let ghost nv = num_vars as nat;
    let none: Vec<&MultilinearPolynomial<F>> = Vec::new();
    proof {
        assert(claims::variables(pcs::polys_vals(none@)) =~= Seq::empty());
    }
    match claims::validate_input("batch verify", num_vars, &none, points) {
        Err(e) => {
            return Err(e);
        },
        Ok(()) => {},
    }
    let n = evals.len();
    let ell = integer::ceil_log2_usize(n);
    proof {
        integer::lemma_ceil_log2(n as nat);
        transcript::lemma_squeeze_many_len(T::model(), transcript.state(), ell as nat);
    }
    let t = transcript::squeeze_challenges::<Pcs::CommitmentChunk, F, T>(transcript, ell);
    let ghost tv = field::vals(t@);
    assert(t@.len() == tv.len());
    let weights = claim_factors(&t, n);
    let (picks, values) = split_claims(evals);
    assert(weights@.len() == field::vals(weights@).len());
    assert(values@.len() == field::vals(values@).len());
    let total = field::inner_product(&values, &weights);
    let ghost before = transcript.state();
    let (g_prime_eval, challenges) = match sum_check::verify::<Pcs::CommitmentChunk, F, T>(
        Form::Coefficients,
        num_vars,
        total,
        transcript,
    ) {
        Err(e) => {
            return Err(e);
        },
        Ok(out) => out,
    };
    let ghost uv = field::vals(challenges@);
    proof {
        sum_check::lemma_read_challenges_len(T::model(), before, nv);
        assert(uv.len() == challenges@.len());
        assert forall|p: int| 0 <= p < points@.len() implies (#[trigger] points@[p])@.len()
            == challenges@.len() by {
            assert(qv[p].len() == nv);
        }
    }
    let eqs = eq_with_points(&challenges, points);
    assert(eqs@.len() == field::vals(eqs@).len());
    let mut scalars: Vec<F> = Vec::new();
    let mut i: usize = 0;
    while i < n
        invariant
            i <= n,
            n == evals@.len(),
            m == F::modulus(),
            qv == pcs::points_vals(points@),
            ev == pcs::evaluations_vals(evals@),
            eqs@.len() == points@.len(),
            weights@.len() == n,
            field::vals(weights@) == factors(tv, evals@.len(), m),
            field::vals(eqs@) == point_factors(uv, qv, m),
            forall|i: int|
                0 <= i < ev.len() ==> 0 <= (#[trigger] ev[i]).point < qv.len(),
            scalars@.len() == i,
            forall|j: int|
                0 <= j < i ==> (#[trigger] scalars@[j]).val() == comm_factors(qv, ev, tv, uv, m)[j],
        decreases n - i,
    {
        assert(0 <= ev[i as int].point < qv.len());
        assert(field::vals(eqs@)[ev[i as int].point] == eqs@[evals@[i as int].point as int].val());
        assert(field::vals(weights@)[i as int] == weights@[i as int].val());
        scalars.push(eqs[evals[i].point()].mul(weights[i]));
        i = i + 1;
    }
    assert(field::vals(scalars@) =~= comm_factors(qv, ev, tv, uv, m));
    assert forall|i: int| 0 <= i < picks@.len() implies (#[trigger] picks@[i]) < comms@.len() by {
        assert(ev[i].poly == picks@[i]);
    }
    let bases = pick_comms(&comms, &picks);
    let g_prime_comm = Pcs::Commitment::msm(&scalars, &bases);
    Pcs::verify(vp, &g_prime_comm, &challenges, &g_prime_eval, transcript)
}

/// The claims about polynomials rotated by `rotation`, in order.
pub open spec fn claims_at(evals: Seq<ShiftEvaluationView>, rotation: int) -> Seq<
    ShiftEvaluationView,
>
    decreases evals.len(),
{
    if evals.len() == 0 {
        Seq::empty()
    } else {
        let before = claims_at(evals.drop_last(), rotation);
        if evals.last().rotation == rotation {
            before.push(evals.last())
        } else {
            before
        }
    }
}

/// The rotations that occur in the claims, other than none, in increasing order.
pub open spec fn rotations(evals: Seq<ShiftEvaluationView>) -> Seq<int>
    decreases evals.len(),
{
    if evals.len() == 0 {
        Seq::empty()
    } else {
        let before = rotations(evals.drop_last());
        if evals.last().rotation == 0 {
            before
        } else {
            ordered::insert(before, evals.last().rotation)
        }
    }
}

/// The polynomials that the claims are about.
pub open spec fn shift_picked(evals: Seq<ShiftEvaluationView>) -> Seq<int> {
    evals.map_values(|e: ShiftEvaluationView| e.poly)
}

/// The values that the claims state.
pub open spec fn shift_values(evals: Seq<ShiftEvaluationView>) -> Seq<int> {
    evals.map_values(|e: ShiftEvaluationView| e.value)
}

/// The rotations come in increasing order, and are those of the claims, but for none.
pub proof fn law_rotations(evals: Seq<ShiftEvaluationView>)
    ensures
        ordered::increasing(rotations(evals)),
        forall|x: int| #[trigger]
            rotations(evals).contains(x) <==> x != 0 && exists|i: int|
                0 <= i < evals.len() && (#[trigger] evals[i]).rotation == x,
    decreases evals.len(),
{
    if evals.len() > 0 {
        let init = evals.drop_last();
        let last = evals.last();
        law_rotations(init);
        ordered::law_insert_keeps_order(rotations(init), last.rotation);
        assert forall|x: int| #[trigger] rotations(evals).contains(x) <==> x != 0 && exists|i: int|
            0 <= i < evals.len() && (#[trigger] evals[i]).rotation == x by {
            if exists|i: int| 0 <= i < init.len() && (#[trigger] init[i]).rotation == x {
                let i = choose|i: int| 0 <= i < init.len() && (#[trigger] init[i]).rotation == x;
                assert(evals[i].rotation == x);
            }
            if exists|i: int| 0 <= i < evals.len() && (#[trigger] evals[i]).rotation == x {
                let i = choose|i: int| 0 <= i < evals.len() && (#[trigger] evals[i]).rotation == x;
                if i < init.len() {
                    assert(init[i].rotation == x);
                } else {
                    assert(last.rotation == x);
                }
            }
            if last.rotation == x {
                assert(evals[evals.len() - 1].rotation == x);
            }
            assert(init.len() > 0 || rotations(init).len() == 0);
        }
    }
}

/// How many challenges combine a group of `n` claims about rotated polynomials.
pub open spec fn group_draws(n: nat) -> nat {
    if n == 1 {
        2
    } else {
        integer::ceil_log2(n)
    }
}

/// The transcript after the claims about polynomials rotated by `rotation` are opened.
pub open spec fn open_group<F: PrimeField, Pcs: PolynomialCommitmentScheme<F>>(
    pp: Pcs::ProverParam,
    polys: Seq<Seq<int>>,
    point: Seq<int>,
    evals: Seq<ShiftEvaluationView>,
    rotation: int,
    mo: Model<Pcs::CommitmentChunk>,
    st: State<Pcs::CommitmentChunk>,
) -> Result<State<Pcs::CommitmentChunk>, Halt<Pcs::CommitmentChunk>> {
    let m = F::modulus();
    let group = claims_at(evals, rotation);
    let (t, s) = transcript::squeeze_many(mo, st, group_draws(group.len()));
    let weights = factors(t, group.len(), m);
    Pcs::open_shift_spec(
        pp,
        weighted(polys, shift_picked(group), weights, polys[0].len(), m),
        Pcs::no_commitment(),
        point,
        weighted_value(shift_values(group), weights, m),
        rotation,
        mo,
        s,
    )
}

/// The transcript after the groups of the given rotations are opened.
pub open spec fn open_groups<F: PrimeField, Pcs: PolynomialCommitmentScheme<F>>(
    pp: Pcs::ProverParam,
    polys: Seq<Seq<int>>,
    point: Seq<int>,
    evals: Seq<ShiftEvaluationView>,
    rots: Seq<int>,
    mo: Model<Pcs::CommitmentChunk>,
    st: State<Pcs::CommitmentChunk>,
) -> Result<State<Pcs::CommitmentChunk>, Halt<Pcs::CommitmentChunk>>
    decreases rots.len(),
{
    if rots.len() == 0 {
        Ok(st)
    } else {
        match open_groups::<F, Pcs>(pp, polys, point, evals, rots.drop_last(), mo, st) {
            Err(e) => Err(e),
            Ok(s) => open_group::<F, Pcs>(pp, polys, point, evals, rots.last(), mo, s),
        }
    }
}

/// The polynomial that is opened for the claims `cur` about polynomials that are not
/// rotated: a single polynomial as it is, several in combination.
pub open spec fn merged_cur(
    polys: Seq<Seq<int>>,
    cur: Seq<ShiftEvaluationView>,
    weights: Seq<int>,
    m: int,
) -> Seq<int> {
    if cur.len() == 1 {
        polys[cur[0].poly]
    } else {
        weighted(polys, shift_picked(cur), weights, polys[0].len(), m)
    }
}

/// The transcript after the claims about polynomials that are not rotated are opened.
pub open spec fn open_cur<F: PrimeField, Pcs: PolynomialCommitmentScheme<F>>(
    pp: Pcs::ProverParam,
    polys: Seq<Seq<int>>,
    point: Seq<int>,
    evals: Seq<ShiftEvaluationView>,
    t: Seq<int>,
    mo: Model<Pcs::CommitmentChunk>,
    st: State<Pcs::CommitmentChunk>,
) -> Result<State<Pcs::CommitmentChunk>, Halt<Pcs::CommitmentChunk>> {
    let m = F::modulus();
    let cur = claims_at(evals, 0);
    if cur.len() == 0 {
        Ok(st)
    } else {
        let weights = factors(t, cur.len(), m);
        Pcs::open_spec(
            pp,
            merged_cur(polys, cur, weights, m),
            Pcs::no_commitment(),
            point,
            weighted_value(shift_values(cur), weights, m),
            mo,
            st,
        )
    }
}

/// The transcript after all claims are opened at the first point.
pub open spec fn batch_open_for_shift_spec<F: PrimeField, Pcs: PolynomialCommitmentScheme<F>>(
    pp: Pcs::ProverParam,
    num_vars: nat,
    polys: Seq<Seq<int>>,
    points: Seq<Seq<int>>,
    evals: Seq<ShiftEvaluationView>,
    mo: Model<Pcs::CommitmentChunk>,
    st: State<Pcs::CommitmentChunk>,
) -> Result<State<Pcs::CommitmentChunk>, Halt<Pcs::CommitmentChunk>> {
    match claims::input_error(
        "batch open"@,
        num_vars,
        claims::variables(polys),
        claims::lengths(points),
    ) {
        Some(e) => Err(Halt { error: e, state: st }),
        None => {
            let (t, s) = draw_factors(mo, st, evals.len());
            match open_cur::<F, Pcs>(pp, polys, points[0], evals, t, mo, s) {
                Err(e) => Err(e),
                Ok(u) => open_groups::<F, Pcs>(
                    pp,
                    polys,
                    points[0],
                    evals,
                    rotations(evals),
                    mo,
                    u,
                ),
            }
        },
    }
}

/// What verifying the claims about polynomials rotated by `rotation` comes to.
pub open spec fn verify_group<F: PrimeField, Pcs: PolynomialCommitmentScheme<F>>(
    vp: Pcs::VerifierParam,
    comms: Seq<Pcs::Commitment>,
    point: Seq<int>,
    evals: Seq<ShiftEvaluationView>,
    rotation: int,
    mo: Model<Pcs::CommitmentChunk>,
    st: State<Pcs::CommitmentChunk>,
) -> Result<State<Pcs::CommitmentChunk>, Halt<Pcs::CommitmentChunk>> where Pcs::Commitment: Additive<F> {
    let m = F::modulus();
    let group = claims_at(evals, rotation);
    let (t, s) = transcript::squeeze_many(mo, st, group_draws(group.len()));
    let weights = factors(t, group.len(), m);
    Pcs::verify_shifted_evaluation_spec(
        vp,
        Pcs::Commitment::msm_spec(weights, picked_comms(comms, shift_picked(group))),
        point,
        weighted_value(shift_values(group), weights, m),
        rotation,
        mo,
        s,
    )
}

/// What verifying the groups of the given rotations comes to.
pub open spec fn verify_groups<F: PrimeField, Pcs: PolynomialCommitmentScheme<F>>(
    vp: Pcs::VerifierParam,
    comms: Seq<Pcs::Commitment>,
    point: Seq<int>,
    evals: Seq<ShiftEvaluationView>,
    rots: Seq<int>,
    mo: Model<Pcs::CommitmentChunk>,
    st: State<Pcs::CommitmentChunk>,
) -> Result<State<Pcs::CommitmentChunk>, Halt<Pcs::CommitmentChunk>> where Pcs::Commitment: Additive<F>
    decreases rots.len(),
{
    if rots.len() == 0 {
        Ok(st)
    } else {
        match verify_groups::<F, Pcs>(vp, comms, point, evals, rots.drop_last(), mo, st) {
            Err(e) => Err(e),
            Ok(s) => verify_group::<F, Pcs>(vp, comms, point, evals, rots.last(), mo, s),
        }
    }
}

/// What verifying the claims about polynomials that are not rotated comes to.
pub open spec fn verify_cur<F: PrimeField, Pcs: PolynomialCommitmentScheme<F>>(
    vp: Pcs::VerifierParam,
    comms: Seq<Pcs::Commitment>,
    point: Seq<int>,
    evals: Seq<ShiftEvaluationView>,
    t: Seq<int>,
    mo: Model<Pcs::CommitmentChunk>,
    st: State<Pcs::CommitmentChunk>,
) -> Result<State<Pcs::CommitmentChunk>, Halt<Pcs::CommitmentChunk>> where Pcs::Commitment: Additive<F> {
    let m = F::modulus();
    let cur = claims_at(evals, 0);
    let weights = factors(t, cur.len(), m);
    Pcs::verify_spec(
        vp,
        Pcs::Commitment::msm_spec(weights, picked_comms(comms, shift_picked(cur))),
        point,
        weighted_value(shift_values(cur), weights, m),
        mo,
        st,
    )
}

/// What verifying all claims at the first point comes to. Whether the claims about
/// polynomials that are not rotated hold does not decide the outcome: either way, it goes
/// on from where their check left the transcript.
pub open spec fn batch_verify_for_shift_spec<F: PrimeField, Pcs: PolynomialCommitmentScheme<F>>(
    vp: Pcs::VerifierParam,
    num_vars: nat,
    comms: Seq<Pcs::Commitment>,
    points: Seq<Seq<int>>,
    evals: Seq<ShiftEvaluationView>,
    mo: Model<Pcs::CommitmentChunk>,
    st: State<Pcs::CommitmentChunk>,
) -> Result<State<Pcs::CommitmentChunk>, Halt<Pcs::CommitmentChunk>> where Pcs::Commitment: Additive<F> {
    match claims::input_error("batch verify"@, num_vars, Seq::empty(), claims::lengths(points)) {
        Some(e) => Err(Halt { error: e, state: st }),
        None => {
            let (t, s) = draw_factors(mo, st, evals.len());
            let after = left_by(verify_cur::<F, Pcs>(vp, comms, points[0], evals, t, mo, s));
            verify_groups::<F, Pcs>(vp, comms, points[0], evals, rotations(evals), mo, after)
        },
    }
}

/// The state in which the transcript is left, whatever the outcome.
pub open spec fn left_by<C>(verdict: Result<State<C>, Halt<C>>) -> State<C> {
    match verdict {
        Ok(s) => s,
        Err(h) => h.state,
    }
}

/// Selecting claims takes no more than there are, and only claims that are there.
pub proof fn lemma_claims_at(evals: Seq<ShiftEvaluationView>, rotation: int)
    ensures
        claims_at(evals, rotation).len() <= evals.len(),
        forall|j: int|
            0 <= j < claims_at(evals, rotation).len() ==> evals.contains(
                #[trigger] claims_at(evals, rotation)[j],
            ),
    decreases evals.len(),
{
    if evals.len() > 0 {
        let init = evals.drop_last();
        lemma_claims_at(init, rotation);
        let all = claims_at(evals, rotation);
        assert forall|j: int| 0 <= j < all.len() implies evals.contains(#[trigger] all[j]) by {
            let before = claims_at(init, rotation);
            if j < before.len() {
                assert(init.contains(before[j]));
                let i = choose|i: int| 0 <= i < init.len() && init[i] == before[j];
                assert(evals[i] == all[j]);
            } else {
                assert(evals[evals.len() - 1] == all[j]);
            }
        }
    }
}

/// The polynomials and values of the claims about polynomials rotated by `rotation`.
fn select<F: PrimeField>(evals: &[Evaluation_for_shift<F>], rotation: i32) -> (r: (
    Vec<usize>,
    Vec<F>,
))
    ensures
        ({
            let group = claims_at(pcs::shift_evaluations_vals(evals@), rotation as int);
            &&& picks_vals(r.0@) == shift_picked(group)
            &&& field::vals(r.1@) == shift_values(group)
            &&& r.0@.len() == group.len()
            &&& r.1@.len() == group.len()
        }),
{
    let ghost ev = pcs::shift_evaluations_vals(evals@);
    let mut picks: Vec<usize> = Vec::new();
    let mut values: Vec<F> = Vec::new();
    let mut i: usize = 0;
    assert(ev.take(0) =~= Seq::empty());
    assert(picks_vals(picks@) =~= shift_picked(Seq::empty()));
    assert(field::vals(values@) =~= shift_values(Seq::empty()));
    while i < evals.len()
        invariant
            i <= evals.len(),
            ev == pcs::shift_evaluations_vals(evals@),
            picks_vals(picks@) == shift_picked(claims_at(ev.take(i as int), rotation as int)),
            field::vals(values@) == shift_values(claims_at(ev.take(i as int), rotation as int)),
        decreases evals.len() - i,
    {
        let ghost before = claims_at(ev.take(i as int), rotation as int);
        assert(ev.take(i + 1).drop_last() =~= ev.take(i as int));
        assert(ev.take(i + 1).last() == evals@[i as int].vals());
        let ghost after = claims_at(ev.take(i + 1), rotation as int);
        if evals[i].rotation().0 == rotation {
            let ghost p0 = picks@;
            let ghost v0 = values@;
            picks.push(evals[i].poly());
            values.push(*evals[i].value());
            assert(after == before.push(evals@[i as int].vals()));
            assert(picks_vals(picks@) =~= picks_vals(p0).push(evals@[i as int].poly as int));
            assert(field::vals(values@) =~= field::vals(v0).push(evals@[i as int].value.val()));
            assert(shift_picked(after) =~= shift_picked(before).push(evals@[i as int].poly as int));
            assert(shift_values(after) =~= shift_values(before).push(evals@[i as int].value.val()));
        }
        i = i + 1;
    }
    assert(ev.take(ev.len() as int) =~= ev);
    assert(picks@.len() == picks_vals(picks@).len());
    assert(values@.len() == field::vals(values@).len());
    (picks, values)
}

/// The rotations that occur in the claims, other than none.
fn list_rotations<F: PrimeField>(evals: &[Evaluation_for_shift<F>]) -> (r: Vec<i32>)
    ensures
        r@.map_values(|x: i32| x as int) == rotations(pcs::shift_evaluations_vals(evals@)),
{
    let ghost ev = pcs::shift_evaluations_vals(evals@);
    let mut set = ordered::no_entries();
    let mut i: usize = 0;
    assert(ev.take(0) =~= Seq::empty());
    while i < evals.len()
        invariant
            i <= evals.len(),
            ev == pcs::shift_evaluations_vals(evals@),
            ordered::lists(rotations(ev.take(i as int)), set@),
        decreases evals.len() - i,
    {
        assert(ev.take(i + 1).drop_last() =~= ev.take(i as int));
        assert(ev.take(i + 1).last() == evals@[i as int].vals());
        let rotation = evals[i].rotation().0;
        if rotation != 0 {
            ordered::add_entry(&mut set, rotation as i128);
        }
        i = i + 1;
    }
    assert(ev.take(ev.len() as int) =~= ev);
    let found = ordered::entries(&set);
    proof {
        law_rotations(ev);
        assert forall|j: int| 0 <= j < found@.len() implies i32::MIN <= (#[trigger] found@[j])
            <= i32::MAX by {
            assert(ordered::ints(found@)[j] == found@[j]);
            assert(rotations(ev).contains(rotations(ev)[j]));
            let a = choose|a: int| 0 <= a < ev.len() && (#[trigger] ev[a]).rotation == rotations(ev)[j];
            assert(ev[a] == evals@[a].vals());
        }
    }
    let mut r: Vec<i32> = Vec::new();
    let mut j: usize = 0;
    while j < found.len()
        invariant
            j <= found.len(),
            r@.len() == j,
            forall|t: int|
                0 <= t < found@.len() ==> i32::MIN <= (#[trigger] found@[t]) <= i32::MAX,
            forall|t: int| 0 <= t < j ==> (#[trigger] r@[t]) == found@[t],
        decreases found.len() - j,
    {
        assert(i32::MIN <= found@[j as int] <= i32::MAX);
        r.push(found[j] as i32);
        j = j + 1;
    }
    assert(r@.map_values(|x: i32| x as int) =~= ordered::ints(found@));
    r
}

/// What an opening of claims at one point asks for, once its input is in order: the
/// claims name polynomials as large as the first.
pub open spec fn well_posed_for_shift(
    num_vars: nat,
    polys: Seq<Seq<int>>,
    points: Seq<Seq<int>>,
    evals: Seq<ShiftEvaluationView>,
) -> bool {
    &&& pow2(integer::ceil_log2(evals.len())) <= usize::MAX
    &&& evals.len() > 0 ==> points.len() > 0
    &&& claims_at(evals, 0).len() > 0 ==> polys[0].len() == pow2(num_vars)
    &&& forall|i: int|
        0 <= i < evals.len() ==> {
            &&& 0 <= (#[trigger] evals[i]).poly < polys.len()
            &&& polys[evals[i].poly].len() == polys[0].len()
        }
}

/// Draws the challenges for a group of claims, and makes its factors.
fn draw_group_factors<C, F: PrimeField, T: transcript::Transcript<C, F>>(
    n: usize,
    transcript: &mut T,
) -> (r: Vec<F>)
    requires
        pow2(integer::ceil_log2(n as nat)) <= usize::MAX,
    ensures
        ({
            let (t, s) = transcript::squeeze_many(
                T::model(),
                old(transcript).state(),
                group_draws(n as nat),
            );
            &&& field::vals(r@) == factors(t, n as nat, F::modulus())
            &&& r@.len() == n
            &&& final(transcript).state() == s
        }),
{
    let ell = if n == 1 {
        2
    } else {
        integer::ceil_log2_usize(n)
    };
    proof {
        power2::lemma2_to64();
        integer::lemma_ceil_log2(n as nat);
        transcript::lemma_squeeze_many_len(T::model(), transcript.state(), ell as nat);
    }
    let t = transcript::squeeze_challenges::<C, F, T>(transcript, ell);
    assert(t@.len() == field::vals(t@).len());
    let r = claim_factors(&t, n);
    assert(r@.len() == field::vals(r@).len());
    r
}

/// The picks of a group of claims are in range.
proof fn lemma_group_picks(
    evals: Seq<ShiftEvaluationView>,
    rotation: int,
    polys: Seq<Seq<int>>,
    j: int,
)
    requires
        0 <= j < claims_at(evals, rotation).len(),
        forall|i: int|
            0 <= i < evals.len() ==> {
                &&& 0 <= (#[trigger] evals[i]).poly < polys.len()
                &&& polys[evals[i].poly].len() == polys[0].len()
            },
    ensures
        ({
            let pick = shift_picked(claims_at(evals, rotation))[j];
            0 <= pick < polys.len() && polys[pick].len() == polys[0].len()
        }),
{
    lemma_claims_at(evals, rotation);
    let group = claims_at(evals, rotation);
    assert(evals.contains(group[j]));
    let i = choose|i: int| 0 <= i < evals.len() && evals[i] == group[j];
    assert(0 <= evals[i].poly < polys.len());
}

/// Opens the claims about polynomials rotated by `rotation`.
fn open_rotated<
    F: PrimeField,
    Pcs: PolynomialCommitmentScheme<F>,
    T: TranscriptWrite<Pcs::CommitmentChunk, F>,
>(
    pp: &Pcs::ProverParam,
    polys: &Vec<&MultilinearPolynomial<F>>,
    point: &Vec<F>,
    evals: &[Evaluation_for_shift<F>],
    rotation: i32,
    transcript: &mut T,
) -> (r: Result<(), Error>)
    requires
        polys@.len() > 0,
        pow2(integer::ceil_log2(evals@.len())) <= usize::MAX,
        ({
            let pv = pcs::polys_vals(polys@);
            let ev = pcs::shift_evaluations_vals(evals@);
            forall|i: int|
                0 <= i < ev.len() ==> {
                    &&& 0 <= (#[trigger] ev[i]).poly < pv.len()
                    &&& pv[ev[i].poly].len() == pv[0].len()
                }
        }),
        Pcs::can_open(*pp, pcs::polys_vals(polys@)[0].len(), point@.len()),
    ensures
        transcript::moved_to(
            r,
            final(transcript).state(),
            open_group::<F, Pcs>(
                *pp,
                pcs::polys_vals(polys@),
                field::vals(point@),
                pcs::shift_evaluations_vals(evals@),
                rotation as int,
                T::model(),
                old(transcript).state(),
            ),
        ),
{
    let ghost pv = pcs::polys_vals(polys@);
    let ghost ev = pcs::shift_evaluations_vals(evals@);
    let (picks, values) = select(evals, rotation);
    let n = picks.len();
    let size = polys[0].evals().len();
    let num_vars = polys[0].num_vars();
    proof {
        lemma_claims_at(ev, rotation as int);
        integer::lemma_ceil_log2_monotone(n as nat, ev.len());
        integer::lemma_pow2_monotone(integer::ceil_log2(n as nat), integer::ceil_log2(ev.len()));
        assert(pv[0] == polys@[0].vals());
        assert forall|j: int| 0 <= j < picks@.len() implies (#[trigger] picks@[j]) < polys@.len()
            && pv[picks@[j] as int].len() == size by {
            lemma_group_picks(ev, rotation as int, pv, j);
            assert(picks_vals(picks@)[j] == picks@[j]);
        }
    }
    let weights = draw_group_factors::<Pcs::CommitmentChunk, F, T>(n, transcript);
    let merged_evals = weigh(polys, &picks, &weights, size);
    assert(merged_evals@.len() == field::vals(merged_evals@).len());
    assert(integer::is_pow2(merged_evals@.len() as int)) by {
        assert(pow2(num_vars as nat) == merged_evals@.len());
    }
    let merged_poly = MultilinearPolynomial::new(merged_evals);
    let merged_value = field::inner_product(&values, &weights);
    let comm = Pcs::default_commitment();
    Pcs::open_shift(
        pp,
        &merged_poly,
        &comm,
        point,
        &merged_value,
        &Rotation(rotation),
        transcript,
    )
}

/// An error in an early group stops the whole.
proof fn lemma_open_groups_prefix<F: PrimeField, Pcs: PolynomialCommitmentScheme<F>>(
    pp: Pcs::ProverParam,
    polys: Seq<Seq<int>>,
    point: Seq<int>,
    evals: Seq<ShiftEvaluationView>,
    rots: Seq<int>,
    k: int,
    mo: Model<Pcs::CommitmentChunk>,
    st: State<Pcs::CommitmentChunk>,
)
    requires
        0 <= k <= rots.len(),
        open_groups::<F, Pcs>(pp, polys, point, evals, rots.take(k), mo, st) is Err,
    ensures
        open_groups::<F, Pcs>(pp, polys, point, evals, rots, mo, st) == open_groups::<F, Pcs>(
            pp,
            polys,
            point,
            evals,
            rots.take(k),
            mo,
            st,
        ),
    decreases rots.len() - k,
{
    if k == rots.len() {
        assert(rots.take(k) =~= rots);
    } else {
        assert(rots.take(k + 1).drop_last() =~= rots.take(k));
        lemma_open_groups_prefix::<F, Pcs>(pp, polys, point, evals, rots, k + 1, mo, st);
    }
}

/// Opens all claims at the first point: those about polynomials that are not rotated
/// through one opening, the others through one opening per rotation.
pub fn batch_open_for_shift<
    F: PrimeField,
    Pcs: PolynomialCommitmentScheme<F>,
    T: TranscriptWrite<Pcs::CommitmentChunk, F>,
>(
    pp: &Pcs::ProverParam,
    num_vars: usize,
    polys: Vec<&MultilinearPolynomial<F>>,
    _comms: Vec<&Pcs::Commitment>,
    points: &[Vec<F>],
    evals: &[Evaluation_for_shift<F>],
    transcript: &mut T,
) -> (r: Result<(), Error>) where Pcs::Commitment: Additive<F>
    requires
        polys@.len() + points@.len() > 0,
        claims::input_error(
            "batch open"@,
            num_vars as nat,
            claims::variables(pcs::polys_vals(polys@)),
            claims::lengths(pcs::points_vals(points@)),
        ) is None ==> {
            &&& well_posed_for_shift(
                num_vars as nat,
                pcs::polys_vals(polys@),
                pcs::points_vals(points@),
                pcs::shift_evaluations_vals(evals@),
            )
            &&& evals@.len() > 0 ==> Pcs::can_open(
                *pp,
                pcs::polys_vals(polys@)[0].len(),
                pcs::points_vals(points@)[0].len(),
            )
        },
    ensures
        transcript::moved_to(
            r,
            final(transcript).state(),
            batch_open_for_shift_spec::<F, Pcs>(
                *pp,
                num_vars as nat,
                pcs::polys_vals(polys@),
                pcs::points_vals(points@),
                pcs::shift_evaluations_vals(evals@),
                T::model(),
                old(transcript).state(),
            ),
        ),
{
    let ghost m = F::modulus();
    let ghost mo = T::model();
    let ghost pv = pcs::polys_vals(polys@);
    let ghost qv = pcs::points_vals(points@);
    let ghost ev = pcs::shift_evaluations_vals(evals@);
    match claims::validate_input("batch open", num_vars, &polys, points) {
        Err(e) => {
            return Err(e);
        },
        Ok(()) => {},
    }
    let n = evals.len();
    let ell = integer::ceil_log2_usize(n);
    proof {
        integer::lemma_ceil_log2(n as nat);
        transcript::lemma_squeeze_many_len(T::model(), transcript.state(), ell as nat);
    }
    let t = transcript::squeeze_challenges::<Pcs::CommitmentChunk, F, T>(transcript, ell);
    let ghost tv = field::vals(t@);
    assert(t@.len() == tv.len());
    let (picks, values) = select(evals, 0);
    let ghost cur = claims_at(ev, 0);
    proof {
        lemma_claims_at(ev, 0);
        assert(n == ev.len());
        if n > 0 {
            assert(0 <= ev[0].poly < pv.len());
            assert(pv[0] == polys@[0].vals());
            assert(qv[0] == field::vals(points@[0]@));
        }
    }
    if picks.len() > 0 {
        let weights = claim_factors(&t, picks.len());
        assert(weights@.len() == field::vals(weights@).len());
        let size = polys[0].evals().len();
        let poly_vars = polys[0].num_vars();
        proof {
            assert forall|j: int| 0 <= j < picks@.len() implies (#[trigger] picks@[j]) < polys@.len()
                && pv[picks@[j] as int].len() == size by {
                lemma_group_picks(ev, 0, pv, j);
                assert(picks_vals(picks@)[j] == picks@[j]);
            }
        }
        let merged_value = field::inner_product(&values, &weights);
        let comm = Pcs::default_commitment();
        let opened = if picks.len() == 1 {
            proof {
                assert(picks@[0] < polys@.len() && pv[picks@[0] as int].len() == size);
                assert(picks_vals(picks@)[0] == cur[0].poly);
                assert(pv[picks@[0] as int] == polys@[picks@[0] as int].vals());
            }
            Pcs::open(pp, polys[picks[0]], &comm, &points[0], &merged_value, transcript)
        } else {
            let merged_evals = weigh(&polys, &picks, &weights, size);
            assert(merged_evals@.len() == field::vals(merged_evals@).len());
            assert(integer::is_pow2(merged_evals@.len() as int)) by {
                assert(pow2(poly_vars as nat) == merged_evals@.len());
            }
            let merged_poly = MultilinearPolynomial::new(merged_evals);
            Pcs::open(pp, &merged_poly, &comm, &points[0], &merged_value, transcript)
        };
        match opened {
            Err(e) => {
                return Err(e);
            },
            Ok(()) => {},
        }
    }
    let rots = list_rotations(evals);
    let ghost rv = rotations(ev);
    let ghost st = transcript.state();
    assert(open_cur::<F, Pcs>(*pp, pv, qv[0], ev, tv, mo, draw_factors(mo, old(transcript).state(), ev.len()).1)
        == Ok::<State<Pcs::CommitmentChunk>, Halt<Pcs::CommitmentChunk>>(st));
    assert(rots@.len() == rv.len());
    proof {
        law_rotations(ev);
        if rv.len() > 0 {
            assert(rv.contains(rv[0]));
        }
    }
    let mut i: usize = 0;
    assert(rv.take(0) =~= Seq::empty());
    while i < rots.len()
        invariant
            i <= rots.len(),
            mo == T::model(),
            pv == pcs::polys_vals(polys@),
            qv == pcs::points_vals(points@),
            ev == pcs::shift_evaluations_vals(evals@),
            rv == rots@.map_values(|x: i32| x as int),
            rots@.len() > 0 ==> {
                &&& polys@.len() > 0
                &&& points@.len() > 0
                &&& pow2(integer::ceil_log2(evals@.len())) <= usize::MAX
                &&& Pcs::can_open(*pp, pv[0].len(), qv[0].len())
            },
            forall|i: int|
                0 <= i < ev.len() ==> {
                    &&& 0 <= (#[trigger] ev[i]).poly < pv.len()
                    &&& pv[ev[i].poly].len() == pv[0].len()
                },
            open_groups::<F, Pcs>(*pp, pv, qv[0], ev, rv.take(i as int), mo, st) == Ok::<
                State<Pcs::CommitmentChunk>,
                Halt<Pcs::CommitmentChunk>,
            >(transcript.state()),
            batch_open_for_shift_spec::<F, Pcs>(
                *pp,
                num_vars as nat,
                pv,
                qv,
                ev,
                mo,
                old(transcript).state(),
            ) == open_groups::<F, Pcs>(*pp, pv, qv[0], ev, rv, mo, st),
        decreases rots.len() - i,
    {
        assert(rv.take(i + 1).drop_last() =~= rv.take(i as int));
        assert(qv[0] == field::vals(points@[0]@));
        match open_rotated::<F, Pcs, T>(pp, &polys, &points[0], evals, rots[i], transcript) {
            Err(e) => {
                proof {
                    lemma_open_groups_prefix::<F, Pcs>(*pp, pv, qv[0], ev, rv, i + 1, mo, st);
                }
                return Err(e);
            },
            Ok(()) => {},
        }
        i = i + 1;
    }
    assert(rv.take(rv.len() as int) =~= rv);
    Ok(())
}

/// What verifying claims at one point asks for, once the points are in order.
pub open spec fn well_posed_for_shift_verifier(
    num_comms: nat,
    evals: Seq<ShiftEvaluationView>,
) -> bool {
    &&& pow2(integer::ceil_log2(evals.len())) <= usize::MAX
    &&& forall|i: int| 0 <= i < evals.len() ==> 0 <= (#[trigger] evals[i]).poly < num_comms
}

/// Verifies the claims about polynomials rotated by `rotation`.
fn verify_rotated<
    F: PrimeField,
    Pcs: PolynomialCommitmentScheme<F>,
    T: TranscriptRead<Pcs::CommitmentChunk, F>,
>(
    vp: &Pcs::VerifierParam,
    comms: &Vec<&Pcs::Commitment>,
    point: &Vec<F>,
    evals: &[Evaluation_for_shift<F>],
    rotation: i32,
    transcript: &mut T,
) -> (r: Result<(), Error>) where Pcs::Commitment: Additive<F>
    requires
        well_posed_for_shift_verifier(comms@.len(), pcs::shift_evaluations_vals(evals@)),
        Pcs::can_verify(*vp, point@.len()),
    ensures
        transcript::moved_to(
            r,
            final(transcript).state(),
            verify_group::<F, Pcs>(
                *vp,
                pcs::pointees(comms@),
                field::vals(point@),
                pcs::shift_evaluations_vals(evals@),
                rotation as int,
                T::model(),
                old(transcript).state(),
            ),
        ),
{
    let ghost ev = pcs::shift_evaluations_vals(evals@);
    let (picks, values) = select(evals, rotation);
    let n = picks.len();
    proof {
        lemma_claims_at(ev, rotation as int);
        integer::lemma_ceil_log2_monotone(n as nat, ev.len());
        integer::lemma_pow2_monotone(integer::ceil_log2(n as nat), integer::ceil_log2(ev.len()));
        lemma_select_in_range(ev, rotation as int, picks@, comms@.len());
    }
    let weights = draw_group_factors::<Pcs::CommitmentChunk, F, T>(n, transcript);
    let merged_value = field::inner_product(&values, &weights);
    let bases = pick_comms(comms, &picks);
    let merged_comm = Pcs::Commitment::msm(&weights, &bases);
    Pcs::verify_shifted_evaluation(
        vp,
        &merged_comm,
        point,
        &merged_value,
        &Rotation(rotation),
        transcript,
    )
}

/// The claims of a group name commitments that are there.
proof fn lemma_select_in_range(
    evals: Seq<ShiftEvaluationView>,
    rotation: int,
    picks: Seq<usize>,
    num_comms: nat,
)
    requires
        picks_vals(picks) == shift_picked(claims_at(evals, rotation)),
        forall|i: int| 0 <= i < evals.len() ==> 0 <= (#[trigger] evals[i]).poly < num_comms,
    ensures
        forall|j: int| 0 <= j < picks.len() ==> (#[trigger] picks[j]) < num_comms,
{
    lemma_claims_at(evals, rotation);
    let group = claims_at(evals, rotation);
    assert forall|j: int| 0 <= j < picks.len() implies (#[trigger] picks[j]) < num_comms by {
        assert(picks_vals(picks)[j] == picks[j]);
        assert(picks_vals(picks).len() == group.len());
        assert(evals.contains(group[j]));
        let i = choose|i: int| 0 <= i < evals.len() && evals[i] == group[j];
        assert(0 <= evals[i].poly < num_comms);
    }
}

/// An error in an early group stops the whole.
proof fn lemma_verify_groups_prefix<F: PrimeField, Pcs: PolynomialCommitmentScheme<F>>(
    vp: Pcs::VerifierParam,
    comms: Seq<Pcs::Commitment>,
    point: Seq<int>,
    evals: Seq<ShiftEvaluationView>,
    rots: Seq<int>,
    k: int,
    mo: Model<Pcs::CommitmentChunk>,
    st: State<Pcs::CommitmentChunk>,
) where Pcs::Commitment: Additive<F>
    requires
        0 <= k <= rots.len(),
        verify_groups::<F, Pcs>(vp, comms, point, evals, rots.take(k), mo, st) is Err,
    ensures
        verify_groups::<F, Pcs>(vp, comms, point, evals, rots, mo, st) == verify_groups::<F, Pcs>(
            vp,
            comms,
            point,
            evals,
            rots.take(k),
            mo,
            st,
        ),
    decreases rots.len() - k,
{
    if k == rots.len() {
        assert(rots.take(k) =~= rots);
    } else {
        assert(rots.take(k + 1).drop_last() =~= rots.take(k));
        lemma_verify_groups_prefix::<F, Pcs>(vp, comms, point, evals, rots, k + 1, mo, st);
    }
}

/// Verifies the claims about rotated polynomials, one group per rotation. The claims about
/// polynomials that are not rotated are read off the proof before, but whether they hold
/// does not decide the outcome.
pub fn batch_verify_for_shift<
    F: PrimeField,
    Pcs: PolynomialCommitmentScheme<F>,
    T: TranscriptRead<Pcs::CommitmentChunk, F>,
>(
    vp: &Pcs::VerifierParam,
    num_vars: usize,
    comms: Vec<&Pcs::Commitment>,
    points: &[Vec<F>],
    evals: &[Evaluation_for_shift<F>],
    transcript: &mut T,
) -> (r: Result<(), Error>) where Pcs::Commitment: Additive<F>
    requires
        points@.len() > 0,
        claims::input_error(
            "batch verify"@,
            num_vars as nat,
            Seq::empty(),
            claims::lengths(pcs::points_vals(points@)),
        ) is None ==> {
            &&& well_posed_for_shift_verifier(comms@.len(), pcs::shift_evaluations_vals(evals@))
            &&& Pcs::can_verify(*vp, pcs::points_vals(points@)[0].len())
        },
    ensures
        transcript::moved_to(
            r,
            final(transcript).state(),
            batch_verify_for_shift_spec::<F, Pcs>(
                *vp,
                num_vars as nat,
                pcs::pointees(comms@),
                pcs::points_vals(points@),
                pcs::shift_evaluations_vals(evals@),
                T::model(),
                old(transcript).state(),
            ),
        ),
{
    let ghost mo = T::model();
    let ghost cv = pcs::pointees(comms@);
    let ghost qv = pcs::points_vals(points@);
    let ghost ev = pcs::shift_evaluations_vals(evals@);
    let none: Vec<&MultilinearPolynomial<F>> = Vec::new();
    proof {
        assert(claims::variables(pcs::polys_vals(none@)) =~= Seq::empty());
        assert(qv[0] == field::vals(points@[0]@));
    }
    match claims::validate_input("batch verify", num_vars, &none, points) {
        Err(e) => {
            return Err(e);
        },
        Ok(()) => {},
    }
    let n = evals.len();
    let ell = integer::ceil_log2_usize(n);
    proof {
        integer::lemma_ceil_log2(n as nat);
        transcript::lemma_squeeze_many_len(T::model(), transcript.state(), ell as nat);
    }
    let t = transcript::squeeze_challenges::<Pcs::CommitmentChunk, F, T>(transcript, ell);
    let ghost tv = field::vals(t@);
    assert(t@.len() == tv.len());
    let (picks, values) = select(evals, 0);
    proof {
        lemma_claims_at(ev, 0);
        assert(n == ev.len());
        lemma_select_in_range(ev, 0, picks@, comms@.len());
    }
    let weights = claim_factors(&t, picks.len());
    assert(weights@.len() == field::vals(weights@).len());
    let merged_value = field::inner_product(&values, &weights);
    let bases = pick_comms(&comms, &picks);
    let merged_comm = Pcs::Commitment::msm(&weights, &bases);
    let ghost s = draw_factors(mo, old(transcript).state(), ev.len()).1;
    let ghost cur = verify_cur::<F, Pcs>(*vp, cv, qv[0], ev, tv, mo, s);
    let _ = Pcs::verify(vp, &merged_comm, &points[0], &merged_value, transcript);
    let ghost st = transcript.state();
    assert(st == left_by(cur));
    let rots = list_rotations(evals);
    let ghost rv = rotations(ev);
    assert(rots@.len() == rv.len());
    let mut i: usize = 0;
    assert(rv.take(0) =~= Seq::empty());
    while i < rots.len()
        invariant
            i <= rots.len(),
            mo == T::model(),
            cv == pcs::pointees(comms@),
            qv == pcs::points_vals(points@),
            ev == pcs::shift_evaluations_vals(evals@),
            points@.len() > 0,
            rv == rots@.map_values(|x: i32| x as int),
            rv == rotations(ev),
            well_posed_for_shift_verifier(comms@.len(), ev),
            Pcs::can_verify(*vp, qv[0].len()),
            st == left_by(cur),
            s == draw_factors(mo, old(transcript).state(), ev.len()).1,
            tv == draw_factors(mo, old(transcript).state(), ev.len()).0,
            cur == verify_cur::<F, Pcs>(*vp, cv, qv[0], ev, tv, mo, s),
            claims::input_error(
                "batch verify"@,
                num_vars as nat,
                Seq::empty(),
                claims::lengths(pcs::points_vals(points@)),
            ) is None,
            verify_groups::<F, Pcs>(*vp, cv, qv[0], ev, rv.take(i as int), mo, st) == Ok::<
                State<Pcs::CommitmentChunk>,
                Halt<Pcs::CommitmentChunk>,
            >(transcript.state()),
        decreases rots.len() - i,
    {
        assert(rv.take(i + 1).drop_last() =~= rv.take(i as int));
        assert(qv[0] == field::vals(points@[0]@));
        match verify_rotated::<F, Pcs, T>(vp, &comms, &points[0], evals, rots[i], transcript) {
            Err(e) => {
                proof {
                    lemma_verify_groups_prefix::<F, Pcs>(*vp, cv, qv[0], ev, rv, i + 1, mo, st);
                }
                return Err(e);
            },
            Ok(()) => {},
        }
        i = i + 1;
    }
    assert(rv.take(rv.len() as int) =~= rv);
    Ok(())
}

} // verus!
