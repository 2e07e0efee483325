//! How several claims are combined into one.

use crate::pcs::multilinear::brakedown;
use crate::pcs::multilinear::brakedown::acceptance;
use crate::pcs::multilinear::brakedown::{
    BrakedownCommitment, BrakedownPcs, BrakedownVerifierParam,
};
use crate::pcs::multilinear::merkle::MerkleNode;
use crate::pcs::{EvaluationView, PolynomialCommitmentScheme};
use crate::util::field::PrimeField;
use crate::util::hash::HashFunction;
use crate::util::integer;
use crate::util::modular;
use crate::util::polynomial;
use crate::util::sum;
use crate::util::transcript;
use crate::util::transcript::{Event, Model, State};
use vstd::arithmetic::power;
use vstd::arithmetic::power::pow;
use vstd::prelude::*;

verus! {

/// The claimed values.
pub open spec fn claimed(evals: Seq<EvaluationView>) -> Seq<int> {
    evals.map_values(|e: EvaluationView| e.value)
}

/// Powers are powers: the first is one, and each is `x` times the one before.
pub proof fn law_powers(x: int, n: nat)
    ensures
        brakedown::power(x, n) == pow(x, n),
        brakedown::power(x, 0) == 1,
        brakedown::power(x, n + 1) == brakedown::power(x, n) * x,
    decreases n,
{
    power::lemma_pow0(x);
    if n > 0 {
        let k = (n - 1) as nat;
        law_powers(x, k);
        reveal_with_fuel(pow, 2);
        let p = pow(x, k);
        assert(p * x == x * p) by (nonlinear_arith);
    }
}

/// The combined value is the value at the challenge of the polynomial whose coefficients are
/// the claimed values; so the first claim counts as it is, and all the others count `x` times
/// what they would count without it.
pub proof fn law_combined_value(evals: Seq<EvaluationView>, x: int, m: int)
    requires
        m > 0,
    ensures
        brakedown::batched_value(evals, x, m) == polynomial::polynomial_at(claimed(evals), x) % m,
        evals.len() > 0 ==> brakedown::batched_value(evals, x, m) == (evals[0].value + x
            * brakedown::batched_value(evals.drop_first(), x, m)) % m,
        evals.len() == 0 ==> brakedown::batched_value(evals, x, m) == 0,
    decreases evals.len(),
{
    let n = evals.len();
    let f = |k: int| brakedown::power(x, k as nat) * evals[k].value;
    let g = |k: int| pow(x, k as nat) * claimed(evals)[k];
    assert forall|k: int| 0 <= k < n implies #[trigger] f(k) == g(k) by {
        law_powers(x, k as nat);
    }
    sum::lemma_sum_eq(f, g, n);
    modular::lemma_small(0, m);
    if n > 0 {
        let rest = evals.drop_first();
        law_combined_value(rest, x, m);
        polynomial::lemma_horner(claimed(evals), x);
        polynomial::lemma_horner(claimed(rest), x);
        assert(claimed(evals).drop_first() =~= claimed(rest));
        let v = polynomial::polynomial_at(claimed(rest), x);
        let a = evals[0].value;
        modular::lemma_cong_reduced(v, m);
        modular::lemma_cong_mul(x, x, v % m, v, m);
        modular::lemma_cong_add(a, a, x * (v % m), x * v, m);
    }
}

/// The combined polynomial takes at every place the value at the challenge of the polynomial
/// whose coefficients are the values of the given ones there, and zero beyond the end of one.
pub proof fn law_combined_polynomial(polys: Seq<Seq<int>>, x: int, m: int, i: int)
    requires
        m > 0,
        polys.len() > 0,
        0 <= i < polys[0].len(),
    ensures
        brakedown::batched(polys, x, m).len() == polys[0].len(),
        brakedown::batched(polys, x, m)[i] == polynomial::polynomial_at(
            polys.map_values(
                |p: Seq<int>|
                    if i < p.len() {
                        p[i]
                    } else {
                        0
                    },
            ),
            x,
        ) % m,
{
    let n = polys.len();
    let there = polys.map_values(
        |p: Seq<int>|
            if i < p.len() {
                p[i]
            } else {
                0
            },
    );
    let f = |k: int| brakedown::power(x, k as nat) * brakedown::entry(polys[k], i);
    let g = |k: int| pow(x, k as nat) * there[k];
    assert forall|k: int| 0 <= k < n implies #[trigger] f(k) == g(k) by {
        law_powers(x, k as nat);
    }
    sum::lemma_sum_eq(f, g, n);
}

/// Claimed values that differ anywhere are combined to different values, but for fewer
/// challenges than there are claims.
pub proof fn law_different_claims_are_told_apart(
    a: Seq<EvaluationView>,
    b: Seq<EvaluationView>,
    xs: Seq<int>,
    m: int,
)
    requires
        m > 0,
        polynomial::no_zero_divisors(m),
        a.len() == b.len(),
        exists|k: int| 0 <= k < a.len() && (#[trigger] a[k]).value % m != b[k].value % m,
        forall|i: int, j: int|
            0 <= i < j < xs.len() ==> #[trigger] xs[i] % m != #[trigger] xs[j] % m,
        forall|i: int|
            0 <= i < xs.len() ==> brakedown::batched_value(a, #[trigger] xs[i], m)
                == brakedown::batched_value(b, xs[i], m),
    ensures
        xs.len() <= a.len() - 1,
{
    if xs.len() >= a.len() {
        let va = claimed(a);
        let vb = claimed(b);
        let d = Seq::new(va.len(), |k: int| va[k] - vb[k]);
        modular::lemma_small(0, m);
        assert forall|i: int| 0 <= i < xs.len() implies polynomial::horner(d, #[trigger] xs[i]) % m == 0 by {
            let x = xs[i];
            law_combined_value(a, x, m);
            law_combined_value(b, x, m);
            polynomial::lemma_horner(va, x);
            polynomial::lemma_horner(vb, x);
            polynomial::lemma_horner_sub(va, vb, x);
            modular::lemma_cong_sub(polynomial::horner(va, x), polynomial::horner(vb, x), polynomial::horner(vb, x), polynomial::horner(vb, x), m);
        }
        polynomial::law_roots(d, xs, m);
        let k = choose|k: int| 0 <= k < a.len() && (#[trigger] a[k]).value % m != b[k].value % m;
        assert(d[k] % m == 0);
        modular::lemma_cong_add(d[k], 0, vb[k], vb[k], m);
    }
}

/// The root of a commitment that is alone.
pub open spec fn only_root(comms: Seq<BrakedownCommitment>) -> Option<MerkleNode> {
    if comms.len() == 1 {
        Some(comms[0].root)
    } else {
        None
    }
}

/// The value that a common opening is about: the one claimed value if there is one commitment,
/// and otherwise the value at `x` of the polynomial whose coefficients are the claimed values.
pub open spec fn common_value(
    comms: Seq<BrakedownCommitment>,
    evals: Seq<EvaluationView>,
    x: int,
    m: int,
) -> int {
    if comms.len() == 1 {
        evals[0].value
    } else {
        polynomial::polynomial_at(claimed(evals), x) % m
    }
}

/// Whatever prover the proof is from, an accepted common opening of several commitments shows,
/// of the value at the challenge of the polynomial whose coefficients are all the claimed
/// values, what an accepted opening shows; the challenge is drawn first. With one commitment
/// it shows this of the one claimed value, and of the commitment's root.
pub proof fn law_accepted_batch_shows<F: PrimeField, H: HashFunction>(
    vp: BrakedownVerifierParam<F>,
    comms: Seq<BrakedownCommitment>,
    points: Seq<Seq<int>>,
    evals: Seq<EvaluationView>,
    mo: Model<[u8; 32]>,
    st: State<[u8; 32]>,
)
    requires
        vp.param.code@.wf(),
    ensures
        BrakedownPcs::<F, H>::batch_verify_spec(vp, comms, points, evals, mo, st) matches Ok(s)
            ==> exists|
            drawn: State<[u8; 32]>,
            combined: Seq<int>,
            indices: Seq<int>,
            cols: Seq<Seq<int>>,
            paths: Seq<Seq<MerkleNode>>,
        |
            {
                &&& comms.len() == 1 ==> drawn == st
                &&& comms.len() != 1 ==> drawn.events == st.events.push(Event::Squeeze)
                &&& #[trigger] acceptance::opening_shows::<F, H>(
                    vp.param.code@,
                    vp.param.num_vars as nat,
                    only_root(comms),
                    points[0],
                    common_value(comms, evals, (mo.challenge)(st.events), F::modulus()),
                    mo,
                    drawn,
                    combined,
                    indices,
                    cols,
                    paths,
                    s,
                )
            },
{
    F::modulus_is_odd();
    let c = vp.param.code@;
    let n = vp.param.num_vars as nat;
    let m = F::modulus();
    if let Ok(s) = BrakedownPcs::<F, H>::batch_verify_spec(vp, comms, points, evals, mo, st) {
        let (x, drawn) = if comms.len() == 1 {
            ((mo.challenge)(st.events), st)
        } else {
            transcript::squeeze(mo, st)
        };
        let root = only_root(comms);
        let value = common_value(comms, evals, x, m);
        law_combined_value(evals, x, m);
        assert(brakedown::verify_evals_spec::<F, H>(c, n, root, points[0], value, mo, drawn) == Ok::<
            State<[u8; 32]>,
            transcript::Halt<[u8; 32]>,
        >(s));
        acceptance::law_accepted_opening_shows::<F, H>(c, n, root, points[0], value, mo, drawn);
    }
}

/// One proof stands for one combined value: claims that are accepted with the same proof are
/// combined to the same value.
pub proof fn law_one_proof_one_value<F: PrimeField, H: HashFunction>(
    vp: BrakedownVerifierParam<F>,
    comms: Seq<BrakedownCommitment>,
    points: Seq<Seq<int>>,
    a: Seq<EvaluationView>,
    b: Seq<EvaluationView>,
    mo: Model<[u8; 32]>,
    st: State<[u8; 32]>,
)
    requires
        comms.len() != 1,
        BrakedownPcs::<F, H>::batch_verify_spec(vp, comms, points, a, mo, st) is Ok,
        BrakedownPcs::<F, H>::batch_verify_spec(vp, comms, points, b, mo, st) is Ok,
    ensures
        ({
            let x = (mo.challenge)(st.events);
            polynomial::polynomial_at(claimed(a), x) % F::modulus() == polynomial::polynomial_at(claimed(b), x)
                % F::modulus()
        }),
{
    F::modulus_is_odd();
    let x = (mo.challenge)(st.events);
    law_combined_value(a, x, F::modulus());
    law_combined_value(b, x, F::modulus());
}

/// The message length below which the code no longer recurses is at least eight. Where it is
/// more, it is the largest number whose fourfold has a square no larger than the polynomial.
pub proof fn law_smallest_message_length(n_0: nat, poly_size: nat)
    requires
        brakedown::is_n_0(n_0, poly_size),
    ensures
        n_0 >= 8,
        n_0 > 8 ==> (4 * n_0) * (4 * n_0) <= poly_size < (4 * (n_0 + 1)) * (4 * (n_0 + 1)),
        n_0 == 8 ==> poly_size < 36 * 36,
{
    let r = choose|r: nat| #[trigger]
        integer::is_isqrt(r, poly_size) && n_0 == if r / 4 > 8 {
            r / 4
        } else {
            8
        };
    if n_0 > 8 {
        assert((4 * n_0) * (4 * n_0) <= r * r) by (nonlinear_arith)
            requires
                4 * n_0 <= r,
        ;
        assert((r + 1) * (r + 1) <= (4 * (n_0 + 1)) * (4 * (n_0 + 1))) by (nonlinear_arith)
            requires
                r + 1 <= 4 * (n_0 + 1),
        ;
    } else {
        assert((r + 1) * (r + 1) <= 36 * 36) by (nonlinear_arith)
            requires
                0 <= r + 1 <= 36,
        ;
    }
}

} // verus!
