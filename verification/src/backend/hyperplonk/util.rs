//! Shift claims beside a circuit.
//!
//! A shift claim is proved after the circuit's own proof, by the shift-open protocol. The
//! shift is a public input of the circuit, so it is known at run time only.

use crate::backend;
use crate::backend::hyperplonk_brakedown::queries;
use crate::backend::mock::MockCircuit;
use crate::backend::{PlonkishCircuit, PlonkishCircuitInfo};
use crate::pcs;
use crate::pcs::PolynomialCommitmentScheme;
use crate::piop::shift_open;
use crate::piop::shift_open::acceptance;
use crate::poly::hypercube;
use crate::poly::multilinear;
use crate::poly::multilinear::MultilinearPolynomial;
use crate::util::expression;
use crate::util::expression::{CommonPolynomial, Expression, ExpressionView, Rotatable};
use crate::util::field;
use crate::util::field::PrimeField;
use crate::util::integer;
use crate::util::transcript;
use crate::util::transcript::{TranscriptRead, TranscriptWrite};
use crate::Error;
use vstd::arithmetic::power2::pow2;
use vstd::prelude::*;

verus! {

/// The claim that a polynomial, shifted cyclically, takes a value.
#[derive(Debug)]
pub struct ShiftOpenClaim<F> {
    /// By how many places the polynomial is shifted.
    pub k: usize,
    /// The polynomial.
    pub poly: MultilinearPolynomial<F>,
    /// The value of the shifted polynomial, where it is known.
    pub expected_y_prime: Option<F>,
}

impl<F: Copy> Clone for ShiftOpenClaim<F> {
    fn clone(&self) -> (r: Self)
        ensures
            r.k == self.k,
            r.poly@ == self.poly@,
            r.expected_y_prime == self.expected_y_prime,
    {
        ShiftOpenClaim {
            k: self.k,
            poly: self.poly.clone(),
            expected_y_prime: self.expected_y_prime,
        }
    }
}

/// Proves a shift claim. To be called after the circuit's own proof.
pub fn prove_shift_claim<
    F: PrimeField,
    Pcs: PolynomialCommitmentScheme<F>,
    T: TranscriptWrite<Pcs::CommitmentChunk, F>,
>(
    pp: &Pcs::ProverParam,
    poly: &MultilinearPolynomial<F>,
    comm: &Pcs::Commitment,
    k: usize,
    transcript: &mut T,
) -> (r: Result<(), Error>)
    requires
        poly@.len() > 1 ==> Pcs::can_open(*pp, poly@.len(), integer::floor_log2(poly@.len())),
    ensures
        transcript::moved_to(
            r,
            final(transcript).state(),
            shift_open::prove_shift_open_spec::<F, Pcs>(
                *pp,
                poly.vals(),
                *comm,
                integer::floor_log2(poly@.len()),
                k as int,
                T::model(),
                old(transcript).state(),
            ),
        ),
        r is Ok ==> exists|point: Seq<int>, u: Seq<int>| #[trigger]
            acceptance::says::<F, Pcs>(
                *pp,
                poly.vals(),
                *comm,
                integer::floor_log2(poly@.len()),
                k as int,
                T::model(),
                old(transcript).state(),
                point,
                u,
                final(transcript).state(),
            ),
{
    shift_open::prove_shift_open::<F, Pcs, T>(pp, poly, comm, k, transcript)
}

/// Verifies a shift claim. Returns `(y, y')`: the value `y' = G(r)` that was proved, and the
/// prover's claim `y` for `F(r)`, which is not opened.
pub fn verify_shift_claim<
    F: PrimeField,
    Pcs: PolynomialCommitmentScheme<F>,
    T: TranscriptRead<Pcs::CommitmentChunk, F>,
>(
    vp: &Pcs::VerifierParam,
    comm: &Pcs::Commitment,
    k: usize,
    num_vars: usize,
    transcript: &mut T,
) -> (res: Result<(F, F), Error>)
    requires
        pow2(num_vars as nat) <= usize::MAX,
        num_vars > 0 ==> Pcs::can_verify(*vp, num_vars as nat),
    ensures
        match shift_open::verify_shift_open_spec::<F, Pcs>(
            *vp,
            *comm,
            num_vars as nat,
            k as int,
            T::model(),
            old(transcript).state(),
        ) {
            Ok((y, y_prime, s)) => res is Ok && res->Ok_0.0.val() == y && res->Ok_0.1.val()
                == y_prime && final(transcript).state() == s,
            Err(h) => transcript::halted(res, final(transcript).state(), h),
        },
        res matches Ok((y, y_prime)) ==> exists|r: Seq<int>, u: Seq<int>, f_u: int, w_u: int| #[trigger]
            acceptance::shows::<F, Pcs>(
                *vp,
                *comm,
                num_vars as nat,
                k as int,
                T::model(),
                old(transcript).state(),
                y.val(),
                y_prime.val(),
                r,
                u,
                f_u,
                w_u,
                final(transcript).state(),
            ),
{
    shift_open::verify_shift_open::<F, Pcs, T>(vp, comm, k, num_vars, transcript)
}

/// The value at `r` of the extension of `x -> f((x + k) mod 2^n)`, by shifting the values.
pub fn brute_force_shifted_eval<F: PrimeField>(
    poly: &MultilinearPolynomial<F>,
    k: usize,
    r: &[F],
) -> (y: F)
    requires
        poly@.len() == pow2(r@.len()),
    ensures
        y.val() == hypercube::mle(
            hypercube::shift(poly.vals(), k as int),
            field::vals(r@),
        ) % F::modulus(),
{
    let shifted = shift_open::shifted_evals(poly, k);
    assert(integer::is_pow2(shifted@.len() as int)) by {
        assert(pow2(r@.len()) == shifted@.len());
    }
    let shifted_poly = MultilinearPolynomial::new(shifted);
    shifted_poly.evaluate(r)
}

/// The selector of the usable rows: one there, zero elsewhere.
pub open spec fn enabled_rows<R: Rotatable>(num_vars: nat) -> Seq<int> {
    Seq::new(
        pow2(num_vars),
        |i: int|
            if R::usable(num_vars).contains(i) {
                1
            } else {
                0
            },
    )
}

/// What is known of the base circuit for the shift by `k`: one public input, a selector,
/// one witness polynomial, a constraint that always holds, and one cell equal to itself.
pub open spec fn is_base_circuit_info<F: PrimeField, R: Rotatable>(
    info: PlonkishCircuitInfo<F>,
    num_vars: nat,
) -> bool {
    let usable = R::usable(num_vars);
    &&& info.k == num_vars
    &&& info.num_instances@ == seq![1usize]
    &&& pcs::points_vals(info.preprocess_polys@) == seq![enabled_rows::<R>(num_vars)]
    &&& info.num_witness_polys@ == seq![1usize]
    &&& info.num_challenges@ == seq![0usize]
    &&& info.constraints@.len() == 1
    &&& info.constraints@[0]@ == ExpressionView::Constant(0)
    &&& info.lookups@.len() == 0
    &&& if usable.len() > 0 {
        &&& info.permutations@.len() == 1
        &&& info.permutations@[0]@ == seq![(1usize, usable[0] as usize)]
    } else {
        info.permutations@.len() == 0
    }
    &&& info.max_degree == Some(1usize)
}

/// Whether `list` holds `x`.
fn holds(list: &Vec<usize>, x: usize) -> (r: bool)
    ensures
        r == list@.map_values(|v: usize| v as int).contains(x as int),
{
    let ghost ints = list@.map_values(|v: usize| v as int);
    let mut i: usize = 0;
    while i < list.len()
        invariant
            i <= list.len(),
            ints == list@.map_values(|v: usize| v as int),
            forall|j: int| 0 <= j < i ==> ints[j] != x,
        decreases list.len() - i,
    {
        if list[i] == x {
            assert(ints[i as int] == x);
            return true;
        }
        i = i + 1;
    }
    false
}

/// The base circuit for the shift by `k` of the polynomial with the given values: what is
/// known of it, the circuit with its witness, and the polynomial.
pub fn base_circuit_of_values<F: PrimeField, R: Rotatable>(
    num_vars: usize,
    k: usize,
    poly_values: Vec<F>,
) -> (r: (PlonkishCircuitInfo<F>, MockCircuit<F>, MultilinearPolynomial<F>))
    requires
        poly_values@.len() == pow2(num_vars as nat),
    ensures
        is_base_circuit_info::<F, R>(r.0, num_vars as nat),
        r.0.countable(),
        r.0.well_formed(),
        r.1.instances_spec() == seq![seq![k as int % F::modulus()]],
        pcs::points_vals(r.1.witnesses@) == seq![field::vals(poly_values@)],
        r.2@ == poly_values@,
{
    let size = poly_values.len();
    let rotatable = R::from_num_vars(num_vars);
    let usable_indices = rotatable.usable_indices();
    let ghost usable = R::usable(num_vars as nat);
    let instance: Vec<F> = vec![F::from_u64(k as u64)];
    let witness = multilinear::clone_elements(&poly_values);
    assert(integer::is_pow2(poly_values@.len() as int));
    let poly = MultilinearPolynomial::new(poly_values);
    let mut q_enable: Vec<F> = Vec::new();
    let mut i: usize = 0;
    while i < size
        invariant
            i <= size,
            size == pow2(num_vars as nat),
            usable == usable_indices@.map_values(|x: usize| x as int),
            usable == R::usable(num_vars as nat),
            q_enable@.len() == i,
            forall|j: int|
                0 <= j < i ==> (#[trigger] q_enable@[j]).val() == enabled_rows::<R>(
                    num_vars as nat,
                )[j],
        decreases size - i,
    {
        let value = if holds(&usable_indices, i) {
            F::one()
        } else {
            F::zero()
        };
        q_enable.push(value);
        i = i + 1;
    }
    assert(field::vals(q_enable@) =~= enabled_rows::<R>(num_vars as nat));
    let constraint = Expression::Constant(F::zero());
    let mut permutations: Vec<Vec<(usize, usize)>> = Vec::new();
    if usable_indices.len() > 0 {
        assert(usable[0] == usable_indices@[0]);
        permutations.push(vec![(1, usable_indices[0])]);
    }
    let info = PlonkishCircuitInfo {
        k: num_vars,
        num_instances: vec![1],
        preprocess_polys: vec![q_enable],
        num_witness_polys: vec![1],
        num_challenges: vec![0],
        constraints: vec![constraint],
        lookups: Vec::new(),
        permutations,
        max_degree: Some(1),
    };
    let circuit = MockCircuit::new(vec![instance], vec![witness]);
    proof {
        assert(pcs::points_vals(info.preprocess_polys@) =~= seq![enabled_rows::<R>(num_vars as nat)]);
        assert(pcs::points_vals(circuit.witnesses@) =~= seq![field::vals(poly_values@)]);
        assert(field::vals(circuit.instances@[0]@) =~= seq![k as int % F::modulus()]);
        assert(circuit.instances_spec() =~= seq![seq![k as int % F::modulus()]]);
        reveal_with_fuel(backend::total, 2);
        assert(info.num_witness_polys@.drop_last() =~= Seq::empty());
        assert(info.num_challenges@.drop_last() =~= Seq::empty());
        assert(info.num_polys() == 3);
        assert(expression::degree(info.constraints@[0]@) == 0);
        assert(info.num_instances@ =~= seq![1usize]);
        assert(info.num_witness_polys@ =~= seq![1usize]);
        assert(info.num_challenges@ =~= seq![0usize]);
        assert(info.constraints@[0]@ == ExpressionView::Constant(0));
        if usable.len() > 0 {
            assert(info.permutations@[0]@ =~= seq![(1usize, usable[0] as usize)]);
        }
    }
    (info, circuit, poly)
}

/// The base circuit for the shift by `k` of a polynomial with values drawn from
/// `witness_rng`. Whatever they are, `k` is the circuit's public input.
pub fn shift_open_base_circuit<F: PrimeField, R: Rotatable>(
    num_vars: usize,
    k: usize,
    _preprocess_rng: &mut rand::rngs::StdRng,
    witness_rng: &mut rand::rngs::StdRng,
) -> (r: (PlonkishCircuitInfo<F>, MockCircuit<F>, MultilinearPolynomial<F>))
    requires
        pow2(num_vars as nat) <= usize::MAX,
    ensures
        is_base_circuit_info::<F, R>(r.0, num_vars as nat),
        r.0.countable(),
        r.0.well_formed(),
        r.1.instances_spec() == seq![seq![k as int % F::modulus()]],
        pcs::points_vals(r.1.witnesses@) == seq![r.2.vals()],
        r.2@.len() == pow2(num_vars as nat),
{
    let size = integer::pow2_usize(num_vars);
    let mut poly_values: Vec<F> = Vec::new();
    let mut i: usize = 0;
    while i < size
        invariant
            i <= size,
            poly_values@.len() == i,
        decreases size - i,
    {
        poly_values.push(F::random(witness_rng));
        i = i + 1;
    }
    base_circuit_of_values::<F, R>(num_vars, k, poly_values)
}

/// The selector is one on every usable row, and zero on every other row.
pub proof fn law_selector_marks_usable_rows<R: Rotatable>(num_vars: nat, row: int)
    requires
        0 <= row < pow2(num_vars),
    ensures
        enabled_rows::<R>(num_vars).len() == pow2(num_vars),
        (exists|j: int|
            0 <= j < R::usable(num_vars).len() && #[trigger] R::usable(num_vars)[j] == row)
            ==> enabled_rows::<R>(num_vars)[row] == 1,
        !(exists|j: int|
            0 <= j < R::usable(num_vars).len() && #[trigger] R::usable(num_vars)[j] == row)
            ==> enabled_rows::<R>(num_vars)[row] == 0,
{
}

/// Every constraint of the base circuit is zero on every row, whatever its polynomials hold, and
/// every cell of its permutations is equal to itself only.
pub proof fn law_base_circuit_always_holds<F: PrimeField, R: Rotatable>(
    info: PlonkishCircuitInfo<F>,
    num_vars: nat,
    polys: Seq<Seq<int>>,
    challenges: Seq<int>,
    common: spec_fn(CommonPolynomial) -> int,
    fold: spec_fn(Seq<int>, int) -> int,
    row: int,
)
    requires
        is_base_circuit_info::<F, R>(info, num_vars),
    ensures
        info.constraints@.len() > 0,
        forall|i: int|
            0 <= i < info.constraints@.len() ==> queries::value_on_row(
                (#[trigger] info.constraints@[i])@,
                polys,
                challenges,
                common,
                fold,
                row,
            ) == 0,
        forall|i: int|
            0 <= i < info.permutations@.len() ==> (#[trigger] info.permutations@[i])@.len() == 1,
        info.lookups@.len() == 0,
        info.num_polys() == 3,
{
    reveal_with_fuel(backend::total, 2);
    assert(info.num_witness_polys@.drop_last() =~= Seq::empty());
    assert(info.preprocess_polys@.len() == pcs::points_vals(info.preprocess_polys@).len());
}

} // verus!
