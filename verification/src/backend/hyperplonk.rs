//! HyperPlonk: parameters, and the steps of the protocol that do not depend on the
//! commitment scheme.

pub mod unconstrained;
pub mod util;

use crate::backend::PlonkishCircuitInfo;
use crate::pcs;
use crate::pcs::{Evaluation, EvaluationView, PolynomialCommitmentScheme};
use crate::poly::multilinear::MultilinearPolynomial;
use crate::util::expression::{Expression, ExpressionView};
use crate::util::field;
use crate::util::field::PrimeField;
use crate::util::transcript;
use crate::util::transcript::trace;
use crate::util::transcript::{Halt, Model, State, TranscriptRead, TranscriptWrite};
use crate::{Error, ErrorView};
use vstd::arithmetic::power2::pow2;
use vstd::prelude::*;

verus! {

/// A lookup, as pairs of input and table.
pub open spec fn lookup_view<F: PrimeField>(lookup: Seq<(Expression<F>, Expression<F>)>) -> Seq<
    (ExpressionView, ExpressionView),
> {
    Seq::new(lookup.len(), |j: int| (lookup[j].0@, lookup[j].1@))
}

/// Lookups, as pairs of input and table.
pub open spec fn lookups_view<F: PrimeField>(
    lookups: Seq<Vec<(Expression<F>, Expression<F>)>>,
) -> Seq<Seq<(ExpressionView, ExpressionView)>> {
    Seq::new(lookups.len(), |i: int| lookup_view(lookups[i]@))
}

/// Polynomials with the indices that they belong to.
pub open spec fn indexed_vals<F: PrimeField>(
    polys: Seq<(usize, MultilinearPolynomial<F>)>,
) -> Seq<(int, Seq<int>)> {
    Seq::new(polys.len(), |i: int| (polys[i].0 as int, polys[i].1.vals()))
}

/// Pairs of polynomials.
pub open spec fn pairs_vals<F: PrimeField>(
    pairs: Seq<(MultilinearPolynomial<F>, MultilinearPolynomial<F>)>,
) -> Seq<(Seq<int>, Seq<int>)> {
    Seq::new(pairs.len(), |i: int| (pairs[i].0.vals(), pairs[i].1.vals()))
}

/// Whether both polynomials of every pair have `size` values.
pub open spec fn pairs_sized(pairs: Seq<(Seq<int>, Seq<int>)>, size: nat) -> bool {
    forall|i: int|
        0 <= i < pairs.len() ==> (#[trigger] pairs[i]).0.len() == size && pairs[i].1.len() == size
}

/// Whether every polynomial has `size` values.
pub open spec fn indexed_sized(polys: Seq<(int, Seq<int>)>, size: nat) -> bool {
    forall|i: int| 0 <= i < polys.len() ==> (#[trigger] polys[i]).1.len() == size
}

/// The points and claims that a zero-check leaves to be opened, in order: there is a point
/// and a claim, and the first point has `num_vars` coordinates.
pub open spec fn can_be_opened(
    points: Seq<Seq<int>>,
    evals: Seq<EvaluationView>,
    num_vars: nat,
) -> bool {
    &&& points.len() > 0
    &&& points[0].len() == num_vars
    &&& evals.len() > 0
}

/// Whether `r`, which left the transcript in state `st`, is the zero-check that `expected` says.
pub open spec fn zero_checked<C, F: PrimeField>(
    r: Result<(Vec<Vec<F>>, Vec<Evaluation<F>>), Error>,
    st: State<C>,
    expected: Result<(Seq<Seq<int>>, Seq<EvaluationView>, State<C>), Halt<C>>,
) -> bool {
    match expected {
        Ok((points, evals, s)) => {
            &&& r is Ok
            &&& pcs::points_vals(r->Ok_0.0@) == points
            &&& pcs::evaluations_vals(r->Ok_0.1@) == evals
            &&& st == s
        },
        Err(h) => transcript::halted(r, st, h),
    }
}

/// The steps of HyperPlonk that do not depend on the commitment scheme: how a circuit's
/// constraints, lookups and permutations become polynomials and a zero-check.
pub trait Steps<F: PrimeField, C>: Sized {
    /// The polynomials of the instances.
    spec fn instance_polys_spec(&self, num_vars: nat, instances: Seq<Seq<int>>) -> Seq<Seq<int>>;

    /// The inputs and tables of the lookups, each compressed with the powers `betas`.
    spec fn lookup_compressed_polys_spec(
        &self,
        lookups: Seq<Seq<(ExpressionView, ExpressionView)>>,
        polys: Seq<Seq<int>>,
        challenges: Seq<int>,
        betas: Seq<int>,
    ) -> Seq<(Seq<int>, Seq<int>)>;

    /// How often each entry of the tables is looked up.
    spec fn lookup_m_polys_spec(&self, compressed: Seq<(Seq<int>, Seq<int>)>) -> Result<
        Seq<Seq<int>>,
        ErrorView,
    >;

    /// The helper polynomials of the lookups.
    spec fn lookup_h_polys_spec(
        &self,
        compressed: Seq<(Seq<int>, Seq<int>)>,
        ms: Seq<Seq<int>>,
        gamma: int,
    ) -> Seq<Seq<int>>;

    /// The helper polynomials of the permutation.
    spec fn permutation_z_polys_spec(
        &self,
        num: nat,
        permutation: Seq<(int, Seq<int>)>,
        polys: Seq<Seq<int>>,
        beta: int,
        gamma: int,
    ) -> Seq<Seq<int>>;

    /// The points and claims that the zero-check leaves, and the state after it is written.
    spec fn prove_zero_check_spec(
        &self,
        num_instances: nat,
        e: ExpressionView,
        polys: Seq<Seq<int>>,
        challenges: Seq<int>,
        y: Seq<int>,
        mo: Model<C>,
        st: State<C>,
    ) -> Result<(Seq<Seq<int>>, Seq<EvaluationView>, State<C>), Halt<C>>;

    /// The points and claims that the zero-check leaves, and the state after it is read.
    spec fn verify_zero_check_spec(
        &self,
        num_vars: nat,
        e: ExpressionView,
        instances: Seq<Seq<int>>,
        challenges: Seq<int>,
        y: Seq<int>,
        mo: Model<C>,
        st: State<C>,
    ) -> Result<(Seq<Seq<int>>, Seq<EvaluationView>, State<C>), Halt<C>>;

    /// Whether the instances can be placed on `2^num_vars` rows.
    spec fn can_place(&self, num_vars: nat, instances: Seq<Seq<int>>) -> bool;

    /// Whether circuits with so many lookups and permutation helpers are supported.
    spec fn supports(&self, num_lookups: nat, num_permutation_z_polys: nat) -> bool;

    /// There is one polynomial per instance, and polynomials keep their size. Where the
    /// circuit is supported, there are two helpers per lookup, and as many for the
    /// permutation as were asked for.
    proof fn polys_have_size(
        &self,
        num_vars: nat,
        instances: Seq<Seq<int>>,
        lookups: Seq<Seq<(ExpressionView, ExpressionView)>>,
        polys: Seq<Seq<int>>,
        challenges: Seq<int>,
        betas: Seq<int>,
        num: nat,
        permutation: Seq<(int, Seq<int>)>,
        beta: int,
        gamma: int,
    )
        requires
            pcs::all_sized(polys, pow2(num_vars)),
            indexed_sized(permutation, pow2(num_vars)),
        ensures
            ({
                let size = pow2(num_vars);
                let ip = self.instance_polys_spec(num_vars, instances);
                let cp = self.lookup_compressed_polys_spec(lookups, polys, challenges, betas);
                let zp = self.permutation_z_polys_spec(num, permutation, polys, beta, gamma);
                &&& ip.len() == instances.len()
                &&& pcs::all_sized(ip, size)
                &&& pairs_sized(cp, size)
                &&& pcs::all_sized(zp, size)
                &&& self.lookup_m_polys_spec(cp) matches Ok(ms) ==> {
                    &&& pcs::all_sized(ms, size)
                    &&& pcs::all_sized(self.lookup_h_polys_spec(cp, ms, gamma), size)
                }
                &&& self.supports(lookups.len(), num) ==> {
                    &&& zp.len() == num
                    &&& self.lookup_m_polys_spec(cp) matches Ok(ms) ==> {
                        &&& ms.len() == lookups.len()
                        &&& self.lookup_h_polys_spec(cp, ms, gamma).len() == lookups.len()
                    }
                }
            }),
    ;

    /// What is left to open can be opened.
    proof fn zero_check_can_be_opened(
        &self,
        num_instances: nat,
        e: ExpressionView,
        polys: Seq<Seq<int>>,
        instances: Seq<Seq<int>>,
        challenges: Seq<int>,
        y: Seq<int>,
        mo: Model<C>,
        st: State<C>,
    )
        ensures
            polys.len() > 0 ==> (self.prove_zero_check_spec(
                num_instances,
                e,
                polys,
                challenges,
                y,
                mo,
                st,
            ) matches Ok((points, evals, _)) ==> can_be_opened(points, evals, y.len())),
            self.verify_zero_check_spec(
                y.len(),
                e,
                instances,
                challenges,
                y,
                mo,
                st,
            ) matches Ok((points, evals, _)) ==> can_be_opened(points, evals, y.len()),
    ;

    /// The zero-check takes back nothing that happened before it.
    proof fn zero_check_follows(
        &self,
        num_instances: nat,
        e: ExpressionView,
        polys: Seq<Seq<int>>,
        instances: Seq<Seq<int>>,
        challenges: Seq<int>,
        y: Seq<int>,
        mo: Model<C>,
        st: State<C>,
    )
        ensures
            self.prove_zero_check_spec(
                num_instances,
                e,
                polys,
                challenges,
                y,
                mo,
                st,
            ) matches Ok((_, _, s)) ==> trace::follows(s, st),
            self.verify_zero_check_spec(
                y.len(),
                e,
                instances,
                challenges,
                y,
                mo,
                st,
            ) matches Ok((_, _, s)) ==> trace::follows(s, st),
    ;

    fn instance_polys(&self, num_vars: usize, instances: &[Vec<F>]) -> (r: Vec<
        MultilinearPolynomial<F>,
    >)
        requires
            pow2(num_vars as nat) <= usize::MAX,
            self.can_place(num_vars as nat, pcs::points_vals(instances@)),
        ensures
            pcs::owned_vals(r@) == self.instance_polys_spec(
                num_vars as nat,
                pcs::points_vals(instances@),
            ),
    ;

    fn lookup_compressed_polys(
        &self,
        lookups: &Vec<Vec<(Expression<F>, Expression<F>)>>,
        polys: &[&MultilinearPolynomial<F>],
        challenges: &[F],
        betas: &[F],
    ) -> (r: Vec<(MultilinearPolynomial<F>, MultilinearPolynomial<F>)>)
        ensures
            pairs_vals(r@) == self.lookup_compressed_polys_spec(
                lookups_view(lookups@),
                pcs::polys_vals(polys@),
                field::vals(challenges@),
                field::vals(betas@),
            ),
    ;

    fn lookup_m_polys(
        &self,
        compressed: &Vec<(MultilinearPolynomial<F>, MultilinearPolynomial<F>)>,
    ) -> (r: Result<Vec<MultilinearPolynomial<F>>, Error>)
        ensures
            match self.lookup_m_polys_spec(pairs_vals(compressed@)) {
                Ok(ms) => r is Ok && pcs::owned_vals(r->Ok_0@) == ms,
                Err(e) => r is Err && r->Err_0@ == e,
            },
    ;

    fn lookup_h_polys(
        &self,
        compressed: &Vec<(MultilinearPolynomial<F>, MultilinearPolynomial<F>)>,
        ms: &Vec<MultilinearPolynomial<F>>,
        gamma: &F,
    ) -> (r: Vec<MultilinearPolynomial<F>>)
        ensures
            pcs::owned_vals(r@) == self.lookup_h_polys_spec(
                pairs_vals(compressed@),
                pcs::owned_vals(ms@),
                gamma.val(),
            ),
    ;

    fn permutation_z_polys(
        &self,
        num: usize,
        permutation: &Vec<(usize, MultilinearPolynomial<F>)>,
        polys: &[&MultilinearPolynomial<F>],
        beta: &F,
        gamma: &F,
    ) -> (r: Vec<MultilinearPolynomial<F>>)
        ensures
            pcs::owned_vals(r@) == self.permutation_z_polys_spec(
                num as nat,
                indexed_vals(permutation@),
                pcs::polys_vals(polys@),
                beta.val(),
                gamma.val(),
            ),
    ;

    fn prove_zero_check<T: TranscriptWrite<C, F>>(
        &self,
        num_instances: usize,
        expression: &Expression<F>,
        polys: &[&MultilinearPolynomial<F>],
        challenges: &[F],
        y: &[F],
        transcript: &mut T,
    ) -> (r: Result<(Vec<Vec<F>>, Vec<Evaluation<F>>), Error>)
        requires
            pcs::all_sized(pcs::polys_vals(polys@), pow2(y@.len())),
        ensures
            zero_checked(
                r,
                final(transcript).state(),
                self.prove_zero_check_spec(
                    num_instances as nat,
                    expression@,
                    pcs::polys_vals(polys@),
                    field::vals(challenges@),
                    field::vals(y@),
                    T::model(),
                    old(transcript).state(),
                ),
            ),
    ;

    fn verify_zero_check<T: TranscriptRead<C, F>>(
        &self,
        num_vars: usize,
        expression: &Expression<F>,
        instances: &[Vec<F>],
        challenges: &[F],
        y: &[F],
        transcript: &mut T,
    ) -> (r: Result<(Vec<Vec<F>>, Vec<Evaluation<F>>), Error>)
        requires
            y@.len() == num_vars,
        ensures
            zero_checked(
                r,
                final(transcript).state(),
                self.verify_zero_check_spec(
                    num_vars as nat,
                    expression@,
                    pcs::points_vals(instances@),
                    field::vals(challenges@),
                    field::vals(y@),
                    T::model(),
                    old(transcript).state(),
                ),
            ),
    ;

    /// How many polynomials are opened together.
    spec fn batch_size_spec(&self, info: PlonkishCircuitInfo<F>) -> nat;

    fn batch_size(&self, info: &PlonkishCircuitInfo<F>) -> (r: usize)
        ensures
            r == self.batch_size_spec(*info),
    ;

    /// The number of helper polynomials of the permutation, and the expression that is zero
    /// on every row.
    spec fn compose_spec(&self, info: PlonkishCircuitInfo<F>) -> (nat, ExpressionView);

    /// The polynomials of the permutation.
    spec fn permutation_polys_spec(&self, info: PlonkishCircuitInfo<F>) -> Seq<(int, Seq<int>)>;

    fn compose(&self, info: &PlonkishCircuitInfo<F>) -> (r: (usize, Expression<F>))
        ensures
            (r.0 as nat, r.1@) == self.compose_spec(*info),
    ;

    fn permutation_polys(&self, info: &PlonkishCircuitInfo<F>) -> (r: Vec<
        (usize, MultilinearPolynomial<F>),
    >)
        ensures
            indexed_vals(r@) == self.permutation_polys_spec(*info),
    ;
}

/// What a prover needs of a circuit.
#[verifier::reject_recursive_types(Pcs)]
pub struct HyperPlonkProverParam<F: PrimeField, Pcs: PolynomialCommitmentScheme<F>> {
    pub pcs: Pcs::ProverParam,
    pub num_instances: Vec<usize>,
    pub num_witness_polys: Vec<usize>,
    pub num_challenges: Vec<usize>,
    pub lookups: Vec<Vec<(Expression<F>, Expression<F>)>>,
    pub num_permutation_z_polys: usize,
    pub num_vars: usize,
    pub expression: Expression<F>,
    pub preprocess_polys: Vec<MultilinearPolynomial<F>>,
    pub preprocess_comms: Vec<Pcs::Commitment>,
    pub permutation_polys: Vec<(usize, MultilinearPolynomial<F>)>,
    pub permutation_comms: Vec<Pcs::Commitment>,
}

/// What a verifier needs of a circuit.
#[verifier::reject_recursive_types(Pcs)]
pub struct HyperPlonkVerifierParam<F: PrimeField, Pcs: PolynomialCommitmentScheme<F>> {
    pub pcs: Pcs::VerifierParam,
    pub num_instances: Vec<usize>,
    pub num_witness_polys: Vec<usize>,
    pub num_challenges: Vec<usize>,
    pub num_lookups: usize,
    pub num_permutation_z_polys: usize,
    pub num_vars: usize,
    pub expression: Expression<F>,
    pub preprocess_comms: Vec<Pcs::Commitment>,
    pub permutation_comms: Vec<(usize, Pcs::Commitment)>,
}

} // verus!
