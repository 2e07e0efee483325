//! Polynomial commitment schemes.

pub mod multilinear;

use crate::poly::hypercube;
use crate::poly::multilinear::MultilinearPolynomial;
use crate::util::expression::Rotation;
use crate::util::field;
use crate::util::field::PrimeField;
use crate::util::transcript;
use crate::util::transcript::{Halt, Item, Model, State, TranscriptRead, TranscriptWrite};
use crate::{Error, ErrorView};
use vstd::prelude::*;

verus! {

/// The claim that a polynomial takes a value at a point, both by index.
#[derive(Clone, Copy, Debug)]
pub struct Evaluation<F> {
    pub poly: usize,
    pub point: usize,
    pub value: F,
}

/// An [`Evaluation`] with its value by its representative.
#[verifier::ext_equal]
pub struct EvaluationView {
    pub poly: int,
    pub point: int,
    pub value: int,
}

impl<F: PrimeField> Evaluation<F> {
    pub open spec fn vals(self) -> EvaluationView {
        EvaluationView {
            poly: self.poly as int,
            point: self.point as int,
            value: self.value.val(),
        }
    }

    pub fn new(poly: usize, point: usize, value: F) -> (r: Self)
        ensures
            r.poly == poly,
            r.point == point,
            r.value == value,
    {
        Evaluation { poly, point, value }
    }

    pub fn poly(&self) -> (r: usize)
        ensures
            r == self.poly,
    {
        self.poly
    }

    pub fn point(&self) -> (r: usize)
        ensures
            r == self.point,
    {
        self.point
    }

    pub fn value(&self) -> (r: &F)
        ensures
            *r == self.value,
    {
        &self.value
    }
}

/// The claim that a polynomial, rotated, takes a value at the common point.
#[allow(non_camel_case_types)]
#[derive(Clone, Copy, Debug)]
pub struct Evaluation_for_shift<F> {
    pub poly: usize,
    pub rotation: Rotation,
    pub value: F,
}

/// An [`Evaluation_for_shift`] with its value by its representative.
#[verifier::ext_equal]
pub struct ShiftEvaluationView {
    pub poly: int,
    pub rotation: int,
    pub value: int,
}

impl<F: PrimeField> Evaluation_for_shift<F> {
    pub open spec fn vals(self) -> ShiftEvaluationView {
        ShiftEvaluationView {
            poly: self.poly as int,
            rotation: self.rotation.0 as int,
            value: self.value.val(),
        }
    }

    pub fn new(poly: usize, rotation: Rotation, value: F) -> (r: Self)
        ensures
            r.poly == poly,
            r.rotation == rotation,
            r.value == value,
    {
        Evaluation_for_shift { poly, rotation, value }
    }

    pub fn poly(&self) -> (r: usize)
        ensures
            r == self.poly,
    {
        self.poly
    }

    pub fn rotation(&self) -> (r: Rotation)
        ensures
            r == self.rotation,
    {
        self.rotation
    }

    pub fn value(&self) -> (r: &F)
        ensures
            *r == self.value,
    {
        &self.value
    }
}

/// The claims with their values by representatives.
pub open spec fn evaluations_vals<F: PrimeField>(evals: Seq<Evaluation<F>>) -> Seq<EvaluationView> {
    evals.map_values(|e: Evaluation<F>| e.vals())
}

/// The claims with their values by representatives.
pub open spec fn shift_evaluations_vals<F: PrimeField>(
    evals: Seq<Evaluation_for_shift<F>>,
) -> Seq<ShiftEvaluationView> {
    evals.map_values(|e: Evaluation_for_shift<F>| e.vals())
}

/// The representatives of several points.
pub open spec fn points_vals<F: PrimeField>(points: Seq<Vec<F>>) -> Seq<Seq<int>> {
    points.map_values(|p: Vec<F>| field::vals(p@))
}

/// The representatives of several polynomials' values.
pub open spec fn polys_vals<F: PrimeField>(polys: Seq<&MultilinearPolynomial<F>>) -> Seq<Seq<int>> {
    Seq::new(polys.len(), |i: int| polys[i].vals())
}

/// The representatives of several polynomials' values.
pub open spec fn owned_vals<F: PrimeField>(polys: Seq<MultilinearPolynomial<F>>) -> Seq<Seq<int>> {
    Seq::new(polys.len(), |i: int| polys[i].vals())
}

/// Whether every polynomial has `size` values.
pub open spec fn all_sized(polys: Seq<Seq<int>>, size: nat) -> bool {
    forall|i: int| 0 <= i < polys.len() ==> (#[trigger] polys[i]).len() == size
}

/// References to several polynomials.
pub fn poly_refs<F: PrimeField>(polys: &Vec<MultilinearPolynomial<F>>) -> (r: Vec<
    &MultilinearPolynomial<F>,
>)
    ensures
        polys_vals(r@) == owned_vals(polys@),
{
    let mut r: Vec<&MultilinearPolynomial<F>> = Vec::new();
    let mut i: usize = 0;
    assert(polys_vals(r@) =~= owned_vals(polys@).take(0));
    while i < polys.len()
        invariant
            i <= polys.len(),
            polys_vals(r@) == owned_vals(polys@).take(i as int),
        decreases polys.len() - i,
    {
        let ghost before = r@;
        r.push(&polys[i]);
        assert(polys_vals(r@) =~= polys_vals(before).push(polys@[i as int].vals()));
        assert(owned_vals(polys@).take(i + 1) =~= owned_vals(polys@).take(i as int).push(
            polys@[i as int].vals(),
        ));
        i = i + 1;
    }
    assert(owned_vals(polys@).take(polys@.len() as int) =~= owned_vals(polys@));
    r
}

/// References to several values.
pub fn value_refs<T>(values: &Vec<T>) -> (r: Vec<&T>)
    ensures
        pointees(r@) == values@,
{
    let mut r: Vec<&T> = Vec::new();
    let mut i: usize = 0;
    while i < values.len()
        invariant
            i <= values.len(),
            r@.len() == i,
            forall|j: int| 0 <= j < i ==> #[trigger] r@[j] == values@[j],
        decreases values.len() - i,
    {
        r.push(&values[i]);
        i = i + 1;
    }
    assert(pointees(r@) =~= values@);
    r
}

/// What the references point to.
pub open spec fn pointees<T>(refs: Seq<&T>) -> Seq<T> {
    refs.map_values(|t: &T| *t)
}

/// A commitment that can be combined linearly. One from outside verified code leaves the
/// specification function as it is given here, and nothing is known of it.
pub trait Additive<F: PrimeField>: Sized {
    /// The combination of `bases` with the factors `scalars`.
    open spec fn msm_spec(scalars: Seq<int>, bases: Seq<Self>) -> Self {
        arbitrary()
    }

    fn msm(scalars: &[F], bases: &[&Self]) -> (r: Self)
        requires
            scalars@.len() == bases@.len(),
        ensures
            r == Self::msm_spec(field::vals(scalars@), pointees(bases@)),
    ;
}

/// Whether `r` holds the values that `expected` says.
pub open spec fn lists<V>(r: Result<Vec<V>, Error>, expected: Result<Seq<V>, ErrorView>) -> bool {
    match expected {
        Ok(v) => r is Ok && r->Ok_0@ == v,
        Err(e) => r is Err && r->Err_0@ == e,
    }
}

/// Whether `r`, which left the transcript in state `st`, holds the values that `expected` says.
pub open spec fn yields_list<C, V>(
    r: Result<Vec<V>, Error>,
    st: State<C>,
    expected: Result<(Seq<V>, State<C>), Halt<C>>,
) -> bool {
    match expected {
        Ok((v, s)) => r is Ok && r->Ok_0@ == v && st == s,
        Err(h) => transcript::halted(r, st, h),
    }
}

/// A scheme that commits to multilinear polynomials and opens them at points. A scheme from
/// outside verified code leaves the specification functions as they are given here, and
/// nothing is known of them.
pub trait PolynomialCommitmentScheme<F: PrimeField>: Sized {
    type Param;

    type ProverParam;

    type VerifierParam;

    type Commitment;

    type CommitmentChunk;

    /// The commitment that stands where none is needed.
    open spec fn no_commitment() -> Self::Commitment {
        arbitrary()
    }

    /// The pieces that a commitment is sent in.
    open spec fn chunks_spec(comm: Self::Commitment) -> Seq<Self::CommitmentChunk> {
        arbitrary()
    }

    /// What trimming `param` to `poly_size` can come to.
    open spec fn trimmed(
        param: Self::Param,
        poly_size: nat,
        r: Result<(Self::ProverParam, Self::VerifierParam), Error>,
    ) -> bool {
        arbitrary()
    }

    /// Whether polynomials with `size` values can be committed to.
    open spec fn can_commit(pp: Self::ProverParam, size: nat) -> bool {
        arbitrary()
    }

    /// The commitment to the polynomial with values `evals`.
    open spec fn commit_spec(pp: Self::ProverParam, evals: Seq<int>) -> Result<
        Self::Commitment,
        ErrorView,
    > {
        arbitrary()
    }

    /// Whether polynomials with `size` values can be opened at points with `num_vars` coordinates.
    open spec fn can_open(pp: Self::ProverParam, size: nat, num_vars: nat) -> bool {
        arbitrary()
    }

    /// The transcript after the opening is written.
    open spec fn open_spec(
        pp: Self::ProverParam,
        evals: Seq<int>,
        comm: Self::Commitment,
        point: Seq<int>,
        eval: int,
        mo: Model<Self::CommitmentChunk>,
        st: State<Self::CommitmentChunk>,
    ) -> Result<State<Self::CommitmentChunk>, Halt<Self::CommitmentChunk>> {
        arbitrary()
    }

    /// Whether openings at points with `num_vars` coordinates can be verified.
    open spec fn can_verify(vp: Self::VerifierParam, num_vars: nat) -> bool {
        arbitrary()
    }

    /// The transcript after an opening is read and accepted.
    open spec fn verify_spec(
        vp: Self::VerifierParam,
        comm: Self::Commitment,
        point: Seq<int>,
        eval: int,
        mo: Model<Self::CommitmentChunk>,
        st: State<Self::CommitmentChunk>,
    ) -> Result<State<Self::CommitmentChunk>, Halt<Self::CommitmentChunk>> {
        arbitrary()
    }

    /// Whether the claims `evals` can be opened together.
    open spec fn can_batch_open(
        pp: Self::ProverParam,
        polys: Seq<Seq<int>>,
        comms: Seq<Self::Commitment>,
        points: Seq<Seq<int>>,
        evals: Seq<EvaluationView>,
    ) -> bool {
        arbitrary()
    }

    /// The transcript after the common opening is written.
    open spec fn batch_open_spec(
        pp: Self::ProverParam,
        polys: Seq<Seq<int>>,
        comms: Seq<Self::Commitment>,
        points: Seq<Seq<int>>,
        evals: Seq<EvaluationView>,
        mo: Model<Self::CommitmentChunk>,
        st: State<Self::CommitmentChunk>,
    ) -> Result<State<Self::CommitmentChunk>, Halt<Self::CommitmentChunk>> {
        arbitrary()
    }

    /// Whether the claims `evals` can be verified together.
    open spec fn can_batch_verify(
        vp: Self::VerifierParam,
        comms: Seq<Self::Commitment>,
        points: Seq<Seq<int>>,
        evals: Seq<EvaluationView>,
    ) -> bool {
        arbitrary()
    }

    /// The transcript after a common opening is read and accepted.
    open spec fn batch_verify_spec(
        vp: Self::VerifierParam,
        comms: Seq<Self::Commitment>,
        points: Seq<Seq<int>>,
        evals: Seq<EvaluationView>,
        mo: Model<Self::CommitmentChunk>,
        st: State<Self::CommitmentChunk>,
    ) -> Result<State<Self::CommitmentChunk>, Halt<Self::CommitmentChunk>> {
        arbitrary()
    }

    /// The transcript after the opening of a rotated polynomial is written.
    open spec fn open_shift_spec(
        pp: Self::ProverParam,
        evals: Seq<int>,
        comm: Self::Commitment,
        point: Seq<int>,
        eval: int,
        rotation: int,
        mo: Model<Self::CommitmentChunk>,
        st: State<Self::CommitmentChunk>,
    ) -> Result<State<Self::CommitmentChunk>, Halt<Self::CommitmentChunk>> {
        arbitrary()
    }

    /// The transcript after the opening of a rotated polynomial is read and accepted.
    open spec fn verify_shifted_evaluation_spec(
        vp: Self::VerifierParam,
        comm: Self::Commitment,
        point: Seq<int>,
        eval: int,
        rotation: int,
        mo: Model<Self::CommitmentChunk>,
        st: State<Self::CommitmentChunk>,
    ) -> Result<State<Self::CommitmentChunk>, Halt<Self::CommitmentChunk>> {
        arbitrary()
    }

    /// The commitments read off a proof.
    open spec fn read_commitments_spec(
        vp: Self::VerifierParam,
        num_polys: nat,
        mo: Model<Self::CommitmentChunk>,
        st: State<Self::CommitmentChunk>,
    ) -> Result<(Seq<Self::Commitment>, State<Self::CommitmentChunk>), Halt<Self::CommitmentChunk>> {
        arbitrary()
    }

    fn default_commitment() -> (r: Self::Commitment)
        ensures
            r == Self::no_commitment(),
    ;

    fn chunks(comm: &Self::Commitment) -> (r: &[Self::CommitmentChunk])
        ensures
            r@ == Self::chunks_spec(*comm),
    ;

    /// Parameters for polynomials with `poly_size` values.
    fn trim(param: &Self::Param, poly_size: usize, batch_size: usize) -> (r: Result<
        (Self::ProverParam, Self::VerifierParam),
        Error,
    >)
        requires
            crate::util::integer::is_pow2(poly_size as int),
        ensures
            Self::trimmed(*param, poly_size as nat, r),
    ;

    fn commit(pp: &Self::ProverParam, poly: &MultilinearPolynomial<F>) -> (r: Result<
        Self::Commitment,
        Error,
    >)
        requires
            Self::can_commit(*pp, poly@.len()),
        ensures
            crate::outcome(r) == Self::commit_spec(*pp, poly.vals()),
    ;

    fn batch_commit(pp: &Self::ProverParam, polys: &[&MultilinearPolynomial<F>]) -> (r: Result<
        Vec<Self::Commitment>,
        Error,
    >)
        requires
            forall|i: int|
                0 <= i < polys@.len() ==> Self::can_commit(
                    *pp,
                    (#[trigger] polys_vals(polys@)[i]).len(),
                ),
        ensures
            lists(r, commit_all(|e: Seq<int>| Self::commit_spec(*pp, e), polys_vals(polys@))),
    ;

    fn open<T: TranscriptWrite<Self::CommitmentChunk, F>>(
        pp: &Self::ProverParam,
        poly: &MultilinearPolynomial<F>,
        comm: &Self::Commitment,
        point: &Vec<F>,
        eval: &F,
        transcript: &mut T,
    ) -> (r: Result<(), Error>)
        requires
            Self::can_open(*pp, poly@.len(), point@.len()),
        ensures
            transcript::moved_to(
                r,
                final(transcript).state(),
                Self::open_spec(
                    *pp,
                    poly.vals(),
                    *comm,
                    field::vals(point@),
                    eval.val(),
                    T::model(),
                    old(transcript).state(),
                ),
            ),
    ;

    fn batch_open<T: TranscriptWrite<Self::CommitmentChunk, F>>(
        pp: &Self::ProverParam,
        polys: &[&MultilinearPolynomial<F>],
        comms: &[&Self::Commitment],
        points: &[Vec<F>],
        evals: &[Evaluation<F>],
        transcript: &mut T,
    ) -> (r: Result<(), Error>)
        requires
            Self::can_batch_open(
                *pp,
                polys_vals(polys@),
                pointees(comms@),
                points_vals(points@),
                evaluations_vals(evals@),
            ),
        ensures
            transcript::moved_to(
                r,
                final(transcript).state(),
                Self::batch_open_spec(
                    *pp,
                    polys_vals(polys@),
                    pointees(comms@),
                    points_vals(points@),
                    evaluations_vals(evals@),
                    T::model(),
                    old(transcript).state(),
                ),
            ),
    ;

    fn read_commitments<T: TranscriptRead<Self::CommitmentChunk, F>>(
        vp: &Self::VerifierParam,
        num_polys: usize,
        transcript: &mut T,
    ) -> (r: Result<Vec<Self::Commitment>, Error>)
        ensures
            yields_list(
                r,
                final(transcript).state(),
                Self::read_commitments_spec(
                    *vp,
                    num_polys as nat,
                    T::model(),
                    old(transcript).state(),
                ),
            ),
    ;

    fn verify<T: TranscriptRead<Self::CommitmentChunk, F>>(
        vp: &Self::VerifierParam,
        comm: &Self::Commitment,
        point: &Vec<F>,
        eval: &F,
        transcript: &mut T,
    ) -> (r: Result<(), Error>)
        requires
            Self::can_verify(*vp, point@.len()),
        ensures
            transcript::moved_to(
                r,
                final(transcript).state(),
                Self::verify_spec(
                    *vp,
                    *comm,
                    field::vals(point@),
                    eval.val(),
                    T::model(),
                    old(transcript).state(),
                ),
            ),
    ;

    fn batch_verify<T: TranscriptRead<Self::CommitmentChunk, F>>(
        vp: &Self::VerifierParam,
        comms: &[&Self::Commitment],
        points: &[Vec<F>],
        evals: &[Evaluation<F>],
        transcript: &mut T,
    ) -> (r: Result<(), Error>)
        requires
            Self::can_batch_verify(
                *vp,
                pointees(comms@),
                points_vals(points@),
                evaluations_vals(evals@),
            ),
        ensures
            transcript::moved_to(
                r,
                final(transcript).state(),
                Self::batch_verify_spec(
                    *vp,
                    pointees(comms@),
                    points_vals(points@),
                    evaluations_vals(evals@),
                    T::model(),
                    old(transcript).state(),
                ),
            ),
    ;

    /// Opens a polynomial rotated by `rotation`.
    fn open_shift<T: TranscriptWrite<Self::CommitmentChunk, F>>(
        pp: &Self::ProverParam,
        poly: &MultilinearPolynomial<F>,
        comm: &Self::Commitment,
        point: &Vec<F>,
        eval: &F,
        rotation: &Rotation,
        transcript: &mut T,
    ) -> (r: Result<(), Error>)
        requires
            Self::can_open(*pp, poly@.len(), point@.len()),
        ensures
            transcript::moved_to(
                r,
                final(transcript).state(),
                Self::open_shift_spec(
                    *pp,
                    poly.vals(),
                    *comm,
                    field::vals(point@),
                    eval.val(),
                    rotation.0 as int,
                    T::model(),
                    old(transcript).state(),
                ),
            ),
    ;

    /// Verifies the opening of a polynomial rotated by `rotation`.
    fn verify_shifted_evaluation<T: TranscriptRead<Self::CommitmentChunk, F>>(
        vp: &Self::VerifierParam,
        comm: &Self::Commitment,
        point: &Vec<F>,
        eval: &F,
        rotation: &Rotation,
        transcript: &mut T,
    ) -> (r: Result<(), Error>)
        requires
            Self::can_verify(*vp, point@.len()),
        ensures
            transcript::moved_to(
                r,
                final(transcript).state(),
                Self::verify_shifted_evaluation_spec(
                    *vp,
                    *comm,
                    field::vals(point@),
                    eval.val(),
                    rotation.0 as int,
                    T::model(),
                    old(transcript).state(),
                ),
            ),
    ;
}

/// The commitments to several polynomials, or the first error.
pub open spec fn commit_all<V>(
    commit: spec_fn(Seq<int>) -> Result<V, ErrorView>,
    polys: Seq<Seq<int>>,
) -> Result<Seq<V>, ErrorView>
    decreases polys.len(),
{
    if polys.len() == 0 {
        Ok(Seq::empty())
    } else {
        match commit_all(commit, polys.drop_last()) {
            Err(e) => Err(e),
            Ok(cs) => match commit(polys.last()) {
                Err(e) => Err(e),
                Ok(c) => Ok(cs.push(c)),
            },
        }
    }
}

/// An early error stops the whole.
pub proof fn lemma_commit_all_prefix<V>(
    commit: spec_fn(Seq<int>) -> Result<V, ErrorView>,
    polys: Seq<Seq<int>>,
    k: int,
)
    requires
        0 <= k <= polys.len(),
        commit_all(commit, polys.take(k)) is Err,
    ensures
        commit_all(commit, polys) == commit_all(commit, polys.take(k)),
    decreases polys.len() - k,
{
    if k == polys.len() {
        assert(polys.take(k) =~= polys);
    } else {
        assert(polys.take(k + 1).drop_last() =~= polys.take(k));
        lemma_commit_all_prefix(commit, polys, k + 1);
    }
}

/// Opening the polynomial with values `evals`, to which `comm` is a commitment, at any
/// point and with its true value there, writes a proof that verifies. The prover is
/// handed the commitment `given`.
pub open spec fn opens_honestly<F: PrimeField, Pcs: PolynomialCommitmentScheme<F>>(
    pp: Pcs::ProverParam,
    vp: Pcs::VerifierParam,
    given: Pcs::Commitment,
    comm: Pcs::Commitment,
    evals: Seq<int>,
    num_vars: nat,
    mo: Model<Pcs::CommitmentChunk>,
) -> bool {
    &&& forall|point: Seq<int>, eval: int, w: State<Pcs::CommitmentChunk>|
        ({
            &&& point.len() == num_vars
            &&& #[trigger] Pcs::open_spec(pp, evals, given, point, eval, mo, w) is Ok
        }) ==> transcript::starts_with(
            Pcs::open_spec(pp, evals, given, point, eval, mo, w)->Ok_0.proof,
            w,
        )
    &&& forall|
        point: Seq<int>,
        eval: int,
        w: State<Pcs::CommitmentChunk>,
        r: State<Pcs::CommitmentChunk>,
        whole: Seq<u8>,
    |
        #![trigger Pcs::open_spec(pp, evals, given, point, eval, mo, w), transcript::mirrors(w, r, whole)]
        {
            let opened = Pcs::open_spec(pp, evals, given, point, eval, mo, w);
            &&& point.len() == num_vars
            &&& eval == hypercube::mle(evals, point) % F::modulus()
            &&& opened is Ok
            &&& transcript::mirrors(w, r, whole)
            &&& transcript::starts_with(whole, opened->Ok_0)
        } ==> {
            let opened = Pcs::open_spec(pp, evals, given, point, eval, mo, w);
            Pcs::verify_spec(vp, comm, point, eval, mo, r) matches Ok(s) && transcript::mirrors(
                opened->Ok_0,
                s,
                whole,
            )
        }
}

/// The state after `chunks` are written.
pub open spec fn write_chunks<C>(mo: Model<C>, st: State<C>, chunks: Seq<C>) -> Result<
    State<C>,
    Halt<C>,
>
    decreases chunks.len(),
{
    if chunks.len() == 0 {
        Ok(st)
    } else {
        match write_chunks(mo, st, chunks.drop_last()) {
            Err(e) => Err(e),
            Ok(s) => transcript::write(mo, s, Item::Chunk(chunks.last())),
        }
    }
}

/// The state after the pieces of the commitments `comms` are written.
pub open spec fn write_comms<F: PrimeField, Pcs: PolynomialCommitmentScheme<F>>(
    mo: Model<Pcs::CommitmentChunk>,
    st: State<Pcs::CommitmentChunk>,
    comms: Seq<Pcs::Commitment>,
) -> Result<State<Pcs::CommitmentChunk>, Halt<Pcs::CommitmentChunk>>
    decreases comms.len(),
{
    if comms.len() == 0 {
        Ok(st)
    } else {
        match write_comms::<F, Pcs>(mo, st, comms.drop_last()) {
            Err(e) => Err(e),
            Ok(s) => write_chunks(mo, s, Pcs::chunks_spec(comms.last())),
        }
    }
}

/// The commitments to several polynomials, and the state after they are written.
pub open spec fn batch_commit_and_write_spec<F: PrimeField, Pcs: PolynomialCommitmentScheme<F>>(
    pp: Pcs::ProverParam,
    polys: Seq<Seq<int>>,
    mo: Model<Pcs::CommitmentChunk>,
    st: State<Pcs::CommitmentChunk>,
) -> Result<(Seq<Pcs::Commitment>, State<Pcs::CommitmentChunk>), Halt<Pcs::CommitmentChunk>> {
    match commit_all(|e: Seq<int>| Pcs::commit_spec(pp, e), polys) {
        Err(e) => Err(Halt { error: e, state: st }),
        Ok(comms) => match write_comms::<F, Pcs>(mo, st, comms) {
            Err(e) => Err(e),
            Ok(s) => Ok((comms, s)),
        },
    }
}

/// An early error stops the whole.
proof fn lemma_write_chunks_prefix<C>(mo: Model<C>, st: State<C>, chunks: Seq<C>, k: int)
    requires
        0 <= k <= chunks.len(),
        write_chunks(mo, st, chunks.take(k)) is Err,
    ensures
        write_chunks(mo, st, chunks) == write_chunks(mo, st, chunks.take(k)),
    decreases chunks.len() - k,
{
    if k == chunks.len() {
        assert(chunks.take(k) =~= chunks);
    } else {
        assert(chunks.take(k + 1).drop_last() =~= chunks.take(k));
        lemma_write_chunks_prefix(mo, st, chunks, k + 1);
    }
}

/// An early error stops the whole.
proof fn lemma_write_comms_prefix<F: PrimeField, Pcs: PolynomialCommitmentScheme<F>>(
    mo: Model<Pcs::CommitmentChunk>,
    st: State<Pcs::CommitmentChunk>,
    comms: Seq<Pcs::Commitment>,
    k: int,
)
    requires
        0 <= k <= comms.len(),
        write_comms::<F, Pcs>(mo, st, comms.take(k)) is Err,
    ensures
        write_comms::<F, Pcs>(mo, st, comms) == write_comms::<F, Pcs>(mo, st, comms.take(k)),
    decreases comms.len() - k,
{
    if k == comms.len() {
        assert(comms.take(k) =~= comms);
    } else {
        assert(comms.take(k + 1).drop_last() =~= comms.take(k));
        lemma_write_comms_prefix::<F, Pcs>(mo, st, comms, k + 1);
    }
}

/// Writes the pieces of a commitment.
fn write_pieces<C, F: PrimeField, T: TranscriptWrite<C, F>>(chunks: &[C], transcript: &mut T) -> (r:
    Result<(), Error>)
    ensures
        transcript::moved_to(
            r,
            final(transcript).state(),
            write_chunks(T::model(), old(transcript).state(), chunks@),
        ),
{
    let ghost st = transcript.state();
    let mut i: usize = 0;
    assert(chunks@.take(0) =~= Seq::empty());
    while i < chunks.len()
        invariant
            i <= chunks.len(),
            st == old(transcript).state(),
            write_chunks(T::model(), st, chunks@.take(i as int)) == Ok::<State<C>, Halt<C>>(
                transcript.state(),
            ),
        decreases chunks.len() - i,
    {
        assert(chunks@.take(i + 1).drop_last() =~= chunks@.take(i as int));
        match transcript.write_commitment(&chunks[i]) {
            Err(e) => {
                proof {
                    lemma_write_chunks_prefix(T::model(), st, chunks@, i + 1);
                }
                return Err(e);
            },
            Ok(()) => {},
        }
        i = i + 1;
    }
    assert(chunks@.take(chunks@.len() as int) =~= chunks@);
    Ok(())
}

/// Commits to several polynomials and writes the commitments.
pub fn batch_commit_and_write<
    F: PrimeField,
    Pcs: PolynomialCommitmentScheme<F>,
    T: TranscriptWrite<Pcs::CommitmentChunk, F>,
>(
    pp: &Pcs::ProverParam,
    polys: &[&MultilinearPolynomial<F>],
    transcript: &mut T,
) -> (r: Result<Vec<Pcs::Commitment>, Error>)
    requires
        forall|i: int|
            0 <= i < polys@.len() ==> Pcs::can_commit(*pp, (#[trigger] polys_vals(polys@)[i]).len()),
    ensures
        yields_list(
            r,
            final(transcript).state(),
            batch_commit_and_write_spec::<F, Pcs>(
                *pp,
                polys_vals(polys@),
                T::model(),
                old(transcript).state(),
            ),
        ),
{
    let ghost mo = T::model();
    let ghost st = transcript.state();
    let comms = match Pcs::batch_commit(pp, polys) {
        Err(e) => {
            return Err(e);
        },
        Ok(comms) => comms,
    };
    let mut i: usize = 0;
    assert(comms@.take(0) =~= Seq::empty());
    while i < comms.len()
        invariant
            i <= comms.len(),
            mo == T::model(),
            st == old(transcript).state(),
            write_comms::<F, Pcs>(mo, st, comms@.take(i as int)) == Ok::<
                State<Pcs::CommitmentChunk>,
                Halt<Pcs::CommitmentChunk>,
            >(transcript.state()),
            commit_all(|e: Seq<int>| Pcs::commit_spec(*pp, e), polys_vals(polys@)) == Ok::<
                Seq<Pcs::Commitment>,
                ErrorView,
            >(comms@),
        decreases comms.len() - i,
    {
        assert(comms@.take(i + 1).drop_last() =~= comms@.take(i as int));
        match write_pieces::<Pcs::CommitmentChunk, F, T>(Pcs::chunks(&comms[i]), transcript) {
            Err(e) => {
                proof {
                    lemma_write_comms_prefix::<F, Pcs>(mo, st, comms@, i + 1);
                }
                return Err(e);
            },
            Ok(()) => {},
        }
        i = i + 1;
    }
    assert(comms@.take(comms@.len() as int) =~= comms@);
    Ok(comms)
}

} // verus!
