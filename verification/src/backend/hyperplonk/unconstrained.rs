//! Circuits whose constraints always hold.

use crate::backend::hyperplonk;
use crate::backend::hyperplonk::Steps;
use crate::backend::PlonkishCircuitInfo;
use crate::pcs;
use crate::pcs::{Evaluation, EvaluationView};
use crate::poly::hypercube;
use crate::poly::multilinear;
use crate::poly::multilinear::MultilinearPolynomial;
use crate::util::expression::{Expression, ExpressionView};
use crate::util::field;
use crate::util::field::PrimeField;
use crate::util::integer;
use crate::util::transcript;
use crate::util::transcript::trace;
use crate::util::transcript::{Halt, Model, State, TranscriptRead, TranscriptWrite};
use crate::{Error, ErrorView};
use vstd::arithmetic::power2::pow2;
use vstd::prelude::*;

verus! {

/// The steps for circuits whose constraints always hold, without lookups and permutations:
/// nothing is checked, but the values of all `num_polys` polynomials at the random point
/// are sent and opened.
#[derive(Clone, Copy, Debug)]
pub struct Unconstrained {
    pub num_polys: usize,
}

/// The values of an instance, followed by zeros.
pub open spec fn placed(instance: Seq<int>, size: nat) -> Seq<int> {
    Seq::new(
        size,
        |i: int|
            if i < instance.len() {
                instance[i]
            } else {
                0
            },
    )
}

/// The values of the polynomials at `y`.
pub open spec fn values_at(polys: Seq<Seq<int>>, y: Seq<int>, m: int) -> Seq<int> {
    Seq::new(polys.len(), |i: int| hypercube::mle(polys[i], y) % m)
}

/// The claims that the polynomials take the values `values` at the first point.
pub open spec fn claims_of(values: Seq<int>) -> Seq<EvaluationView> {
    Seq::new(
        values.len(),
        |i: int| EvaluationView { poly: i, point: 0, value: values[i] },
    )
}

/// The claims that the polynomials take `values` at the first point.
fn claim_values<F: PrimeField>(values: &Vec<F>) -> (r: Vec<Evaluation<F>>)
    ensures
        pcs::evaluations_vals(r@) == claims_of(field::vals(values@)),
{
    let mut r: Vec<Evaluation<F>> = Vec::new();
    let mut i: usize = 0;
    while i < values.len()
        invariant
            i <= values.len(),
            r@.len() == i,
            forall|j: int|
                0 <= j < i ==> (#[trigger] r@[j]).vals() == claims_of(field::vals(values@))[j],
        decreases values.len() - i,
    {
        r.push(Evaluation::new(i, 0, values[i]));
        i = i + 1;
    }
    assert(pcs::evaluations_vals(r@) =~= claims_of(field::vals(values@)));
    r
}

impl<F: PrimeField, C> Steps<F, C> for Unconstrained {
    open spec fn instance_polys_spec(&self, num_vars: nat, instances: Seq<Seq<int>>) -> Seq<Seq<int>> {
        Seq::new(instances.len(), |i: int| placed(instances[i], pow2(num_vars)))
    }

    open spec fn lookup_compressed_polys_spec(
        &self,
        lookups: Seq<Seq<(ExpressionView, ExpressionView)>>,
        polys: Seq<Seq<int>>,
        challenges: Seq<int>,
        betas: Seq<int>,
    ) -> Seq<(Seq<int>, Seq<int>)> {
        Seq::empty()
    }

    open spec fn lookup_m_polys_spec(&self, compressed: Seq<(Seq<int>, Seq<int>)>) -> Result<
        Seq<Seq<int>>,
        ErrorView,
    > {
        Ok(Seq::empty())
    }

    open spec fn lookup_h_polys_spec(
        &self,
        compressed: Seq<(Seq<int>, Seq<int>)>,
        ms: Seq<Seq<int>>,
        gamma: int,
    ) -> Seq<Seq<int>> {
        Seq::empty()
    }

    open spec fn permutation_z_polys_spec(
        &self,
        num: nat,
        permutation: Seq<(int, Seq<int>)>,
        polys: Seq<Seq<int>>,
        beta: int,
        gamma: int,
    ) -> Seq<Seq<int>> {
        Seq::empty()
    }

    open spec fn prove_zero_check_spec(
        &self,
        num_instances: nat,
        e: ExpressionView,
        polys: Seq<Seq<int>>,
        challenges: Seq<int>,
        y: Seq<int>,
        mo: Model<C>,
        st: State<C>,
    ) -> Result<(Seq<Seq<int>>, Seq<EvaluationView>, State<C>), Halt<C>> {
        let values = values_at(polys, y, F::modulus());
        match transcript::write_fields(mo, st, values) {
            Err(e) => Err(e),
            Ok(s) => Ok((seq![y], claims_of(values), s)),
        }
    }

    open spec fn verify_zero_check_spec(
        &self,
        num_vars: nat,
        e: ExpressionView,
        instances: Seq<Seq<int>>,
        challenges: Seq<int>,
        y: Seq<int>,
        mo: Model<C>,
        st: State<C>,
    ) -> Result<(Seq<Seq<int>>, Seq<EvaluationView>, State<C>), Halt<C>> {
        if self.num_polys == 0 {
            Err(Halt { error: ErrorView::InvalidSnark("No polynomial to open"@), state: st })
        } else {
            match transcript::read_fields(mo, st, self.num_polys as nat) {
                Err(e) => Err(e),
                Ok((values, s)) => Ok((seq![y], claims_of(values), s)),
            }
        }
    }

    open spec fn can_place(&self, num_vars: nat, instances: Seq<Seq<int>>) -> bool {
        forall|i: int| 0 <= i < instances.len() ==> (#[trigger] instances[i]).len() <= pow2(num_vars)
    }

    open spec fn supports(&self, num_lookups: nat, num_permutation_z_polys: nat) -> bool {
        num_lookups == 0 && num_permutation_z_polys == 0
    }

    proof fn polys_have_size(
        &self,
        num_vars: nat,
        instances: Seq<Seq<int>>,
        lookups: Seq<Seq<(ExpressionView, ExpressionView)>>,
        polys: Seq<Seq<int>>,
        challenges: Seq<int>,
        betas: Seq<int>,
        num: nat,
        permutation: Seq<(int, Seq<int>)>,
        beta: int,
        gamma: int,
    ) {
    }

    proof fn zero_check_can_be_opened(
        &self,
        num_instances: nat,
        e: ExpressionView,
        polys: Seq<Seq<int>>,
        instances: Seq<Seq<int>>,
        challenges: Seq<int>,
        y: Seq<int>,
        mo: Model<C>,
        st: State<C>,
    ) {
        transcript::lemma_read_fields_len(mo, st, self.num_polys as nat);
    }

    proof fn zero_check_follows(
        &self,
        num_instances: nat,
        e: ExpressionView,
        polys: Seq<Seq<int>>,
        instances: Seq<Seq<int>>,
        challenges: Seq<int>,
        y: Seq<int>,
        mo: Model<C>,
        st: State<C>,
    ) {
        let values = values_at(polys, y, F::modulus());
        trace::law_written_fields_are_absorbed(mo, st, values);
        if let Ok(s) = transcript::write_fields(mo, st, values) {
            trace::lemma_follows_more(st, s, trace::fields(values));
        }
        let n = self.num_polys as nat;
        trace::law_read_fields_are_absorbed(mo, st, n);
        if let Ok((vs, s)) = transcript::read_fields(mo, st, n) {
            trace::lemma_follows_more(st, s, trace::fields(vs));
        }
    }

    fn instance_polys(&self, num_vars: usize, instances: &[Vec<F>]) -> (r: Vec<
        MultilinearPolynomial<F>,
    >) {
        let size = integer::pow2_usize(num_vars);
        let ghost iv = pcs::points_vals(instances@);
        let mut r: Vec<MultilinearPolynomial<F>> = Vec::new();
        let mut i: usize = 0;
        assert(pcs::owned_vals(r@) =~= Seq::<Seq<int>>::empty());
        while i < instances.len()
            invariant
                i <= instances.len(),
                size == pow2(num_vars as nat),
                iv == pcs::points_vals(instances@),
                pcs::owned_vals(r@) == Seq::new(i as nat, |j: int| placed(iv[j], size as nat)),
            decreases instances.len() - i,
        {
            let instance = &instances[i];
            let mut values: Vec<F> = Vec::new();
            let mut j: usize = 0;
            while j < size
                invariant
                    j <= size,
                    values@.len() == j,
                    iv[i as int] == field::vals(instance@),
                    forall|t: int|
                        0 <= t < j ==> (#[trigger] values@[t]).val() == placed(
                            iv[i as int],
                            size as nat,
                        )[t],
                decreases size - j,
            {
                let value = if j < instance.len() {
                    instance[j]
                } else {
                    F::zero()
                };
                values.push(value);
                j = j + 1;
            }
            assert(field::vals(values@) =~= placed(iv[i as int], size as nat));
            assert(integer::is_pow2(values@.len() as int)) by {
                assert(pow2(num_vars as nat) == values@.len());
            }
            let poly = MultilinearPolynomial::new(values);
            let ghost before = r@;
            r.push(poly);
            assert(pcs::owned_vals(r@) =~= pcs::owned_vals(before).push(poly.vals()));
            i = i + 1;
            assert(pcs::owned_vals(r@) =~= Seq::new(i as nat, |j: int| placed(iv[j], size as nat)));
        }
        r
    }

    fn lookup_compressed_polys(
        &self,
        _lookups: &Vec<Vec<(Expression<F>, Expression<F>)>>,
        _polys: &[&MultilinearPolynomial<F>],
        _challenges: &[F],
        _betas: &[F],
    ) -> (r: Vec<(MultilinearPolynomial<F>, MultilinearPolynomial<F>)>) {
        let r: Vec<(MultilinearPolynomial<F>, MultilinearPolynomial<F>)> = Vec::new();
        assert(hyperplonk::pairs_vals(r@) =~= Seq::<(Seq<int>, Seq<int>)>::empty());
        r
    }

    fn lookup_m_polys(
        &self,
        _compressed: &Vec<(MultilinearPolynomial<F>, MultilinearPolynomial<F>)>,
    ) -> (r: Result<Vec<MultilinearPolynomial<F>>, Error>) {
        let r: Vec<MultilinearPolynomial<F>> = Vec::new();
        assert(pcs::owned_vals(r@) =~= Seq::<Seq<int>>::empty());
        Ok(r)
    }

    fn lookup_h_polys(
        &self,
        _compressed: &Vec<(MultilinearPolynomial<F>, MultilinearPolynomial<F>)>,
        _ms: &Vec<MultilinearPolynomial<F>>,
        _gamma: &F,
    ) -> (r: Vec<MultilinearPolynomial<F>>) {
        let r: Vec<MultilinearPolynomial<F>> = Vec::new();
        assert(pcs::owned_vals(r@) =~= Seq::<Seq<int>>::empty());
        r
    }

    fn permutation_z_polys(
        &self,
        _num: usize,
        _permutation: &Vec<(usize, MultilinearPolynomial<F>)>,
        _polys: &[&MultilinearPolynomial<F>],
        _beta: &F,
        _gamma: &F,
    ) -> (r: Vec<MultilinearPolynomial<F>>) {
        let r: Vec<MultilinearPolynomial<F>> = Vec::new();
        assert(pcs::owned_vals(r@) =~= Seq::<Seq<int>>::empty());
        r
    }

    fn prove_zero_check<T: TranscriptWrite<C, F>>(
        &self,
        _num_instances: usize,
        _expression: &Expression<F>,
        polys: &[&MultilinearPolynomial<F>],
        _challenges: &[F],
        y: &[F],
        transcript: &mut T,
    ) -> (r: Result<(Vec<Vec<F>>, Vec<Evaluation<F>>), Error>) {
        let ghost pv = pcs::polys_vals(polys@);
        let ghost yv = field::vals(y@);
        let mut values: Vec<F> = Vec::new();
        let mut i: usize = 0;
        while i < polys.len()
            invariant
                i <= polys.len(),
                pv == pcs::polys_vals(polys@),
                yv == field::vals(y@),
                pcs::all_sized(pv, pow2(y@.len())),
                values@.len() == i,
                forall|j: int|
                    0 <= j < i ==> (#[trigger] values@[j]).val() == values_at(
                        pv,
                        yv,
                        F::modulus(),
                    )[j],
            decreases polys.len() - i,
        {
            assert(pv[i as int].len() == pow2(y@.len()));
            assert(pv[i as int] == polys@[i as int].vals());
            values.push(polys[i].evaluate(y));
            i = i + 1;
        }
        assert(field::vals(values@) =~= values_at(pv, yv, F::modulus()));
        match transcript::write_field_elements(transcript, &values) {
            Err(e) => {
                return Err(e);
            },
            Ok(()) => {},
        }
        let points: Vec<Vec<F>> = vec![multilinear::clone_elements(y)];
        assert(pcs::points_vals(points@) =~= seq![yv]);
        Ok((points, claim_values(&values)))
    }

    fn verify_zero_check<T: TranscriptRead<C, F>>(
        &self,
        _num_vars: usize,
        _expression: &Expression<F>,
        _instances: &[Vec<F>],
        _challenges: &[F],
        y: &[F],
        transcript: &mut T,
    ) -> (r: Result<(Vec<Vec<F>>, Vec<Evaluation<F>>), Error>) {
        if self.num_polys == 0 {
            return Err(Error::InvalidSnark("No polynomial to open".to_string()));
        }
        let values = match transcript::read_field_elements::<C, F, T>(transcript, self.num_polys) {
            Err(e) => {
                return Err(e);
            },
            Ok(values) => values,
        };
        let points: Vec<Vec<F>> = vec![multilinear::clone_elements(y)];
        assert(pcs::points_vals(points@) =~= seq![field::vals(y@)]);
        Ok((points, claim_values(&values)))
    }

    open spec fn batch_size_spec(&self, info: PlonkishCircuitInfo<F>) -> nat {
        self.num_polys as nat
    }

    fn batch_size(&self, _info: &PlonkishCircuitInfo<F>) -> (r: usize) {
        self.num_polys
    }

    open spec fn compose_spec(&self, info: PlonkishCircuitInfo<F>) -> (nat, ExpressionView) {
        (
            0,
            if info.constraints@.len() > 0 {
                info.constraints@[0]@
            } else {
                ExpressionView::Constant(0)
            },
        )
    }

    open spec fn permutation_polys_spec(&self, info: PlonkishCircuitInfo<F>) -> Seq<(int, Seq<int>)> {
        Seq::empty()
    }

    fn compose(&self, info: &PlonkishCircuitInfo<F>) -> (r: (usize, Expression<F>)) {
        if info.constraints.len() > 0 {
            (0, info.constraints[0].clone())
        } else {
            (0, Expression::Constant(F::zero()))
        }
    }

    fn permutation_polys(&self, _info: &PlonkishCircuitInfo<F>) -> (r: Vec<
        (usize, MultilinearPolynomial<F>),
    >) {
        let r: Vec<(usize, MultilinearPolynomial<F>)> = Vec::new();
        assert(hyperplonk::indexed_vals(r@) =~= Seq::<(int, Seq<int>)>::empty());
        r
    }
}

/// What is left to open, and what is sent: for every polynomial, in order, the value of its
/// extension at the random point. As many values are read as there are polynomials.
pub proof fn law_all_values_are_claimed<F: PrimeField, C>(
    steps: Unconstrained,
    num_instances: nat,
    num_vars: nat,
    e: ExpressionView,
    polys: Seq<Seq<int>>,
    instances: Seq<Seq<int>>,
    challenges: Seq<int>,
    y: Seq<int>,
    mo: Model<C>,
    st: State<C>,
)
    ensures
        <Unconstrained as Steps<F, C>>::prove_zero_check_spec(
            &steps,
            num_instances,
            e,
            polys,
            challenges,
            y,
            mo,
            st,
        ) matches Ok((points, evals, s)) ==> {
            &&& points == seq![y]
            &&& evals.len() == polys.len()
            &&& forall|i: int|
                0 <= i < polys.len() ==> (#[trigger] evals[i]).poly == i && evals[i].point == 0
                    && evals[i].value == hypercube::mle(polys[i], y) % F::modulus()
            &&& s.events == st.events + trace::fields(
                evals.map_values(|e: EvaluationView| e.value),
            )
        },
        <Unconstrained as Steps<F, C>>::verify_zero_check_spec(
            &steps,
            num_vars,
            e,
            instances,
            challenges,
            y,
            mo,
            st,
        ) matches Ok((points, evals, s)) ==> {
            &&& points == seq![y]
            &&& evals.len() == steps.num_polys
            &&& forall|i: int|
                0 <= i < evals.len() ==> (#[trigger] evals[i]).poly == i && evals[i].point == 0
            &&& s.events == st.events + trace::fields(
                evals.map_values(|e: EvaluationView| e.value),
            )
        },
{
    let values = values_at(polys, y, F::modulus());
    trace::law_written_fields_are_absorbed(mo, st, values);
    assert(claims_of(values).map_values(|e: EvaluationView| e.value) =~= values);
    let n = steps.num_polys as nat;
    trace::law_read_fields_are_absorbed(mo, st, n);
    if let Ok((read, _)) = transcript::read_fields(mo, st, n) {
        assert(claims_of(read).map_values(|e: EvaluationView| e.value) =~= read);
    }
}

/// The polynomial of an instance holds its values on the first rows, and zeros below.
pub proof fn law_instances_are_placed<F: PrimeField, C>(
    steps: Unconstrained,
    num_vars: nat,
    instances: Seq<Seq<int>>,
    i: int,
    row: int,
)
    requires
        0 <= i < instances.len(),
        0 <= row < pow2(num_vars),
    ensures
        ({
            let polys = <Unconstrained as Steps<F, C>>::instance_polys_spec(
                &steps,
                num_vars,
                instances,
            );
            &&& polys.len() == instances.len()
            &&& polys[i].len() == pow2(num_vars)
            &&& row < instances[i].len() ==> polys[i][row] == instances[i][row]
            &&& row >= instances[i].len() ==> polys[i][row] == 0
        }),
{
}

} // verus!
