//! What a shift-open proof says, and what an accepted one shows.

use crate::pcs::PolynomialCommitmentScheme;
use crate::piop::shift_open;
use crate::piop::sum_check;
use crate::piop::sum_check::acceptance;
use crate::piop::sum_check::soundness;
use crate::piop::sum_check::Form;
use crate::poly::hypercube;
use crate::util::field::PrimeField;
use crate::util::modular;
use crate::util::sum;
use crate::util::transcript;
use crate::util::transcript::trace;
use crate::util::transcript::{Event, Item, Model, State};
use crate::ErrorView;
use vstd::arithmetic::power2::pow2;
use vstd::prelude::*;

verus! {

/// What happens before the random point is drawn: the shift and the number of variables are
/// absorbed.
pub open spec fn header<C>(k: int, num_vars: nat, m: int) -> Seq<Event<C>> {
    seq![Event::Absorb(Item::Field(k % m)), Event::Absorb(Item::Field(num_vars as int % m))]
}

/// Whether `r` is the point that is drawn after `before`: one challenge per variable, after
/// the shift and the number of variables are absorbed.
pub open spec fn drawn_after<C>(
    mo: Model<C>,
    before: Seq<Event<C>>,
    k: int,
    num_vars: nat,
    r: Seq<int>,
    m: int,
) -> bool {
    &&& r.len() == num_vars
    &&& forall|j: int|
        0 <= j < num_vars ==> #[trigger] r[j] == (mo.challenge)(
            before + header(k, num_vars, m) + trace::squeezes(j as nat),
        )
}

/// The events of a proof until the sum-check: the header, the draw of the point, and the two
/// values at it.
pub open spec fn opening<C>(k: int, num_vars: nat, y: int, z: int, m: int) -> Seq<Event<C>> {
    header(k, num_vars, m) + trace::squeezes(num_vars) + trace::fields(seq![y, z])
}

/// The sum over the hypercube of `eq(i, u) * eq((i - k) mod 2^n, r)`: the value at `u` of the
/// extension of the weights.
pub open spec fn weight_at(k: int, r: Seq<int>, u: Seq<int>) -> int {
    sum::sum_to(
        |i: int| hypercube::eq_at(i, u) * hypercube::eq_at((i - k) % (pow2(r.len()) as int), r),
        pow2(r.len()),
    )
}

/// The value at `r` of the extension of `x -> f((x + k) mod 2^n)`: the sum over the hypercube of
/// `f((x + k) mod 2^n) * eq(x, r)`.
pub open spec fn shifted_value(f: Seq<int>, k: int, r: Seq<int>) -> int {
    sum::sum_to(
        |x: int| f[(x + k) % (pow2(r.len()) as int)] * hypercube::eq_at(x, r),
        pow2(r.len()),
    )
}

/// The extension of the weights is their weighted sum.
proof fn lemma_weight_at(k: int, r: Seq<int>, u: Seq<int>)
    ensures
        hypercube::mle(hypercube::weights(k, r), u) == weight_at(k, r, u),
{
    let n = pow2(r.len());
    let ws = hypercube::weights(k, r);
    let f = |i: int| ws[i] * hypercube::eq_at(i, u);
    let g = |i: int| hypercube::eq_at(i, u) * hypercube::eq_at((i - k) % (n as int), r);
    assert forall|i: int| 0 <= i < n implies #[trigger] f(i) == g(i) by {
        let a = hypercube::eq_at((i - k) % (n as int), r);
        let b = hypercube::eq_at(i, u);
        assert(a * b == b * a) by (nonlinear_arith);
    }
    sum::lemma_sum_eq(f, g, n);
}

/// The extension of the shifted function is its weighted sum.
proof fn lemma_shifted_value(f: Seq<int>, k: int, r: Seq<int>)
    requires
        f.len() == pow2(r.len()),
    ensures
        hypercube::mle(hypercube::shift(f, k), r) == shifted_value(f, k, r),
{
    let n = pow2(r.len());
    let g = hypercube::shift(f, k);
    let a = |i: int| g[i] * hypercube::eq_at(i, r);
    let b = |x: int| f[(x + k) % (n as int)] * hypercube::eq_at(x, r);
    assert forall|i: int| 0 <= i < n implies #[trigger] a(i) == b(i) by {}
    sum::lemma_sum_eq(a, b, n);
}

/// The point is drawn after the shift and the number of variables are absorbed.
proof fn lemma_point_is_drawn<C>(mo: Model<C>, st: State<C>, k: int, num_vars: nat, m: int)
    ensures
        shift_open::draw_point(mo, st, k, num_vars, m) matches Ok((r, s)) ==> {
            &&& drawn_after(mo, st.events, k, num_vars, r, m)
            &&& s.events == st.events + header(k, num_vars, m) + trace::squeezes(num_vars)
            &&& s.proof == st.proof
        },
{
    if let Ok((r, s)) = shift_open::draw_point(mo, st, k, num_vars, m) {
        let absorbed = shift_open::absorb_header(mo, st, k, num_vars as int, m)->Ok_0;
        trace::law_challenges_are_drawn_in_turn(mo, absorbed, num_vars);
        assert(absorbed.events =~= st.events + header(k, num_vars, m));
    }
}

/// Two elements that are written are spelled one after the other.
proof fn lemma_two_spelled<C>(mo: Model<C>, st: State<C>, y: int, z: int)
    requires
        transcript::write_fields(mo, st, seq![y, z]) is Ok,
    ensures
        transcript::write_fields(mo, st, seq![y, z])->Ok_0.proof == st.proof + (mo.spell)(
            Item::Field(y),
        ) + (mo.spell)(Item::Field(z)),
{
    reveal_with_fuel(transcript::write_fields, 3);
    assert(seq![y, z].drop_last() =~= seq![y]);
    assert(seq![y].drop_last() =~= Seq::empty());
}

/// What an accepted shift-open proof shows. The point `r` is drawn after the shift and the
/// number of variables are absorbed, and the claimed values `y` and `z` are read after that.
/// Messages of a sum-check, all of which fit, lead from `z` to the product of the last two
/// values `f_u` and `w_u`. The second of these is the extension at the challenges `u` of the
/// weights `i -> eq((i - k) mod 2^n, r)`, and the first is accepted by the commitment scheme as
/// the value of the committed polynomial at `u`.
pub open spec fn shows<F: PrimeField, Pcs: PolynomialCommitmentScheme<F>>(
    vp: Pcs::VerifierParam,
    comm: Pcs::Commitment,
    num_vars: nat,
    k: int,
    mo: Model<Pcs::CommitmentChunk>,
    st: State<Pcs::CommitmentChunk>,
    y: int,
    z: int,
    r: Seq<int>,
    u: Seq<int>,
    f_u: int,
    w_u: int,
    s: State<Pcs::CommitmentChunk>,
) -> bool {
    let m = F::modulus();
    &&& drawn_after(mo, st.events, k, num_vars, r, m)
    &&& w_u == weight_at(k, r, u) % m
    &&& exists|
        b: State<Pcs::CommitmentChunk>,
        t: State<Pcs::CommitmentChunk>,
        v: State<Pcs::CommitmentChunk>,
        msgs: Seq<Seq<int>>,
        left: Seq<int>,
    |
        {
            &&& b.events == st.events + opening(k, num_vars, y, z, m)
            &&& #[trigger] acceptance::rounds_happened(mo, b, msgs, u, t)
            &&& msgs.len() == num_vars
            &&& #[trigger] acceptance::rounds_fit(Form::Evaluations, msgs, u, left, m)
            &&& left[0] == z
            &&& left.last() == (f_u * w_u) % m
            &&& v.events == t.events + trace::fields(seq![f_u, w_u])
            &&& #[trigger] Pcs::verify_spec(vp, comm, u, f_u, mo, v) == Ok::<
                State<Pcs::CommitmentChunk>,
                transcript::Halt<Pcs::CommitmentChunk>,
            >(s)
        }
}

/// Whenever a shift-open proof is accepted, the last value read before the commitment scheme's
/// own proof is the extension of the weights at the challenges; and the values, messages and
/// challenges are those that [`shows`] says.
pub proof fn law_accepted_proof_shows<F: PrimeField, Pcs: PolynomialCommitmentScheme<F>>(
    vp: Pcs::VerifierParam,
    comm: Pcs::Commitment,
    num_vars: nat,
    k: int,
    mo: Model<Pcs::CommitmentChunk>,
    st: State<Pcs::CommitmentChunk>,
)
    ensures
        shift_open::verify_shift_open_spec::<F, Pcs>(vp, comm, num_vars, k, mo, st) matches Ok(
            (y, z, s),
        ) ==> num_vars > 0 && exists|r: Seq<int>, u: Seq<int>, f_u: int, w_u: int| #[trigger]
            shows::<F, Pcs>(vp, comm, num_vars, k, mo, st, y, z, r, u, f_u, w_u, s),
{
    let m = F::modulus();
    F::modulus_is_odd();
    if let Ok((y, z, s)) = shift_open::verify_shift_open_spec::<F, Pcs>(
        vp,
        comm,
        num_vars,
        k,
        mo,
        st,
    ) {
        lemma_point_is_drawn(mo, st, k, num_vars, m);
        let (r, drawn) = shift_open::draw_point(mo, st, k, num_vars, m)->Ok_0;
        trace::law_read_fields_are_absorbed(mo, drawn, 2);
        let (ys, b) = transcript::read_fields(mo, drawn, 2)->Ok_0;
        assert(ys =~= seq![y, z]);
        assert(b.events =~= st.events + opening(k, num_vars, y, z, m));
        acceptance::law_accepted_rounds(Form::Evaluations, mo, b, z, num_vars, m);
        let (t, at_u, u) = sum_check::verify_rounds(Form::Evaluations, mo, b, z, num_vars, m)->Ok_0;
        let (msgs, left) = choose|msgs: Seq<Seq<int>>, left: Seq<int>|
            msgs.len() == num_vars && #[trigger] acceptance::rounds_fit(
                Form::Evaluations,
                msgs,
                u,
                left,
                m,
            ) && acceptance::rounds_happened(mo, b, msgs, u, t) && left[0] == z && left.last()
                == at_u;
        trace::law_read_fields_are_absorbed(mo, t, 2);
        let (ends, v) = transcript::read_fields(mo, t, 2)->Ok_0;
        assert(ends =~= seq![ends[0], ends[1]]);
        lemma_weight_at(k, r, u);
        assert(acceptance::rounds_happened(mo, b, msgs, u, t));
        assert(Pcs::verify_spec(vp, comm, u, ends[0], mo, v) == Ok::<
            State<Pcs::CommitmentChunk>,
            transcript::Halt<Pcs::CommitmentChunk>,
        >(s));
        assert(shows::<F, Pcs>(
            vp,
            comm,
            num_vars,
            k,
            mo,
            st,
            y,
            z,
            r,
            u,
            ends[0],
            ends[1],
            s,
        ));
    }
}

/// What the prover says. The point `r` is drawn after the shift and the number of variables are
/// absorbed. The next two values are those at `r` of the extensions of `f` and of
/// `x -> f((x + k) mod 2^n)`. After the rounds of the sum-check come the values at the
/// challenges `u` of the extensions of `f` and of the weights, and the commitment scheme opens
/// `f` at `u`.
pub open spec fn says<F: PrimeField, Pcs: PolynomialCommitmentScheme<F>>(
    pp: Pcs::ProverParam,
    evals: Seq<int>,
    comm: Pcs::Commitment,
    num_vars: nat,
    k: int,
    mo: Model<Pcs::CommitmentChunk>,
    st: State<Pcs::CommitmentChunk>,
    r: Seq<int>,
    u: Seq<int>,
    s: State<Pcs::CommitmentChunk>,
) -> bool {
    let m = F::modulus();
    let y = hypercube::mle(evals, r) % m;
    let z = shifted_value(evals, k, r) % m;
    let f_u = hypercube::mle(evals, u) % m;
    let w_u = weight_at(k, r, u) % m;
    &&& drawn_after(mo, st.events, k, num_vars, r, m)
    &&& exists|
        b: State<Pcs::CommitmentChunk>,
        t: State<Pcs::CommitmentChunk>,
        v: State<Pcs::CommitmentChunk>,
        msgs: Seq<Seq<int>>,
    |
        {
            &&& b.events == st.events + opening(k, num_vars, y, z, m)
            &&& b.proof == st.proof + (mo.spell)(Item::Field(y)) + (mo.spell)(Item::Field(z))
            &&& #[trigger] acceptance::rounds_happened(mo, b, msgs, u, t)
            &&& msgs.len() == num_vars
            &&& v.events == t.events + trace::fields(seq![f_u, w_u])
            &&& transcript::starts_with(v.proof, b)
            &&& #[trigger] Pcs::open_spec(pp, evals, comm, u, f_u, mo, v) == Ok::<
                State<Pcs::CommitmentChunk>,
                transcript::Halt<Pcs::CommitmentChunk>,
            >(s)
        }
}

/// A shift-open proof that is written holds, as its second value, the extension at the drawn
/// point of the function shifted by `k`; and the values, messages and challenges are those that
/// [`says`] says.
pub proof fn law_written_proof_says<F: PrimeField, Pcs: PolynomialCommitmentScheme<F>>(
    pp: Pcs::ProverParam,
    evals: Seq<int>,
    comm: Pcs::Commitment,
    num_vars: nat,
    k: int,
    mo: Model<Pcs::CommitmentChunk>,
    st: State<Pcs::CommitmentChunk>,
)
    requires
        evals.len() == pow2(num_vars),
    ensures
        shift_open::prove_shift_open_spec::<F, Pcs>(
            pp,
            evals,
            comm,
            num_vars,
            k,
            mo,
            st,
        ) matches Ok(s) ==> num_vars > 0 && exists|r: Seq<int>, u: Seq<int>| #[trigger]
            says::<F, Pcs>(pp, evals, comm, num_vars, k, mo, st, r, u, s),
{
    let m = F::modulus();
    if let Ok(s) = shift_open::prove_shift_open_spec::<F, Pcs>(
        pp,
        evals,
        comm,
        num_vars,
        k,
        mo,
        st,
    ) {
        lemma_point_is_drawn(mo, st, k, num_vars, m);
        let (r, drawn) = shift_open::draw_point(mo, st, k, num_vars, m)->Ok_0;
        let ys = shift_open::claimed_values(evals, k, r, m);
        lemma_shifted_value(evals, k, r);
        trace::law_written_fields_are_absorbed(mo, drawn, ys);
        let b = transcript::write_fields(mo, drawn, ys)->Ok_0;
        let z = shifted_value(evals, k, r) % m;
        assert(ys =~= seq![hypercube::mle(evals, r) % m, z]);
        assert(b.events =~= st.events + opening(k, num_vars, ys[0], z, m));
        lemma_two_spelled(mo, drawn, ys[0], z);
        let ts = shift_open::shift_products(evals, k, r, m);
        acceptance::law_sent_rounds(Form::Evaluations, mo, b, ts, z, num_vars, m);
        let p = sum_check::prove_rounds(Form::Evaluations, mo, b, ts, z, num_vars, m)->Ok_0;
        let (t, u) = (p.state, p.challenges);
        let msgs = choose|msgs: Seq<Seq<int>>|
            msgs.len() == num_vars && #[trigger] acceptance::rounds_happened(mo, b, msgs, u, t);
        let ends = shift_open::final_values(evals, k, r, u, m);
        lemma_weight_at(k, r, u);
        trace::law_written_fields_are_absorbed(mo, t, ends);
        let v = transcript::write_fields(mo, t, ends)->Ok_0;
        assert(ends =~= seq![hypercube::mle(evals, u) % m, weight_at(k, r, u) % m]);
        sum_check::lemma_prove_rounds_appends(Form::Evaluations, mo, b, ts, z, num_vars, m);
        transcript::lemma_write_fields_appends(mo, t, ends);
        transcript::lemma_starts_trans(v.proof, b, t);
        assert(acceptance::rounds_happened(mo, b, msgs, u, t));
        assert(Pcs::open_spec(pp, evals, comm, u, ends[0], mo, v) == Ok::<
            State<Pcs::CommitmentChunk>,
            transcript::Halt<Pcs::CommitmentChunk>,
        >(s));
        assert(says::<F, Pcs>(pp, evals, comm, num_vars, k, mo, st, r, u, s));
    }
}

/// A proof whose last two values are not a product for what the sum-check leaves, or whose
/// claimed weight is not the extension of the weights at the challenges, is refused.
pub proof fn law_wrong_last_values_are_refused<F: PrimeField, Pcs: PolynomialCommitmentScheme<F>>(
    vp: Pcs::VerifierParam,
    comm: Pcs::Commitment,
    num_vars: nat,
    k: int,
    mo: Model<Pcs::CommitmentChunk>,
    st: State<Pcs::CommitmentChunk>,
    r: Seq<int>,
    u: Seq<int>,
    y: int,
    z: int,
    f_u: int,
    w_u: int,
    left: int,
    drawn: State<Pcs::CommitmentChunk>,
    b: State<Pcs::CommitmentChunk>,
    t: State<Pcs::CommitmentChunk>,
    v: State<Pcs::CommitmentChunk>,
)
    requires
        num_vars > 0,
        shift_open::draw_point(mo, st, k, num_vars, F::modulus()) == Ok::<
            _,
            transcript::Halt<Pcs::CommitmentChunk>,
        >((r, drawn)),
        transcript::read_fields(mo, drawn, 2) == Ok::<_, transcript::Halt<Pcs::CommitmentChunk>>(
            (seq![y, z], b),
        ),
        sum_check::verify_rounds(Form::Evaluations, mo, b, z, num_vars, F::modulus()) == Ok::<
            _,
            transcript::Halt<Pcs::CommitmentChunk>,
        >((t, left, u)),
        transcript::read_fields(mo, t, 2) == Ok::<_, transcript::Halt<Pcs::CommitmentChunk>>(
            (seq![f_u, w_u], v),
        ),
        (f_u * w_u) % F::modulus() != left || w_u != weight_at(k, r, u) % F::modulus(),
    ensures
        shift_open::verify_shift_open_spec::<F, Pcs>(vp, comm, num_vars, k, mo, st) matches Err(h)
            && h.state == v && h.error == ErrorView::InvalidSumcheck(
            if (f_u * w_u) % F::modulus() != left {
                "Final evaluation check failed: f(u) * w(u) != claimed"@
            } else {
                "Weight evaluation mismatch: claimed w(u) != computed w(u)"@
            },
        ),
{
    lemma_weight_at(k, r, u);
}

/// Without variables there is nothing to shift: prover and verifier refuse before anything
/// happens.
pub proof fn law_no_variables_are_refused<F: PrimeField, Pcs: PolynomialCommitmentScheme<F>>(
    pp: Pcs::ProverParam,
    vp: Pcs::VerifierParam,
    evals: Seq<int>,
    comm: Pcs::Commitment,
    k: int,
    mo: Model<Pcs::CommitmentChunk>,
    st: State<Pcs::CommitmentChunk>,
)
    ensures
        shift_open::prove_shift_open_spec::<F, Pcs>(pp, evals, comm, 0, k, mo, st) matches Err(h)
            && h.state == st && h.error == ErrorView::InvalidPcsParam(
            "Polynomial must have at least 1 variable"@,
        ),
        shift_open::verify_shift_open_spec::<F, Pcs>(vp, comm, 0, k, mo, st) matches Err(h)
            && h.state == st && h.error == ErrorView::InvalidPcsParam(
            "Polynomial must have at least 1 variable"@,
        ),
{
}

/// The sum that the sum-check is run on is the value of the shifted extension at `r`, and its
/// value at `u` is the product of both extensions there.
proof fn lemma_shift_sum(f: Seq<int>, k: int, r: Seq<int>, u: Seq<int>, m: int)
    requires
        m > 0,
        f.len() == pow2(r.len()),
        u.len() == r.len(),
    ensures
        ({
            let ts = shift_open::shift_products(f, k, r, m);
            &&& sum_check::of_size(ts, r.len())
            &&& modular::cong(sum_check::claim(ts), shifted_value(f, k, r), m)
            &&& modular::cong(
                sum_check::value_at(ts, u),
                (hypercube::mle(f, u) % m) * (weight_at(k, r, u) % m),
                m,
            )
        }),
{
    let ts = shift_open::shift_products(f, k, r, m);
    let w = hypercube::weights(k, r);
    let reduced = modular::reduce_seq(w, m);
    assert(ts.drop_last() =~= Seq::empty());
    reveal_with_fuel(sum_check::claim, 2);
    reveal_with_fuel(sum_check::value_at, 2);
    let d = sum::dot(f, reduced);
    assert(1 * d == d);
    sum_check::lemma_reduced_cong(w, m);
    assert(modular::cong_seq(f, f, m));
    sum::lemma_dot_cong(f, reduced, f, w, m);
    hypercube::law_shift_is_weighted_sum(f, k, r);
    lemma_shifted_value(f, k, r);
    assert(modular::cong_seq(u, u, m));
    hypercube::lemma_mle_cong(reduced, w, u, u, m);
    lemma_weight_at(k, r, u);
    let a = hypercube::mle(f, u);
    let b = hypercube::mle(reduced, u);
    let c = weight_at(k, r, u);
    modular::lemma_cong_reduced(a, m);
    modular::lemma_cong_reduced(c, m);
    modular::lemma_cong_mul(a % m, a, c % m, b, m);
    let p = a * b;
    assert(1 * p == p);
}

/// Soundness: if a proof is accepted whose value at `u` is that of the extension of `f`, but
/// whose claimed shifted value is not that of `x -> f((x + k) mod 2^n)` at `r`, then in some
/// round of its sum-check a wrong message passed by chance.
pub proof fn law_wrong_shifted_values_pass_by_chance_only<
    F: PrimeField,
    Pcs: PolynomialCommitmentScheme<F>,
>(
    vp: Pcs::VerifierParam,
    comm: Pcs::Commitment,
    f: Seq<int>,
    num_vars: nat,
    k: int,
    mo: Model<Pcs::CommitmentChunk>,
    st: State<Pcs::CommitmentChunk>,
    y: int,
    z: int,
    r: Seq<int>,
    u: Seq<int>,
    f_u: int,
    w_u: int,
    s: State<Pcs::CommitmentChunk>,
)
    requires
        shows::<F, Pcs>(vp, comm, num_vars, k, mo, st, y, z, r, u, f_u, w_u, s),
        f.len() == pow2(num_vars),
        f_u == hypercube::mle(f, u) % F::modulus(),
        z != shifted_value(f, k, r) % F::modulus(),
    ensures
        exists|
            b: State<Pcs::CommitmentChunk>,
            t: State<Pcs::CommitmentChunk>,
            msgs: Seq<Seq<int>>,
            j: int,
        |
            {
                &&& b.events == st.events + opening(k, num_vars, y, z, F::modulus())
                &&& #[trigger] acceptance::rounds_happened(mo, b, msgs, u, t)
                &&& 0 <= j < msgs.len()
                &&& soundness::passes_by_chance(
                    Form::Evaluations,
                    soundness::folded(
                        shift_open::shift_products(f, k, r, F::modulus()),
                        u.take(j),
                        F::modulus(),
                    ),
                    #[trigger] msgs[j],
                    u[j],
                    F::modulus(),
                )
            },
{
    let m = F::modulus();
    F::modulus_is_odd();
    let (b, t, v, msgs, left) = choose|
        b: State<Pcs::CommitmentChunk>,
        t: State<Pcs::CommitmentChunk>,
        v: State<Pcs::CommitmentChunk>,
        msgs: Seq<Seq<int>>,
        left: Seq<int>,
    |
        {
            &&& b.events == st.events + opening(k, num_vars, y, z, m)
            &&& #[trigger] acceptance::rounds_happened(mo, b, msgs, u, t)
            &&& msgs.len() == num_vars
            &&& #[trigger] acceptance::rounds_fit(Form::Evaluations, msgs, u, left, m)
            &&& left[0] == z
            &&& left.last() == (f_u * w_u) % m
            &&& v.events == t.events + trace::fields(seq![f_u, w_u])
            &&& #[trigger] Pcs::verify_spec(vp, comm, u, f_u, mo, v) == Ok::<
                State<Pcs::CommitmentChunk>,
                transcript::Halt<Pcs::CommitmentChunk>,
            >(s)
        };
    let ts = shift_open::shift_products(f, k, r, m);
    lemma_shift_sum(f, k, r, u, m);
    soundness::law_wrong_sums_pass_by_chance_only(Form::Evaluations, ts, msgs, u, left, m);
    let j = choose|j: int|
        0 <= j < msgs.len() && soundness::passes_by_chance(
            Form::Evaluations,
            soundness::folded(ts, u.take(j), m),
            #[trigger] msgs[j],
            u[j],
            m,
        );
    assert(acceptance::rounds_happened(mo, b, msgs, u, t));
    assert(soundness::passes_by_chance(
        Form::Evaluations,
        soundness::folded(ts, u.take(j), m),
        msgs[j],
        u[j],
        m,
    ));
}

} // verus!
