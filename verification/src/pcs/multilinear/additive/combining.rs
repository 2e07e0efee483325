//! How claims are combined, and what an accepted combination shows.

use crate::pcs::multilinear as claims;
use crate::pcs::multilinear::additive;
use crate::pcs::multilinear::additive::laws;
use crate::pcs::{Additive, EvaluationView, PolynomialCommitmentScheme, ShiftEvaluationView};
use crate::piop::sum_check;
use crate::piop::sum_check::acceptance;
use crate::piop::sum_check::Form;
use crate::poly::hypercube;
use crate::util::field::PrimeField;
use crate::util::integer;
use crate::util::modular;
use crate::util::sum;
use crate::util::transcript;
use crate::util::transcript::trace;
use crate::util::transcript::{Halt, Model, State};
use crate::ErrorView;
use vstd::arithmetic::power2;
use vstd::arithmetic::power2::pow2;
use vstd::prelude::*;

verus! {

/// `values` as a function on `{0, 1}^n`, zero beyond their end.
pub open spec fn padded(values: Seq<int>, n: nat) -> Seq<int> {
    Seq::new(
        pow2(n),
        |i: int|
            if i < values.len() {
                values[i]
            } else {
                0
            },
    )
}

/// The factor of a claim is one if the challenges are the corner of its index, and zero if
/// they are another corner.
pub proof fn law_factors_on_corners(i: int, j: int, n: nat, m: int)
    requires
        m > 1,
        0 <= i < pow2(n),
        0 <= j < pow2(n),
    ensures
        additive::factor(hypercube::corner(j, n), i, m) == if i == j {
            1int
        } else {
            0
        },
{
    hypercube::law_eq_on_corners(i, j, n);
    modular::lemma_small(0, m);
    modular::lemma_small(1, m);
}

/// The factor of a claim is affine in every challenge, modulo `m`. Together with its values on
/// the corners, this determines it.
pub proof fn law_factors_are_affine(i: int, t: Seq<int>, j: int, a: int, m: int)
    requires
        m > 0,
        0 <= j < t.len(),
    ensures
        additive::factor(t.update(j, a), i, m) == ((1 - a) * additive::factor(t.update(j, 0), i, m)
            + a * additive::factor(t.update(j, 1), i, m)) % m,
{
    hypercube::law_eq_is_affine(i, t, j, a);
    let e0 = hypercube::eq_at(i, t.update(j, 0));
    let e1 = hypercube::eq_at(i, t.update(j, 1));
    modular::lemma_cong_reduced(e0, m);
    modular::lemma_cong_reduced(e1, m);
    modular::lemma_cong_mul(1 - a, 1 - a, e0 % m, e0, m);
    modular::lemma_cong_mul(a, a, e1 % m, e1, m);
    modular::lemma_cong_add((1 - a) * (e0 % m), (1 - a) * e0, a * (e1 % m), a * e1, m);
}

/// The combined value is the extension of the claimed values at the challenges.
pub proof fn law_combined_value_is_an_extension(values: Seq<int>, t: Seq<int>, m: int)
    requires
        m > 0,
        values.len() <= pow2(t.len()),
    ensures
        additive::weighted_value(values, additive::factors(t, values.len(), m), m)
            == hypercube::mle(padded(values, t.len()), t) % m,
{
    let n = values.len();
    let size = pow2(t.len());
    let all = padded(values, t.len());
    let fs = additive::factors(t, n, m);
    let f = |i: int| values[i] * fs[i];
    let g = |i: int| all[i] * hypercube::eq_at(i, t);
    assert forall|i: int| 0 <= i < n implies modular::cong(#[trigger] f(i), g(i), m) by {
        let e = hypercube::eq_at(i, t);
        modular::lemma_cong_reduced(e, m);
        modular::lemma_cong_mul(values[i], values[i], e % m, e, m);
    }
    sum::lemma_sum_cong(f, g, n, m);
    let h = |i: int| g(n + i);
    let rest = (size - n) as nat;
    sum::lemma_sum_split(g, h, n, rest);
    assert forall|i: int| 0 <= i < rest implies #[trigger] h(i) == 0 by {
        let e = hypercube::eq_at(n + i, t);
        assert(0 * e == 0);
    }
    sum::lemma_sum_zero(h, rest);
}

/// At the corner of its index a claimed value is the combined value. So claimed values that
/// differ anywhere are combined to different values at some challenges.
pub proof fn law_claimed_values_are_told_apart(a: Seq<int>, b: Seq<int>, i: int, n: nat, m: int)
    requires
        m > 0,
        a.len() == b.len(),
        0 <= i < a.len() <= pow2(n),
        a[i] % m != b[i] % m,
    ensures
        ({
            let t = hypercube::corner(i, n);
            let fs = additive::factors(t, a.len(), m);
            &&& additive::weighted_value(a, fs, m) == a[i] % m
            &&& additive::weighted_value(b, fs, m) == b[i] % m
        }),
        exists|t: Seq<int>|
            t.len() == n && #[trigger] additive::weighted_value(
                a,
                additive::factors(t, a.len(), m),
                m,
            ) != additive::weighted_value(b, additive::factors(t, a.len(), m), m),
{
    let t = hypercube::corner(i, n);
    law_combined_value_is_an_extension(a, t, m);
    law_combined_value_is_an_extension(b, t, m);
    hypercube::law_extension_extends(padded(a, n), i, n);
    hypercube::law_extension_extends(padded(b, n), i, n);
    assert(additive::weighted_value(a, additive::factors(t, a.len(), m), m)
        != additive::weighted_value(b, additive::factors(t, a.len(), m), m));
}

/// The combined polynomial takes at every place the extension, at the challenges, of the values
/// of the picked polynomials there.
pub proof fn law_combined_polynomial_is_an_extension(
    polys: Seq<Seq<int>>,
    picks: Seq<int>,
    t: Seq<int>,
    size: nat,
    m: int,
    b: int,
)
    requires
        m > 0,
        picks.len() <= pow2(t.len()),
        0 <= b < size,
    ensures
        additive::weighted(polys, picks, additive::factors(t, picks.len(), m), size, m)[b]
            == hypercube::mle(
            padded(Seq::new(picks.len(), |i: int| polys[picks[i]][b]), t.len()),
            t,
        ) % m,
{
    let n = picks.len();
    let there = Seq::new(n, |i: int| polys[picks[i]][b]);
    let fs = additive::factors(t, n, m);
    law_combined_value_is_an_extension(there, t, m);
    let f = |i: int| fs[i] * polys[picks[i]][b];
    let g = |i: int| there[i] * fs[i];
    assert forall|i: int| 0 <= i < n implies #[trigger] f(i) == g(i) by {
        let x = fs[i];
        let y = there[i];
        assert(x * y == y * x) by (nonlinear_arith);
    }
    sum::lemma_sum_eq(f, g, n);
}

/// Enough challenges are drawn: every claim has a corner of its own.
pub proof fn law_enough_challenges_are_drawn<C>(mo: Model<C>, st: State<C>, n: nat)
    ensures
        ({
            let (t, s) = additive::draw_factors(mo, st, n);
            &&& n <= pow2(t.len())
            &&& t.len() > 0 ==> pow2((t.len() - 1) as nat) < n
            &&& forall|j: int|
                0 <= j < t.len() ==> #[trigger] t[j] == (mo.challenge)(
                    st.events + trace::squeezes(j as nat),
                )
            &&& s.events == st.events + trace::squeezes(t.len())
        }),
        n <= pow2(additive::group_draws(n)),
{
    let len = integer::ceil_log2(n);
    trace::law_challenges_are_drawn_in_turn(mo, st, len);
    power2::lemma2_to64();
    integer::lemma_ceil_log2(n);
    if len > 0 {
        power2::lemma_pow2_unfold(len);
    }
}

/// The claims of a rotation are those that state it, in their order.
pub proof fn law_claims_are_selected(evals: Seq<ShiftEvaluationView>, rotation: int)
    ensures
        additive::claims_at(evals, rotation) == evals.filter(
            |e: ShiftEvaluationView| e.rotation == rotation,
        ),
    decreases evals.len(),
{
    reveal(Seq::filter);
    if evals.len() > 0 {
        law_claims_are_selected(evals.drop_last(), rotation);
    }
}

/// Whether claims are combined by the challenges `t`, drawn after `before`, of which there are
/// enough.
pub open spec fn combined_by<C>(
    mo: Model<C>,
    before: State<C>,
    n: nat,
    t: Seq<int>,
    after: State<C>,
) -> bool {
    &&& n <= pow2(t.len())
    &&& after.events == before.events + trace::squeezes(t.len())
    &&& after.proof == before.proof
    &&& forall|j: int|
        0 <= j < t.len() ==> #[trigger] t[j] == (mo.challenge)(
            before.events + trace::squeezes(j as nat),
        )
}

/// What an accepted common opening shows. The challenges `t` are drawn first. The messages of a
/// sum-check, all of which fit, lead from the extension of the claimed values at `t` to a value
/// that the commitment scheme accepts at the challenges `u`. The commitment that it is accepted
/// for combines those that the claims are about, each with the factor `eq(u, point)` of its
/// claim's point times the factor `eq(i, t)` of its claim.
pub open spec fn batch_shows<F: PrimeField, Pcs: PolynomialCommitmentScheme<F>>(
    vp: Pcs::VerifierParam,
    num_vars: nat,
    comms: Seq<Pcs::Commitment>,
    points: Seq<Seq<int>>,
    evals: Seq<EvaluationView>,
    mo: Model<Pcs::CommitmentChunk>,
    st: State<Pcs::CommitmentChunk>,
    t: Seq<int>,
    u: Seq<int>,
    scalars: Seq<int>,
    s: State<Pcs::CommitmentChunk>,
) -> bool where Pcs::Commitment: Additive<F> {
    let m = F::modulus();
    let n = evals.len();
    &&& scalars.len() == n
    &&& forall|i: int|
        0 <= i < n ==> #[trigger] scalars[i] == (hypercube::mle(
            hypercube::tensor(points[evals[i].point]),
            u,
        ) * hypercube::eq_at(i, t)) % m
    &&& exists|
        drawn: State<Pcs::CommitmentChunk>,
        r: State<Pcs::CommitmentChunk>,
        msgs: Seq<Seq<int>>,
        left: Seq<int>,
    |
        {
            &&& combined_by(mo, st, n, t, drawn)
            &&& #[trigger] acceptance::rounds_happened(mo, drawn, msgs, u, r)
            &&& msgs.len() == num_vars
            &&& #[trigger] acceptance::rounds_fit(Form::Coefficients, msgs, u, left, m)
            &&& left[0] == hypercube::mle(
                padded(Seq::new(n, |i: int| evals[i].value), t.len()),
                t,
            ) % m
            &&& Pcs::verify_spec(
                vp,
                Pcs::Commitment::msm_spec(scalars, Seq::new(n, |i: int| comms[evals[i].poly])),
                u,
                left.last(),
                mo,
                r,
            ) == Ok::<State<Pcs::CommitmentChunk>, Halt<Pcs::CommitmentChunk>>(s)
        }
}

/// Whatever prover the proof is from, an accepted common opening shows what [`batch_shows`]
/// says.
pub proof fn law_accepted_batch_shows<F: PrimeField, Pcs: PolynomialCommitmentScheme<F>>(
    vp: Pcs::VerifierParam,
    num_vars: nat,
    comms: Seq<Pcs::Commitment>,
    points: Seq<Seq<int>>,
    evals: Seq<EvaluationView>,
    mo: Model<Pcs::CommitmentChunk>,
    st: State<Pcs::CommitmentChunk>,
) where Pcs::Commitment: Additive<F>
    requires
        forall|i: int|
            0 <= i < evals.len() ==> points[(#[trigger] evals[i]).point].len() == num_vars && 0
                <= evals[i].point < points.len(),
    ensures
        additive::batch_verify_spec::<F, Pcs>(
            vp,
            num_vars,
            comms,
            points,
            evals,
            mo,
            st,
        ) matches Ok(s) ==> exists|t: Seq<int>, u: Seq<int>, scalars: Seq<int>| #[trigger]
            batch_shows::<F, Pcs>(
                vp,
                num_vars,
                comms,
                points,
                evals,
                mo,
                st,
                t,
                u,
                scalars,
                s,
            ),
{
    let m = F::modulus();
    F::modulus_is_odd();
    let n = evals.len();
    if let Ok(s) = additive::batch_verify_spec::<F, Pcs>(
        vp,
        num_vars,
        comms,
        points,
        evals,
        mo,
        st,
    ) {
        let (t, drawn) = additive::draw_factors(mo, st, n);
        law_enough_challenges_are_drawn(mo, st, n);
        trace::law_challenges_are_drawn_in_turn(mo, st, integer::ceil_log2(n));
        let values = additive::values_of(evals);
        assert(values =~= Seq::new(n, |i: int| evals[i].value));
        law_combined_value_is_an_extension(values, t, m);
        let total = additive::weighted_value(values, additive::factors(t, n, m), m);
        acceptance::law_accepted_rounds(Form::Coefficients, mo, drawn, total, num_vars, m);
        let (r, at_u, u) = sum_check::verify_rounds(
            Form::Coefficients,
            mo,
            drawn,
            total,
            num_vars,
            m,
        )->Ok_0;
        let (msgs, left) = choose|msgs: Seq<Seq<int>>, left: Seq<int>|
            msgs.len() == num_vars && #[trigger] acceptance::rounds_fit(
                Form::Coefficients,
                msgs,
                u,
                left,
                m,
            ) && acceptance::rounds_happened(mo, drawn, msgs, u, r) && left[0] == total
                && left.last() == at_u;
        let scalars = additive::comm_factors(points, evals, t, u, m);
        assert forall|i: int| 0 <= i < n implies #[trigger] scalars[i] == (hypercube::mle(
            hypercube::tensor(points[evals[i].point]),
            u,
        ) * hypercube::eq_at(i, t)) % m by {
            let p = points[evals[i].point];
            assert(p.len() == num_vars);
            laws::law_eq_extension(u, p);
            let a = additive::eq_points(u, p);
            let e = hypercube::eq_at(i, t);
            modular::lemma_cong_reduced(a, m);
            modular::lemma_cong_reduced(e, m);
            modular::lemma_cong_mul(a % m, a, e % m, e, m);
        }
        assert(additive::picked_comms(comms, additive::picked(evals)) =~= Seq::new(
            n,
            |i: int| comms[evals[i].poly],
        ));
        assert(acceptance::rounds_happened(mo, drawn, msgs, u, r));
        assert(combined_by(mo, st, n, t, drawn));
        assert(batch_shows::<F, Pcs>(
            vp,
            num_vars,
            comms,
            points,
            evals,
            mo,
            st,
            t,
            u,
            scalars,
            s,
        ));
    }
}

/// What an accepted group of claims shows: the commitment scheme accepts, as the value of the
/// rotated polynomial, the extension of the values that the claims of the rotation state at
/// challenges drawn for them, for the combination of their commitments with the factors
/// `eq(j, t)`.
pub open spec fn group_shows<F: PrimeField, Pcs: PolynomialCommitmentScheme<F>>(
    vp: Pcs::VerifierParam,
    comms: Seq<Pcs::Commitment>,
    point: Seq<int>,
    evals: Seq<ShiftEvaluationView>,
    rotation: int,
    mo: Model<Pcs::CommitmentChunk>,
    st: State<Pcs::CommitmentChunk>,
    s: State<Pcs::CommitmentChunk>,
) -> bool where Pcs::Commitment: Additive<F> {
    let m = F::modulus();
    let group = evals.filter(|e: ShiftEvaluationView| e.rotation == rotation);
    let n = group.len();
    exists|t: Seq<int>, drawn: State<Pcs::CommitmentChunk>|
        {
            &&& #[trigger] combined_by(mo, st, n, t, drawn)
            &&& Pcs::verify_shifted_evaluation_spec(
                vp,
                Pcs::Commitment::msm_spec(
                    Seq::new(n, |j: int| hypercube::eq_at(j, t) % m),
                    Seq::new(n, |j: int| comms[group[j].poly]),
                ),
                point,
                hypercube::mle(padded(Seq::new(n, |j: int| group[j].value), t.len()), t) % m,
                rotation,
                mo,
                drawn,
            ) == Ok::<State<Pcs::CommitmentChunk>, Halt<Pcs::CommitmentChunk>>(s)
        }
}

/// An accepted group shows what [`group_shows`] says.
proof fn lemma_accepted_group<F: PrimeField, Pcs: PolynomialCommitmentScheme<F>>(
    vp: Pcs::VerifierParam,
    comms: Seq<Pcs::Commitment>,
    point: Seq<int>,
    evals: Seq<ShiftEvaluationView>,
    rotation: int,
    mo: Model<Pcs::CommitmentChunk>,
    st: State<Pcs::CommitmentChunk>,
) where Pcs::Commitment: Additive<F>
    ensures
        additive::verify_group::<F, Pcs>(
            vp,
            comms,
            point,
            evals,
            rotation,
            mo,
            st,
        ) matches Ok(s) ==> group_shows::<F, Pcs>(vp, comms, point, evals, rotation, mo, st, s),
{
    let m = F::modulus();
    F::modulus_is_odd();
    if let Ok(s) = additive::verify_group::<F, Pcs>(vp, comms, point, evals, rotation, mo, st) {
        law_claims_are_selected(evals, rotation);
        let group = additive::claims_at(evals, rotation);
        let n = group.len();
        let k = additive::group_draws(n);
        let (t, drawn) = transcript::squeeze_many(mo, st, k);
        trace::law_challenges_are_drawn_in_turn(mo, st, k);
        law_enough_challenges_are_drawn(mo, st, n);
        let values = additive::shift_values(group);
        assert(values =~= Seq::new(n, |j: int| group[j].value));
        law_combined_value_is_an_extension(values, t, m);
        assert(additive::factors(t, n, m) =~= Seq::new(n, |j: int| hypercube::eq_at(j, t) % m));
        assert(additive::picked_comms(comms, additive::shift_picked(group)) =~= Seq::new(
            n,
            |j: int| comms[group[j].poly],
        ));
        assert(combined_by(mo, st, n, t, drawn));
    }
}

/// Groups are verified one after the other.
proof fn lemma_accepted_groups<F: PrimeField, Pcs: PolynomialCommitmentScheme<F>>(
    vp: Pcs::VerifierParam,
    comms: Seq<Pcs::Commitment>,
    point: Seq<int>,
    evals: Seq<ShiftEvaluationView>,
    rots: Seq<int>,
    mo: Model<Pcs::CommitmentChunk>,
    st: State<Pcs::CommitmentChunk>,
) -> (states: Seq<State<Pcs::CommitmentChunk>>) where Pcs::Commitment: Additive<F>
    requires
        additive::verify_groups::<F, Pcs>(vp, comms, point, evals, rots, mo, st) is Ok,
    ensures
        states.len() == rots.len() + 1,
        states[0] == st,
        states.last() == additive::verify_groups::<F, Pcs>(
            vp,
            comms,
            point,
            evals,
            rots,
            mo,
            st,
        )->Ok_0,
        forall|i: int|
            0 <= i < rots.len() ==> group_shows::<F, Pcs>(
                vp,
                comms,
                point,
                evals,
                #[trigger] rots[i],
                mo,
                states[i],
                states[i + 1],
            ),
    decreases rots.len(),
{
    if rots.len() == 0 {
        seq![st]
    } else {
        let fewer = rots.drop_last();
        let before = lemma_accepted_groups::<F, Pcs>(vp, comms, point, evals, fewer, mo, st);
        lemma_accepted_group::<F, Pcs>(
            vp,
            comms,
            point,
            evals,
            rots.last(),
            mo,
            before.last(),
        );
        let s = additive::verify_groups::<F, Pcs>(vp, comms, point, evals, rots, mo, st)->Ok_0;
        let states = before.push(s);
        assert forall|i: int| 0 <= i < rots.len() implies group_shows::<F, Pcs>(
            vp,
            comms,
            point,
            evals,
            #[trigger] rots[i],
            mo,
            states[i],
            states[i + 1],
        ) by {
            if i < fewer.len() {
                assert(fewer[i] == rots[i]);
                assert(states[i + 1] == before[i + 1]);
            } else {
                assert(states[i] == before.last());
            }
        }
        states
    }
}

/// Whether the groups of `rots` are accepted one after the other, from the first state to the
/// last.
pub open spec fn groups_show<F: PrimeField, Pcs: PolynomialCommitmentScheme<F>>(
    vp: Pcs::VerifierParam,
    comms: Seq<Pcs::Commitment>,
    point: Seq<int>,
    evals: Seq<ShiftEvaluationView>,
    rots: Seq<int>,
    mo: Model<Pcs::CommitmentChunk>,
    states: Seq<State<Pcs::CommitmentChunk>>,
) -> bool where Pcs::Commitment: Additive<F> {
    &&& states.len() == rots.len() + 1
    &&& forall|i: int|
        0 <= i < rots.len() ==> group_shows::<F, Pcs>(
            vp,
            comms,
            point,
            evals,
            #[trigger] rots[i],
            mo,
            states[i],
            states[i + 1],
        )
}

/// Whatever prover the proof is from, where claims about rotated polynomials are accepted
/// together, the claims of every rotation that occurs are accepted as a group, in increasing
/// order of the rotations. The claims that are not rotated are checked before, after challenges
/// are drawn for them, and whatever comes of that check, the groups go on from where it left the
/// transcript.
pub proof fn law_accepted_shift_batch_shows<F: PrimeField, Pcs: PolynomialCommitmentScheme<F>>(
    vp: Pcs::VerifierParam,
    num_vars: nat,
    comms: Seq<Pcs::Commitment>,
    points: Seq<Seq<int>>,
    evals: Seq<ShiftEvaluationView>,
    mo: Model<Pcs::CommitmentChunk>,
    st: State<Pcs::CommitmentChunk>,
) where Pcs::Commitment: Additive<F>
    ensures
        additive::batch_verify_for_shift_spec::<F, Pcs>(
            vp,
            num_vars,
            comms,
            points,
            evals,
            mo,
            st,
        ) matches Ok(s) ==> exists|states: Seq<State<Pcs::CommitmentChunk>>|
            {
                &&& #[trigger] groups_show::<F, Pcs>(
                    vp,
                    comms,
                    points[0],
                    evals,
                    additive::rotations(evals),
                    mo,
                    states,
                )
                &&& states.last() == s
                &&& exists|t: Seq<int>, drawn: State<Pcs::CommitmentChunk>|
                    {
                        &&& #[trigger] combined_by(mo, st, evals.len(), t, drawn)
                        &&& states[0] == (match additive::verify_cur::<F, Pcs>(
                            vp,
                            comms,
                            points[0],
                            evals,
                            t,
                            mo,
                            drawn,
                        ) {
                            Ok(after) => after,
                            Err(h) => h.state,
                        })
                    }
            },
{
    if let Ok(s) = additive::batch_verify_for_shift_spec::<F, Pcs>(
        vp,
        num_vars,
        comms,
        points,
        evals,
        mo,
        st,
    ) {
        let (t, drawn) = additive::draw_factors(mo, st, evals.len());
        law_enough_challenges_are_drawn(mo, st, evals.len());
        trace::law_challenges_are_drawn_in_turn(mo, st, integer::ceil_log2(evals.len()));
        assert(combined_by(mo, st, evals.len(), t, drawn));
        let after = additive::left_by(
            additive::verify_cur::<F, Pcs>(vp, comms, points[0], evals, t, mo, drawn),
        );
        let states = lemma_accepted_groups::<F, Pcs>(
            vp,
            comms,
            points[0],
            evals,
            additive::rotations(evals),
            mo,
            after,
        );
        assert(groups_show::<F, Pcs>(
            vp,
            comms,
            points[0],
            evals,
            additive::rotations(evals),
            mo,
            states,
        ));
    }
}

/// The claims that are not rotated are verified at the common point for the combination of their
/// commitments with the factors `eq(j, t)`, and for the extension of their values at `t`: the
/// challenges drawn first, of which there are enough for all claims.
pub proof fn law_claims_without_rotation<F: PrimeField, Pcs: PolynomialCommitmentScheme<F>>(
    vp: Pcs::VerifierParam,
    comms: Seq<Pcs::Commitment>,
    point: Seq<int>,
    evals: Seq<ShiftEvaluationView>,
    t: Seq<int>,
    mo: Model<Pcs::CommitmentChunk>,
    st: State<Pcs::CommitmentChunk>,
) where Pcs::Commitment: Additive<F>
    requires
        evals.len() <= pow2(t.len()),
    ensures
        ({
            let m = F::modulus();
            let cur = evals.filter(|e: ShiftEvaluationView| e.rotation == 0);
            let n = cur.len();
            additive::verify_cur::<F, Pcs>(vp, comms, point, evals, t, mo, st) == Pcs::verify_spec(
                vp,
                Pcs::Commitment::msm_spec(
                    Seq::new(n, |j: int| hypercube::eq_at(j, t) % m),
                    Seq::new(n, |j: int| comms[cur[j].poly]),
                ),
                point,
                hypercube::mle(padded(Seq::new(n, |j: int| cur[j].value), t.len()), t) % m,
                mo,
                st,
            )
        }),
{
    let m = F::modulus();
    F::modulus_is_odd();
    law_claims_are_selected(evals, 0);
    additive::lemma_claims_at(evals, 0);
    let cur = additive::claims_at(evals, 0);
    let n = cur.len();
    let values = additive::shift_values(cur);
    assert(values =~= Seq::new(n, |j: int| cur[j].value));
    law_combined_value_is_an_extension(values, t, m);
    assert(additive::factors(t, n, m) =~= Seq::new(n, |j: int| hypercube::eq_at(j, t) % m));
    assert(additive::picked_comms(comms, additive::shift_picked(cur)) =~= Seq::new(
        n,
        |j: int| comms[cur[j].poly],
    ));
}

/// Polynomials and points are taken exactly if no polynomial has too many variables and every
/// point has as many coordinates as the first polynomial, or the first point, has variables.
pub proof fn law_taken_inputs(function: Seq<char>, upto: nat, polys: Seq<nat>, points: Seq<nat>)
    ensures
        claims::input_error(function, upto, polys, points) is None <==> {
            &&& forall|i: int| 0 <= i < polys.len() ==> #[trigger] polys[i] <= upto
            &&& forall|i: int|
                0 <= i < points.len() ==> #[trigger] points[i] == if polys.len() > 0 {
                    polys[0]
                } else {
                    points[0]
                }
        },
{
    lemma_first_above(polys, upto);
    let expected = if polys.len() > 0 {
        polys[0]
    } else {
        points[0]
    };
    lemma_first_other(points, expected);
}

/// There is none above exactly if all are not.
proof fn lemma_first_above(s: Seq<nat>, upto: nat)
    ensures
        claims::first_above(s, upto) is None <==> forall|i: int|
            0 <= i < s.len() ==> #[trigger] s[i] <= upto,
    decreases s.len(),
{
    if s.len() > 0 {
        let rest = s.drop_first();
        lemma_first_above(rest, upto);
        assert forall|i: int| 0 <= i < rest.len() implies #[trigger] rest[i] == s[i + 1] by {}
        if s[0] <= upto && claims::first_above(rest, upto) is None {
            assert forall|i: int| 0 <= i < s.len() implies #[trigger] s[i] <= upto by {
                if i > 0 {
                    assert(rest[i - 1] <= upto);
                }
            }
        }
    }
}

/// There is none other exactly if all are as expected.
proof fn lemma_first_other(s: Seq<nat>, expected: nat)
    ensures
        claims::first_other(s, expected) is None <==> forall|i: int|
            0 <= i < s.len() ==> #[trigger] s[i] == expected,
    decreases s.len(),
{
    if s.len() > 0 {
        let rest = s.drop_first();
        lemma_first_other(rest, expected);
        assert forall|i: int| 0 <= i < rest.len() implies #[trigger] rest[i] == s[i + 1] by {}
        if s[0] == expected && claims::first_other(rest, expected) is None {
            assert forall|i: int| 0 <= i < s.len() implies #[trigger] s[i] == expected by {
                if i > 0 {
                    assert(rest[i - 1] == expected);
                }
            }
        }
    }
}

/// The polynomial that is opened in the end is combined with the same factors as the commitments
/// that it is verified for: it is the sum over all claims of the factor of the claim's commitment
/// times the claim's polynomial.
pub proof fn law_opened_polynomial_matches_commitments(
    polys: Seq<Seq<int>>,
    points: Seq<Seq<int>>,
    evals: Seq<EvaluationView>,
    t: Seq<int>,
    u: Seq<int>,
    size: nat,
    m: int,
    b: int,
)
    requires
        m > 0,
        0 <= b < size,
        forall|i: int| 0 <= i < evals.len() ==> 0 <= (#[trigger] evals[i]).point < points.len(),
    ensures
        additive::g_prime(polys, points, evals, t, u, size, m)[b] == sum::sum_to(
            |i: int| additive::comm_factors(points, evals, t, u, m)[i] * polys[evals[i].poly][b],
            evals.len(),
        ) % m,
{
    let n = evals.len();
    let k = points.len();
    let picks = additive::picked(evals);
    let pf = additive::point_factors(u, points, m);
    let v = |i: int| polys[evals[i].poly][b];
    let f = |i: int| |p: int| (pf[p] * additive::masked(evals, t, p, m)[i]) * v(i);
    let outer = |p: int| pf[p] * additive::merged(polys, evals, t, p, size, m)[b];
    let by_point = |p: int| sum::sum_to(|i: int| f(i)(p), n);
    assert forall|p: int| 0 <= p < k implies modular::cong(#[trigger] outer(p), by_point(p), m) by {
        let ms = additive::masked(evals, t, p, m);
        let g = |i: int| ms[i] * polys[picks[i]][b];
        let h = |i: int| f(i)(p);
        let whole = sum::sum_to(g, n);
        assert forall|i: int| 0 <= i < n implies #[trigger] h(i) == pf[p] * g(i) by {
            let (x, y, w) = (pf[p], ms[i], v(i));
            assert((x * y) * w == x * (y * w)) by (nonlinear_arith);
        }
        sum::lemma_sum_scale(g, h, pf[p], n);
        sum::lemma_sum_eq(h, |i: int| f(i)(p), n);
        assert(additive::merged(polys, evals, t, p, size, m)[b] == whole % m);
        modular::lemma_cong_reduced(whole, m);
        modular::lemma_cong_mul(pf[p], pf[p], whole % m, whole, m);
    }
    sum::lemma_sum_cong(outer, by_point, k, m);
    sum::lemma_sum_swap(f, n, k);
    let by_claim = |i: int| sum::sum_to(|p: int| f(i)(p), k);
    let cf = additive::comm_factors(points, evals, t, u, m);
    let goal = |i: int| cf[i] * polys[evals[i].poly][b];
    assert forall|i: int| 0 <= i < n implies modular::cong(#[trigger] by_claim(i), goal(i), m) by {
        let q = evals[i].point;
        let h = |p: int| f(i)(p);
        assert forall|p: int| 0 <= p < k && p != q implies #[trigger] h(p) == 0 by {
            let (x, w) = (pf[p], v(i));
            assert((x * 0) * w == 0) by (nonlinear_arith);
        }
        sum::lemma_sum_single(h, q, k);
        sum::lemma_sum_eq(h, |p: int| f(i)(p), k);
        let c = pf[q] * additive::factor(t, i, m);
        modular::lemma_cong_reduced(c, m);
        modular::lemma_cong_mul(c % m, c, v(i), v(i), m);
    }
    sum::lemma_sum_cong(by_claim, goal, n, m);
}

/// Whether entry `i` is the first that is not as it should be.
pub open spec fn is_first(s: Seq<nat>, bad: spec_fn(nat) -> bool, i: int) -> bool {
    &&& 0 <= i < s.len()
    &&& bad(s[i])
    &&& forall|j: int| 0 <= j < i ==> !bad(#[trigger] s[j])
}

/// An input that is not taken is refused for its first polynomial with too many variables, or
/// else for its first point of another length, with both numbers.
pub proof fn law_refused_inputs(
    function: Seq<char>,
    upto: nat,
    polys: Seq<nat>,
    points: Seq<nat>,
    i: int,
)
    ensures
        ({
            let expected = if polys.len() > 0 {
                polys[0]
            } else {
                points[0]
            };
            let r = claims::input_error(function, upto, polys, points);
            &&& is_first(polys, |v: nat| v > upto, i) ==> r == Some(
                ErrorView::InvalidPcsParam(claims::too_many_text(function, upto, polys[i])),
            )
            &&& (forall|j: int| 0 <= j < polys.len() ==> #[trigger] polys[j] <= upto) && is_first(
                points,
                |v: nat| v != expected,
                i,
            ) ==> r == Some(
                ErrorView::InvalidPcsParam(claims::invalid_point_text(expected, points[i])),
            )
        }),
{
    let expected = if polys.len() > 0 {
        polys[0]
    } else {
        points[0]
    };
    if is_first(polys, |v: nat| v > upto, i) {
        lemma_first_above_is(polys, upto, i);
    }
    lemma_first_above(polys, upto);
    if is_first(points, |v: nat| v != expected, i) {
        lemma_first_other_is(points, expected, i);
    }
}

/// The first entry above is found.
proof fn lemma_first_above_is(s: Seq<nat>, upto: nat, i: int)
    requires
        is_first(s, |v: nat| v > upto, i),
    ensures
        claims::first_above(s, upto) == Some(s[i]),
    decreases s.len(),
{
    let bad = |v: nat| v > upto;
    if i > 0 {
        assert(!bad(s[0]));
        let rest = s.drop_first();
        assert forall|j: int| 0 <= j < i - 1 implies !bad(#[trigger] rest[j]) by {
            assert(!bad(s[j + 1]));
        }
        lemma_first_above_is(rest, upto, i - 1);
    }
}

/// The first other entry is found.
proof fn lemma_first_other_is(s: Seq<nat>, expected: nat, i: int)
    requires
        is_first(s, |v: nat| v != expected, i),
    ensures
        claims::first_other(s, expected) == Some(s[i]),
    decreases s.len(),
{
    let bad = |v: nat| v != expected;
    if i > 0 {
        assert(!bad(s[0]));
        let rest = s.drop_first();
        assert forall|j: int| 0 <= j < i - 1 implies !bad(#[trigger] rest[j]) by {
            assert(!bad(s[j + 1]));
        }
        lemma_first_other_is(rest, expected, i - 1);
    }
}

} // verus!
