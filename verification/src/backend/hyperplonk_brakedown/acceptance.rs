//! What a proof for a circuit says, and what an accepted one shows.

use crate::backend::hyperplonk::{HyperPlonkProverParam, HyperPlonkVerifierParam, Steps};
use crate::backend::hyperplonk_brakedown;
use crate::backend::hyperplonk_brakedown::protocol;
use crate::backend::hyperplonk_brakedown::queries;
use crate::backend::hyperplonk_brakedown::rounds;
use crate::backend::hyperplonk_brakedown::ShiftConstraint;
use crate::backend::PlonkishCircuit;
use crate::pcs;
use crate::pcs::multilinear::brakedown;
use crate::pcs::multilinear::brakedown::acceptance as openings;
use crate::pcs::multilinear::brakedown::{
    BrakedownCommitment, BrakedownPcs, BrakedownProverParam, BrakedownVerifierParam,
};
use crate::pcs::{EvaluationView, PolynomialCommitmentScheme};
use crate::piop::shift_open;
use crate::piop::shift_open::acceptance as shift_proofs;
use crate::piop::sum_check::acceptance as sums;
use crate::poly::hypercube;
use crate::util::expression::Query;
use crate::util::field::PrimeField;
use crate::util::hash::HashFunction;
use crate::util::transcript;
use crate::util::transcript::trace;
use crate::util::transcript::{Event, Halt, Item, Model, State};
use vstd::arithmetic::power2::pow2;
use vstd::prelude::*;

verus! {

/// Whether a shift-open proof for the function `f` and the shift `k` was written from state `a`
/// to state `b`. A point is drawn after the shift and the number of variables are absorbed.
/// Then the value there of the extension of `f` is sent, and the value there of the extension of
/// `x -> f((x + k) mod 2^n)`. Both stand at the front of what the proof gains.
pub open spec fn shift_is_said<F: PrimeField>(
    f: Seq<int>,
    k: int,
    num_vars: nat,
    mo: Model<[u8; 32]>,
    a: State<[u8; 32]>,
    b: State<[u8; 32]>,
) -> bool {
    let m = F::modulus();
    exists|r: Seq<int>|
        {
            let y = hypercube::mle(f, r) % m;
            let z = shift_proofs::shifted_value(f, k, r) % m;
            let events = a.events + shift_proofs::opening(k, num_vars, y, z, m);
            &&& #[trigger] shift_proofs::drawn_after(mo, a.events, k, num_vars, r, m)
            &&& events.is_prefix_of(b.events)
            &&& (a.proof + (mo.spell)(Item::Field(y)) + (mo.spell)(Item::Field(z))).is_prefix_of(
                b.proof,
            )
        }
}

/// A shift-open proof over Brakedown says what [`shift_is_said`] says, and takes back nothing.
proof fn lemma_shift_is_said<F: PrimeField, H: HashFunction>(
    pp: BrakedownProverParam<F>,
    f: Seq<int>,
    comm: BrakedownCommitment,
    num_vars: nat,
    k: int,
    mo: Model<[u8; 32]>,
    a: State<[u8; 32]>,
)
    requires
        pp.param.code@.wf(),
        f.len() == pow2(num_vars),
    ensures
        shift_open::prove_shift_open_spec::<F, BrakedownPcs<F, H>>(
            pp,
            f,
            comm,
            num_vars,
            k,
            mo,
            a,
        ) matches Ok(b) ==> shift_is_said::<F>(f, k, num_vars, mo, a, b) && trace::follows(b, a),
{
    if let Ok(s) = shift_open::prove_shift_open_spec::<F, BrakedownPcs<F, H>>(
        pp,
        f,
        comm,
        num_vars,
        k,
        mo,
        a,
    ) {
        let m = F::modulus();
        shift_proofs::law_written_proof_says::<F, BrakedownPcs<F, H>>(
            pp,
            f,
            comm,
            num_vars,
            k,
            mo,
            a,
        );
        let (r, u) = choose|r: Seq<int>, u: Seq<int>| #[trigger]
            shift_proofs::says::<F, BrakedownPcs<F, H>>(pp, f, comm, num_vars, k, mo, a, r, u, s);
        let y = hypercube::mle(f, r) % m;
        let z = shift_proofs::shifted_value(f, k, r) % m;
        let f_u = hypercube::mle(f, u) % m;
        let w_u = shift_proofs::weight_at(k, r, u) % m;
        let (b, t, v, msgs) = choose|
            b: State<[u8; 32]>,
            t: State<[u8; 32]>,
            v: State<[u8; 32]>,
            msgs: Seq<Seq<int>>,
        |
            {
                &&& b.events == a.events + shift_proofs::opening(k, num_vars, y, z, m)
                &&& b.proof == a.proof + (mo.spell)(Item::Field(y)) + (mo.spell)(Item::Field(z))
                &&& #[trigger] sums::rounds_happened(mo, b, msgs, u, t)
                &&& msgs.len() == num_vars
                &&& v.events == t.events + trace::fields(seq![f_u, w_u])
                &&& transcript::starts_with(v.proof, b)
                &&& #[trigger] BrakedownPcs::<F, H>::open_spec(pp, f, comm, u, f_u, mo, v) == Ok::<
                    State<[u8; 32]>,
                    Halt<[u8; 32]>,
                >(s)
            };
        let c = pp.param.code@;
        openings::law_written_opening_says::<F, H>(c, f, u, mo, v);
        brakedown::laws::lemma_open_appends::<F, H>(c, f, u, mo, v);
        transcript::lemma_starts_trans(s.proof, b, v);
        trace::lemma_follows_more(t, v, trace::fields(seq![f_u, w_u]));
        trace::lemma_follows_trans(b, t, v);
        trace::lemma_follows_trans(b, v, s);
        trace::lemma_follows_more(a, b, shift_proofs::opening(k, num_vars, y, z, m));
        trace::lemma_follows_trans(a, b, s);
        assert(b.events =~= s.events.subrange(0, b.events.len() as int));
        assert(shift_proofs::drawn_after(mo, a.events, k, num_vars, r, m));
    }
}

/// Whether one shift is proved from state `a` to state `b`: if its polynomial is there, by a
/// shift-open proof for that polynomial and the shift's own distance. Otherwise nothing happens.
#[verifier::opaque]
pub open spec fn step_is_said<F: PrimeField>(
    polys: Seq<Seq<int>>,
    c: ShiftConstraint,
    num_vars: nat,
    mo: Model<[u8; 32]>,
    a: State<[u8; 32]>,
    b: State<[u8; 32]>,
) -> bool {
    &&& trace::follows(b, a)
    &&& c.poly_idx < polys.len() ==> shift_is_said::<F>(
        polys[c.poly_idx as int],
        c.k as int,
        num_vars,
        mo,
        a,
        b,
    )
    &&& c.poly_idx >= polys.len() ==> b == a
}

/// Whether the shifts are proved one after the other, from the first state to the last.
pub open spec fn shifts_are_said<F: PrimeField>(
    polys: Seq<Seq<int>>,
    shifts: Seq<ShiftConstraint>,
    num_vars: nat,
    mo: Model<[u8; 32]>,
    states: Seq<State<[u8; 32]>>,
) -> bool {
    &&& states.len() == shifts.len() + 1
    &&& forall|i: int|
        0 <= i < shifts.len() ==> step_is_said::<F>(
            polys,
            #[trigger] shifts[i],
            num_vars,
            mo,
            states[i],
            states[i + 1],
        )
}

/// One shift is proved.
proof fn lemma_step_is_said<F: PrimeField, H: HashFunction>(
    pp: BrakedownProverParam<F>,
    polys: Seq<Seq<int>>,
    comms: Seq<BrakedownCommitment>,
    shifts: Seq<ShiftConstraint>,
    num_vars: nat,
    mo: Model<[u8; 32]>,
    st: State<[u8; 32]>,
)
    requires
        pp.param.code@.wf(),
        pcs::all_sized(polys, pow2(num_vars)),
        shifts.len() > 0,
        protocol::prove_shifts::<F, H>(pp, polys, comms, shifts, num_vars, mo, st) is Ok,
    ensures
        protocol::prove_shifts::<F, H>(
            pp,
            polys,
            comms,
            shifts.drop_last(),
            num_vars,
            mo,
            st,
        ) is Ok,
        step_is_said::<F>(
            polys,
            shifts.last(),
            num_vars,
            mo,
            protocol::prove_shifts::<F, H>(
                pp,
                polys,
                comms,
                shifts.drop_last(),
                num_vars,
                mo,
                st,
            )->Ok_0,
            protocol::prove_shifts::<F, H>(pp, polys, comms, shifts, num_vars, mo, st)->Ok_0,
        ),
{
    reveal(step_is_said);
    let a = protocol::prove_shifts::<F, H>(
        pp,
        polys,
        comms,
        shifts.drop_last(),
        num_vars,
        mo,
        st,
    )->Ok_0;
    let c = shifts.last();
    let j = c.poly_idx as int;
    if j < polys.len() {
        assert(polys[j].len() == pow2(num_vars));
        lemma_shift_is_said::<F, H>(
            pp,
            polys[j],
            protocol::comm_at(comms, j),
            num_vars,
            c.k as int,
            mo,
            a,
        );
    } else {
        assert(a.events.take(a.events.len() as int) =~= a.events);
    }
}

/// The shifts are proved one after the other.
proof fn lemma_shifts_are_said<F: PrimeField, H: HashFunction>(
    pp: BrakedownProverParam<F>,
    polys: Seq<Seq<int>>,
    comms: Seq<BrakedownCommitment>,
    shifts: Seq<ShiftConstraint>,
    num_vars: nat,
    mo: Model<[u8; 32]>,
    st: State<[u8; 32]>,
) -> (states: Seq<State<[u8; 32]>>)
    requires
        pp.param.code@.wf(),
        pcs::all_sized(polys, pow2(num_vars)),
        protocol::prove_shifts::<F, H>(pp, polys, comms, shifts, num_vars, mo, st) is Ok,
    ensures
        shifts_are_said::<F>(polys, shifts, num_vars, mo, states),
        states[0] == st,
        states.last() == protocol::prove_shifts::<F, H>(
            pp,
            polys,
            comms,
            shifts,
            num_vars,
            mo,
            st,
        )->Ok_0,
    decreases shifts.len(),
{
    if shifts.len() == 0 {
        seq![st]
    } else {
        let fewer = shifts.drop_last();
        lemma_step_is_said::<F, H>(pp, polys, comms, shifts, num_vars, mo, st);
        let before = lemma_shifts_are_said::<F, H>(pp, polys, comms, fewer, num_vars, mo, st);
        let b = protocol::prove_shifts::<F, H>(
            pp,
            polys,
            comms,
            shifts,
            num_vars,
            mo,
            st,
        )->Ok_0;
        let states = before.push(b);
        assert forall|i: int| 0 <= i < shifts.len() implies step_is_said::<F>(
            polys,
            #[trigger] shifts[i],
            num_vars,
            mo,
            states[i],
            states[i + 1],
        ) by {
            if i < fewer.len() {
                assert(fewer[i] == shifts[i]);
                assert(states[i] == before[i]);
                assert(states[i + 1] == before[i + 1]);
            } else {
                assert(states[i] == before.last());
                assert(states[i + 1] == b);
            }
        }
        states
    }
}

/// States that follow each other one by one.
proof fn lemma_chain_follows(states: Seq<State<[u8; 32]>>, i: int, j: int)
    requires
        0 <= i <= j < states.len(),
        forall|t: int|
            0 <= t < states.len() - 1 ==> trace::follows(
                states[t + 1],
                #[trigger] states[t],
            ),
    ensures
        trace::follows(states[j], states[i]),
    decreases j - i,
{
    if i < j {
        lemma_chain_follows(states, i, j - 1);
        assert(trace::follows(states[j - 1 + 1], states[j - 1]));
        trace::lemma_follows_trans(states[i], states[j - 1], states[j]);
    } else {
        assert(states[i].events.take(states[i].events.len() as int) =~= states[i].events);
    }
}

/// What a proof for a circuit consists of. After the rounds before the zero-check, what the
/// zero-check leaves is opened in common for all polynomials and commitments. That is the whole
/// proof without shifts. The shifts are proved after it, one after the other.
pub open spec fn proof_says<
    F: PrimeField,
    H: HashFunction,
    A: Steps<F, [u8; 32]>,
    Ci: PlonkishCircuit<F>,
>(
    steps: A,
    pp: HyperPlonkProverParam<F, BrakedownPcs<F, H>>,
    circuit: Ci,
    shifts: Seq<ShiftConstraint>,
    mo: Model<[u8; 32]>,
    st: State<[u8; 32]>,
    sent: protocol::Sent,
    states: Seq<State<[u8; 32]>>,
) -> bool {
    &&& protocol::prove_rounds::<F, H, A, Ci>(steps, pp, circuit, mo, st) == Ok::<
        protocol::Sent,
        Halt<[u8; 32]>,
    >(sent)
    &&& trace::follows(sent.state, st)
    &&& trace::follows(states[0], sent.state)
    &&& exists|points: Seq<Seq<int>>, evals: Seq<EvaluationView>, s: State<[u8; 32]>|
        {
            &&& steps.prove_zero_check_spec(
                pp.num_instances@.len(),
                pp.expression@,
                sent.polys,
                sent.challenges,
                sent.y,
                mo,
                sent.state,
            ) == Ok::<_, Halt<[u8; 32]>>((points, evals, s))
            &&& #[trigger] BrakedownPcs::<F, H>::batch_open_spec(
                pp.pcs,
                sent.polys,
                sent.comms,
                points,
                evals,
                mo,
                s,
            ) == Ok::<State<[u8; 32]>, Halt<[u8; 32]>>(states[0])
        }
    &&& protocol::prove_spec::<F, H, A, Ci>(steps, pp, circuit, Seq::empty(), mo, st) == Ok::<
        State<[u8; 32]>,
        Halt<[u8; 32]>,
    >(states[0])
    &&& shifts_are_said::<F>(sent.polys, shifts, pp.num_vars as nat, mo, states)
}

/// A common opening takes back nothing that happened before it.
proof fn lemma_batch_open_follows<F: PrimeField, H: HashFunction>(
    pp: BrakedownProverParam<F>,
    polys: Seq<Seq<int>>,
    comms: Seq<BrakedownCommitment>,
    points: Seq<Seq<int>>,
    evals: Seq<EvaluationView>,
    mo: Model<[u8; 32]>,
    s: State<[u8; 32]>,
)
    requires
        pp.param.code@.wf(),
    ensures
        BrakedownPcs::<F, H>::batch_open_spec(pp, polys, comms, points, evals, mo, s) matches Ok(t)
            ==> trace::follows(t, s),
{
    let c = pp.param.code@;
    if polys.len() == 1 {
        openings::law_written_opening_says::<F, H>(c, polys[0], points[0], mo, s);
    } else {
        let (x, drawn) = transcript::squeeze(mo, s);
        let all = brakedown::batched(polys, x, F::modulus());
        openings::law_written_opening_says::<F, H>(c, all, points[0], mo, drawn);
        assert(drawn.events =~= s.events + seq![Event::Squeeze]);
        trace::lemma_follows_more(s, drawn, seq![Event::Squeeze]);
        if let Ok(t) = brakedown::open_evals_spec::<F, H>(c, all, points[0], mo, drawn) {
            trace::lemma_follows_trans(s, drawn, t);
        }
    }
}

/// A proof for a circuit, with shifts, says what [`proof_says`] says.
pub proof fn law_proof_says<
    F: PrimeField,
    H: HashFunction,
    A: Steps<F, [u8; 32]>,
    Ci: PlonkishCircuit<F>,
>(
    steps: A,
    pp: HyperPlonkProverParam<F, BrakedownPcs<F, H>>,
    circuit: Ci,
    shifts: Seq<ShiftConstraint>,
    mo: Model<[u8; 32]>,
    st: State<[u8; 32]>,
)
    requires
        pp.pcs.param.code@.wf(),
        protocol::can_prove::<F, H, A, Ci>(steps, pp, circuit),
    ensures
        protocol::prove_spec::<F, H, A, Ci>(steps, pp, circuit, shifts, mo, st) matches Ok(done)
            ==> exists|sent: protocol::Sent, states: Seq<State<[u8; 32]>>|
            {
                &&& #[trigger] proof_says::<F, H, A, Ci>(
                    steps,
                    pp,
                    circuit,
                    shifts,
                    mo,
                    st,
                    sent,
                    states,
                )
                &&& states.last() == done
            },
{
    if let Ok(done) = protocol::prove_spec::<F, H, A, Ci>(steps, pp, circuit, shifts, mo, st) {
        let sent = protocol::prove_rounds::<F, H, A, Ci>(steps, pp, circuit, mo, st)->Ok_0;
        protocol::lemma_sent_shape::<F, H, A, Ci>(steps, pp, circuit, mo, st);
        rounds::law_sent_in_rounds::<F, H, A, Ci>(steps, pp, circuit, mo, st);
        lemma_sent_follows::<F, H, A, Ci>(steps, pp, circuit, mo, st);
        let (points, evals, s) = steps.prove_zero_check_spec(
            pp.num_instances@.len(),
            pp.expression@,
            sent.polys,
            sent.challenges,
            sent.y,
            mo,
            sent.state,
        )->Ok_0;
        steps.zero_check_follows(
            pp.num_instances@.len(),
            pp.expression@,
            sent.polys,
            Seq::empty(),
            sent.challenges,
            sent.y,
            mo,
            sent.state,
        );
        lemma_batch_open_follows::<F, H>(pp.pcs, sent.polys, sent.comms, points, evals, mo, s);
        let t = BrakedownPcs::<F, H>::batch_open_spec(
            pp.pcs,
            sent.polys,
            sent.comms,
            points,
            evals,
            mo,
            s,
        )->Ok_0;
        trace::lemma_follows_trans(sent.state, s, t);
        let states = lemma_shifts_are_said::<F, H>(
            pp.pcs,
            sent.polys,
            sent.comms,
            shifts,
            pp.num_vars as nat,
            mo,
            t,
        );
        assert(proof_says::<F, H, A, Ci>(steps, pp, circuit, shifts, mo, st, sent, states));
    }
}

/// The rounds take back nothing that happened before them.
proof fn lemma_sent_follows<
    F: PrimeField,
    H: HashFunction,
    A: Steps<F, [u8; 32]>,
    Ci: PlonkishCircuit<F>,
>(
    steps: A,
    pp: HyperPlonkProverParam<F, BrakedownPcs<F, H>>,
    circuit: Ci,
    mo: Model<[u8; 32]>,
    st: State<[u8; 32]>,
)
    ensures
        protocol::prove_rounds::<F, H, A, Ci>(steps, pp, circuit, mo, st) matches Ok(sent)
            ==> trace::follows(sent.state, st) && (st.events + trace::fields(
            circuit.instances_spec().flatten(),
        )).is_prefix_of(sent.state.events),
{
    if let Ok(sent) = protocol::prove_rounds::<F, H, A, Ci>(steps, pp, circuit, mo, st) {
        rounds::law_sent_in_rounds::<F, H, A, Ci>(steps, pp, circuit, mo, st);
        let (wpolys, wcomms, ms, m_comms, hzs, hz_comms) = choose|
            wpolys: Seq<Seq<Seq<int>>>,
            wcomms: Seq<Seq<BrakedownCommitment>>,
            ms: Seq<Seq<int>>,
            m_comms: Seq<BrakedownCommitment>,
            hzs: Seq<Seq<int>>,
            hz_comms: Seq<BrakedownCommitment>,
        | #[trigger]
            rounds::sent_in_rounds::<F, H, A, Ci>(
                steps,
                pp,
                circuit,
                mo,
                st,
                sent,
                wpolys,
                wcomms,
                ms,
                m_comms,
                hzs,
                hz_comms,
            );
        let instances = circuit.instances_spec();
        let events = rounds::rounds_events(
            instances,
            wcomms,
            pp.num_challenges@,
            m_comms,
            hz_comms,
            pp.num_vars as nat,
        );
        trace::lemma_follows_more(st, sent.state, events);
        let front = st.events + trace::fields(instances.flatten());
        assert(front =~= sent.state.events.subrange(0, front.len() as int));
    }
}

/// Whether the rotated query `q` is proved in a proof that ends in the state `done`: if its
/// polynomial is there, there is a shift-open proof for it after the circuit's own proof, whose
/// second value is the extension at the drawn point of the polynomial moved by the distance of
/// the query's rotation.
pub open spec fn rotation_is_proved<
    F: PrimeField,
    H: HashFunction,
    A: Steps<F, [u8; 32]>,
    Ci: PlonkishCircuit<F>,
>(
    steps: A,
    pp: HyperPlonkProverParam<F, BrakedownPcs<F, H>>,
    circuit: Ci,
    q: Query,
    mo: Model<[u8; 32]>,
    st: State<[u8; 32]>,
    done: State<[u8; 32]>,
) -> bool {
    let polys = protocol::prove_rounds::<F, H, A, Ci>(steps, pp, circuit, mo, st)->Ok_0.polys;
    let plain = protocol::prove_spec::<F, H, A, Ci>(
        steps,
        pp,
        circuit,
        Seq::empty(),
        mo,
        st,
    )->Ok_0;
    q.poly < polys.len() ==> exists|a: State<[u8; 32]>, b: State<[u8; 32]>|
        {
            &&& #[trigger] shift_is_said::<F>(
                polys[q.poly as int],
                queries::magnitude(q.rotation),
                pp.num_vars as nat,
                mo,
                a,
                b,
            )
            &&& trace::follows(a, plain)
            &&& trace::follows(done, b)
        }
}

/// For every rotated query of the expression whose polynomial is there, the proof with shifts
/// holds a shift-open proof, after the circuit's own: its second value is the extension at the
/// drawn point of the polynomial moved by the distance of the query's rotation.
pub proof fn law_rotated_queries_are_proved<
    F: PrimeField,
    H: HashFunction,
    A: Steps<F, [u8; 32]>,
    Ci: PlonkishCircuit<F>,
>(
    steps: A,
    pp: HyperPlonkProverParam<F, BrakedownPcs<F, H>>,
    circuit: Ci,
    q: Query,
    mo: Model<[u8; 32]>,
    st: State<[u8; 32]>,
)
    requires
        pp.pcs.param.code@.wf(),
        protocol::can_prove::<F, H, A, Ci>(steps, pp, circuit),
        queries::queries(pp.expression@).contains(q),
        queries::is_rotated(q),
    ensures
        protocol::prove_spec::<F, H, A, Ci>(
            steps,
            pp,
            circuit,
            hyperplonk_brakedown::shift_constraints(pp.expression@),
            mo,
            st,
        ) matches Ok(done) ==> rotation_is_proved::<F, H, A, Ci>(
            steps,
            pp,
            circuit,
            q,
            mo,
            st,
            done,
        ),
{
    let shifts = hyperplonk_brakedown::shift_constraints(pp.expression@);
    if let Ok(done) = protocol::prove_spec::<F, H, A, Ci>(steps, pp, circuit, shifts, mo, st) {
        law_proof_says::<F, H, A, Ci>(steps, pp, circuit, shifts, mo, st);
        let (sent, states) = choose|sent: protocol::Sent, states: Seq<State<[u8; 32]>>|
            {
                &&& #[trigger] proof_says::<F, H, A, Ci>(
                    steps,
                    pp,
                    circuit,
                    shifts,
                    mo,
                    st,
                    sent,
                    states,
                )
                &&& states.last() == done
            };
        queries::law_every_rotated_query_has_a_constraint(pp.expression@, q);
        let i = choose|i: int|
            0 <= i < shifts.len() && {
                let c = #[trigger] shifts[i];
                c.poly_idx == q.poly && c.rotation == q.rotation && c.k == queries::magnitude(
                    q.rotation,
                )
            };
        assert(shifts[i].poly_idx == q.poly);
        assert forall|t: int| 0 <= t < states.len() - 1 implies trace::follows(
            states[t + 1],
            #[trigger] states[t],
        ) by {
            reveal(step_is_said);
            let c = shifts[t];
        }
        lemma_chain_follows(states, 0, i);
        lemma_chain_follows(states, i + 1, states.len() - 1);
        if q.poly < sent.polys.len() {
            reveal(step_is_said);
            assert(shift_is_said::<F>(
                sent.polys[q.poly as int],
                queries::magnitude(q.rotation),
                pp.num_vars as nat,
                mo,
                states[i],
                states[i + 1],
            ));
        }
    }
}

/// Whether a shift-open proof for the commitment `comm` and the shift `k` is accepted from state
/// `a` to state `b`.
pub open spec fn shift_is_shown<F: PrimeField, H: HashFunction>(
    vp: BrakedownVerifierParam<F>,
    comm: BrakedownCommitment,
    k: int,
    num_vars: nat,
    mo: Model<[u8; 32]>,
    a: State<[u8; 32]>,
    b: State<[u8; 32]>,
) -> bool {
    shift_open::verify_shift_open_spec::<F, BrakedownPcs<F, H>>(
        vp,
        comm,
        num_vars,
        k,
        mo,
        a,
    ) matches Ok((_, _, s)) && s == b
}

/// Whether one shift is accepted from state `a` to state `b`: if its commitment is there, by the
/// shift-open verifier for that commitment and the shift's own distance. Otherwise nothing
/// happens.
#[verifier::opaque]
pub open spec fn step_is_shown<F: PrimeField, H: HashFunction>(
    vp: BrakedownVerifierParam<F>,
    comms: Seq<BrakedownCommitment>,
    c: ShiftConstraint,
    num_vars: nat,
    mo: Model<[u8; 32]>,
    a: State<[u8; 32]>,
    b: State<[u8; 32]>,
) -> bool {
    &&& trace::follows(b, a)
    &&& c.poly_idx < comms.len() ==> shift_is_shown::<F, H>(
        vp,
        comms[c.poly_idx as int],
        c.k as int,
        num_vars,
        mo,
        a,
        b,
    )
    &&& c.poly_idx >= comms.len() ==> b == a
}

/// Whether the shifts are accepted one after the other, from the first state to the last.
pub open spec fn shifts_are_shown<F: PrimeField, H: HashFunction>(
    vp: BrakedownVerifierParam<F>,
    comms: Seq<BrakedownCommitment>,
    shifts: Seq<ShiftConstraint>,
    num_vars: nat,
    mo: Model<[u8; 32]>,
    states: Seq<State<[u8; 32]>>,
) -> bool {
    &&& states.len() == shifts.len() + 1
    &&& forall|i: int|
        0 <= i < shifts.len() ==> step_is_shown::<F, H>(
            vp,
            comms,
            #[trigger] shifts[i],
            num_vars,
            mo,
            states[i],
            states[i + 1],
        )
}

/// An accepted shift-open proof over Brakedown takes back nothing that happened before it.
proof fn lemma_accepted_shift_follows<F: PrimeField, H: HashFunction>(
    vp: BrakedownVerifierParam<F>,
    comm: BrakedownCommitment,
    num_vars: nat,
    k: int,
    mo: Model<[u8; 32]>,
    a: State<[u8; 32]>,
)
    requires
        vp.param.code@.wf(),
    ensures
        shift_open::verify_shift_open_spec::<F, BrakedownPcs<F, H>>(
            vp,
            comm,
            num_vars,
            k,
            mo,
            a,
        ) matches Ok((_, _, b)) ==> trace::follows(b, a),
{
    if let Ok((y, z, s)) = shift_open::verify_shift_open_spec::<F, BrakedownPcs<F, H>>(
        vp,
        comm,
        num_vars,
        k,
        mo,
        a,
    ) {
        let m = F::modulus();
        shift_proofs::law_accepted_proof_shows::<F, BrakedownPcs<F, H>>(
            vp,
            comm,
            num_vars,
            k,
            mo,
            a,
        );
        let (r, u, f_u, w_u) = choose|r: Seq<int>, u: Seq<int>, f_u: int, w_u: int| #[trigger]
            shift_proofs::shows::<F, BrakedownPcs<F, H>>(
                vp,
                comm,
                num_vars,
                k,
                mo,
                a,
                y,
                z,
                r,
                u,
                f_u,
                w_u,
                s,
            );
        let (b, t, v, msgs, left) = choose|
            b: State<[u8; 32]>,
            t: State<[u8; 32]>,
            v: State<[u8; 32]>,
            msgs: Seq<Seq<int>>,
            left: Seq<int>,
        |
            {
                &&& b.events == a.events + shift_proofs::opening(k, num_vars, y, z, m)
                &&& #[trigger] sums::rounds_happened(mo, b, msgs, u, t)
                &&& msgs.len() == num_vars
                &&& #[trigger] sums::rounds_fit(
                    crate::piop::sum_check::Form::Evaluations,
                    msgs,
                    u,
                    left,
                    m,
                )
                &&& left[0] == z
                &&& left.last() == (f_u * w_u) % m
                &&& v.events == t.events + trace::fields(seq![f_u, w_u])
                &&& #[trigger] BrakedownPcs::<F, H>::verify_spec(vp, comm, u, f_u, mo, v) == Ok::<
                    State<[u8; 32]>,
                    Halt<[u8; 32]>,
                >(s)
            };
        openings::lemma_accepted_opening_follows::<F, H>(
            vp.param.code@,
            vp.param.num_vars as nat,
            Some(comm.root),
            u,
            f_u,
            mo,
            v,
        );
        trace::lemma_follows_more(t, v, trace::fields(seq![f_u, w_u]));
        trace::lemma_follows_trans(b, t, v);
        trace::lemma_follows_trans(b, v, s);
        trace::lemma_follows_more(a, b, shift_proofs::opening(k, num_vars, y, z, m));
        trace::lemma_follows_trans(a, b, s);
    }
}

/// One shift is accepted.
proof fn lemma_step_is_shown<F: PrimeField, H: HashFunction>(
    vp: BrakedownVerifierParam<F>,
    comms: Seq<BrakedownCommitment>,
    shifts: Seq<ShiftConstraint>,
    num_vars: nat,
    mo: Model<[u8; 32]>,
    st: State<[u8; 32]>,
)
    requires
        vp.param.code@.wf(),
        shifts.len() > 0,
        protocol::verify_shifts::<F, H>(vp, comms, shifts, num_vars, mo, st) is Ok,
    ensures
        protocol::verify_shifts::<F, H>(vp, comms, shifts.drop_last(), num_vars, mo, st) is Ok,
        step_is_shown::<F, H>(
            vp,
            comms,
            shifts.last(),
            num_vars,
            mo,
            protocol::verify_shifts::<F, H>(
                vp,
                comms,
                shifts.drop_last(),
                num_vars,
                mo,
                st,
            )->Ok_0,
            protocol::verify_shifts::<F, H>(vp, comms, shifts, num_vars, mo, st)->Ok_0,
        ),
{
    reveal(step_is_shown);
    let a = protocol::verify_shifts::<F, H>(
        vp,
        comms,
        shifts.drop_last(),
        num_vars,
        mo,
        st,
    )->Ok_0;
    let c = shifts.last();
    let j = c.poly_idx as int;
    if j < comms.len() {
        lemma_accepted_shift_follows::<F, H>(vp, comms[j], num_vars, c.k as int, mo, a);
    } else {
        assert(a.events.take(a.events.len() as int) =~= a.events);
    }
}

/// The shifts are accepted one after the other.
proof fn lemma_shifts_are_shown<F: PrimeField, H: HashFunction>(
    vp: BrakedownVerifierParam<F>,
    comms: Seq<BrakedownCommitment>,
    shifts: Seq<ShiftConstraint>,
    num_vars: nat,
    mo: Model<[u8; 32]>,
    st: State<[u8; 32]>,
) -> (states: Seq<State<[u8; 32]>>)
    requires
        vp.param.code@.wf(),
        protocol::verify_shifts::<F, H>(vp, comms, shifts, num_vars, mo, st) is Ok,
    ensures
        shifts_are_shown::<F, H>(vp, comms, shifts, num_vars, mo, states),
        states[0] == st,
        states.last() == protocol::verify_shifts::<F, H>(
            vp,
            comms,
            shifts,
            num_vars,
            mo,
            st,
        )->Ok_0,
    decreases shifts.len(),
{
    if shifts.len() == 0 {
        seq![st]
    } else {
        let fewer = shifts.drop_last();
        lemma_step_is_shown::<F, H>(vp, comms, shifts, num_vars, mo, st);
        let before = lemma_shifts_are_shown::<F, H>(vp, comms, fewer, num_vars, mo, st);
        let b = protocol::verify_shifts::<F, H>(vp, comms, shifts, num_vars, mo, st)->Ok_0;
        let states = before.push(b);
        assert forall|i: int| 0 <= i < shifts.len() implies step_is_shown::<F, H>(
            vp,
            comms,
            #[trigger] shifts[i],
            num_vars,
            mo,
            states[i],
            states[i + 1],
        ) by {
            if i < fewer.len() {
                assert(fewer[i] == shifts[i]);
                assert(states[i] == before[i]);
                assert(states[i + 1] == before[i + 1]);
            } else {
                assert(states[i] == before.last());
                assert(states[i + 1] == b);
            }
        }
        states
    }
}

/// What an accepted proof for a circuit shows. After the rounds before the zero-check, the
/// zero-check is accepted for the instances, with the challenges that were drawn. What it leaves
/// is accepted as a common opening of all commitments. That is the whole proof without shifts.
/// The shifts are accepted after it, one after the other.
pub open spec fn proof_shows<F: PrimeField, H: HashFunction, A: Steps<F, [u8; 32]>>(
    steps: A,
    vp: HyperPlonkVerifierParam<F, BrakedownPcs<F, H>>,
    instances: Seq<Seq<int>>,
    shifts: Seq<ShiftConstraint>,
    mo: Model<[u8; 32]>,
    st: State<[u8; 32]>,
    heard: protocol::Heard,
    states: Seq<State<[u8; 32]>>,
) -> bool {
    &&& exists|
        witness: Seq<Seq<BrakedownCommitment>>,
        ms: Seq<BrakedownCommitment>,
        hzs: Seq<BrakedownCommitment>,
    | #[trigger]
        rounds::heard_in_rounds::<F, H>(vp, instances, mo, st, heard, witness, ms, hzs)
    &&& trace::follows(states[0], heard.state)
    &&& exists|points: Seq<Seq<int>>, evals: Seq<EvaluationView>, s: State<[u8; 32]>|
        {
            &&& steps.verify_zero_check_spec(
                vp.num_vars as nat,
                vp.expression@,
                instances,
                heard.challenges,
                heard.y,
                mo,
                heard.state,
            ) == Ok::<_, Halt<[u8; 32]>>((points, evals, s))
            &&& #[trigger] BrakedownPcs::<F, H>::batch_verify_spec(
                vp.pcs,
                heard.comms,
                points,
                evals,
                mo,
                s,
            ) == Ok::<State<[u8; 32]>, Halt<[u8; 32]>>(states[0])
        }
    &&& protocol::verify_spec::<F, H, A>(steps, vp, instances, Seq::empty(), mo, st) == Ok::<
        State<[u8; 32]>,
        Halt<[u8; 32]>,
    >(states[0])
    &&& shifts_are_shown::<F, H>(vp.pcs, heard.comms, shifts, vp.num_vars as nat, mo, states)
}

/// An accepted common opening takes back nothing that happened before it.
proof fn lemma_batch_verify_follows<F: PrimeField, H: HashFunction>(
    vp: BrakedownVerifierParam<F>,
    comms: Seq<BrakedownCommitment>,
    points: Seq<Seq<int>>,
    evals: Seq<EvaluationView>,
    mo: Model<[u8; 32]>,
    s: State<[u8; 32]>,
)
    requires
        vp.param.code@.wf(),
    ensures
        BrakedownPcs::<F, H>::batch_verify_spec(vp, comms, points, evals, mo, s) matches Ok(t)
            ==> trace::follows(t, s),
{
    let c = vp.param.code@;
    let n = vp.param.num_vars as nat;
    if comms.len() == 1 {
        openings::lemma_accepted_opening_follows::<F, H>(
            c,
            n,
            Some(comms[0].root),
            points[0],
            evals[0].value,
            mo,
            s,
        );
    } else {
        let (x, drawn) = transcript::squeeze(mo, s);
        let value = brakedown::batched_value(evals, x, F::modulus());
        openings::lemma_accepted_opening_follows::<F, H>(c, n, None, points[0], value, mo, drawn);
        assert(drawn.events =~= s.events + seq![Event::Squeeze]);
        trace::lemma_follows_more(s, drawn, seq![Event::Squeeze]);
        if let Ok(t) = brakedown::verify_evals_spec::<F, H>(
            c,
            n,
            None,
            points[0],
            value,
            mo,
            drawn,
        ) {
            trace::lemma_follows_trans(s, drawn, t);
        }
    }
}

/// Whatever prover the proof is from, an accepted proof for a circuit, with shifts, shows what
/// [`proof_shows`] says.
pub proof fn law_accepted_proof_shows<F: PrimeField, H: HashFunction, A: Steps<F, [u8; 32]>>(
    steps: A,
    vp: HyperPlonkVerifierParam<F, BrakedownPcs<F, H>>,
    instances: Seq<Seq<int>>,
    shifts: Seq<ShiftConstraint>,
    mo: Model<[u8; 32]>,
    st: State<[u8; 32]>,
)
    requires
        vp.pcs.param.code@.wf(),
        vp.num_witness_polys@.len() == vp.num_challenges@.len(),
    ensures
        protocol::verify_spec::<F, H, A>(steps, vp, instances, shifts, mo, st) matches Ok(done)
            ==> exists|heard: protocol::Heard, states: Seq<State<[u8; 32]>>|
            {
                &&& #[trigger] proof_shows::<F, H, A>(
                    steps,
                    vp,
                    instances,
                    shifts,
                    mo,
                    st,
                    heard,
                    states,
                )
                &&& states.last() == done
            },
{
    if let Ok(done) = protocol::verify_spec::<F, H, A>(steps, vp, instances, shifts, mo, st) {
        rounds::law_heard_in_rounds::<F, H>(vp, instances, mo, st);
        let heard = protocol::read_rounds::<F, H>(vp, instances, mo, st)->Ok_0;
        let (witness, ms, hzs) = choose|
            witness: Seq<Seq<BrakedownCommitment>>,
            ms: Seq<BrakedownCommitment>,
            hzs: Seq<BrakedownCommitment>,
        | #[trigger]
            rounds::heard_in_rounds::<F, H>(vp, instances, mo, st, heard, witness, ms, hzs);
        let (points, evals, s) = steps.verify_zero_check_spec(
            vp.num_vars as nat,
            vp.expression@,
            instances,
            heard.challenges,
            heard.y,
            mo,
            heard.state,
        )->Ok_0;
        steps.zero_check_follows(
            0,
            vp.expression@,
            Seq::empty(),
            instances,
            heard.challenges,
            heard.y,
            mo,
            heard.state,
        );
        lemma_batch_verify_follows::<F, H>(vp.pcs, heard.comms, points, evals, mo, s);
        let t = BrakedownPcs::<F, H>::batch_verify_spec(
            vp.pcs,
            heard.comms,
            points,
            evals,
            mo,
            s,
        )->Ok_0;
        trace::lemma_follows_trans(heard.state, s, t);
        let states = lemma_shifts_are_shown::<F, H>(
            vp.pcs,
            heard.comms,
            shifts,
            vp.num_vars as nat,
            mo,
            t,
        );
        assert(proof_shows::<F, H, A>(steps, vp, instances, shifts, mo, st, heard, states));
    }
}

/// Whether the rotated query `q` is shown by a proof that is accepted in the state `done`: if its
/// commitment is there, a shift-open proof is accepted for it and the distance of the query's
/// rotation, after the circuit's own proof.
pub open spec fn rotation_is_shown<F: PrimeField, H: HashFunction, A: Steps<F, [u8; 32]>>(
    steps: A,
    vp: HyperPlonkVerifierParam<F, BrakedownPcs<F, H>>,
    instances: Seq<Seq<int>>,
    q: Query,
    mo: Model<[u8; 32]>,
    st: State<[u8; 32]>,
    done: State<[u8; 32]>,
) -> bool {
    let comms = protocol::read_rounds::<F, H>(vp, instances, mo, st)->Ok_0.comms;
    let plain = protocol::verify_spec::<F, H, A>(
        steps,
        vp,
        instances,
        Seq::empty(),
        mo,
        st,
    )->Ok_0;
    q.poly < comms.len() ==> exists|a: State<[u8; 32]>, b: State<[u8; 32]>|
        {
            &&& #[trigger] shift_is_shown::<F, H>(
                vp.pcs,
                comms[q.poly as int],
                queries::magnitude(q.rotation),
                vp.num_vars as nat,
                mo,
                a,
                b,
            )
            &&& trace::follows(a, plain)
            &&& trace::follows(done, b)
        }
}

/// Whenever a proof with shifts is accepted, then for every rotated query of the expression
/// whose commitment is there, a shift-open proof is accepted for that commitment and the
/// distance of the query's rotation, after the circuit's own proof.
pub proof fn law_rotated_queries_are_shown<F: PrimeField, H: HashFunction, A: Steps<F, [u8; 32]>>(
    steps: A,
    vp: HyperPlonkVerifierParam<F, BrakedownPcs<F, H>>,
    instances: Seq<Seq<int>>,
    q: Query,
    mo: Model<[u8; 32]>,
    st: State<[u8; 32]>,
)
    requires
        vp.pcs.param.code@.wf(),
        vp.num_witness_polys@.len() == vp.num_challenges@.len(),
        queries::queries(vp.expression@).contains(q),
        queries::is_rotated(q),
    ensures
        protocol::verify_spec::<F, H, A>(
            steps,
            vp,
            instances,
            hyperplonk_brakedown::shift_constraints(vp.expression@),
            mo,
            st,
        ) matches Ok(done) ==> rotation_is_shown::<F, H, A>(
            steps,
            vp,
            instances,
            q,
            mo,
            st,
            done,
        ),
{
    let shifts = hyperplonk_brakedown::shift_constraints(vp.expression@);
    if let Ok(done) = protocol::verify_spec::<F, H, A>(steps, vp, instances, shifts, mo, st) {
        law_accepted_proof_shows::<F, H, A>(steps, vp, instances, shifts, mo, st);
        let heard = protocol::read_rounds::<F, H>(vp, instances, mo, st)->Ok_0;
        let (points, evals, s) = steps.verify_zero_check_spec(
            vp.num_vars as nat,
            vp.expression@,
            instances,
            heard.challenges,
            heard.y,
            mo,
            heard.state,
        )->Ok_0;
        let t = BrakedownPcs::<F, H>::batch_verify_spec(
            vp.pcs,
            heard.comms,
            points,
            evals,
            mo,
            s,
        )->Ok_0;
        let states = lemma_shifts_are_shown::<F, H>(
            vp.pcs,
            heard.comms,
            shifts,
            vp.num_vars as nat,
            mo,
            t,
        );
        queries::law_every_rotated_query_has_a_constraint(vp.expression@, q);
        let i = choose|i: int|
            0 <= i < shifts.len() && {
                let c = #[trigger] shifts[i];
                c.poly_idx == q.poly && c.rotation == q.rotation && c.k == queries::magnitude(
                    q.rotation,
                )
            };
        assert(shifts[i].poly_idx == q.poly);
        assert forall|t: int| 0 <= t < states.len() - 1 implies trace::follows(
            states[t + 1],
            #[trigger] states[t],
        ) by {
            reveal(step_is_shown);
            let c = shifts[t];
        }
        lemma_chain_follows(states, 0, i);
        lemma_chain_follows(states, i + 1, states.len() - 1);
        if q.poly < heard.comms.len() {
            reveal(step_is_shown);
            assert(shift_is_shown::<F, H>(
                vp.pcs,
                heard.comms[q.poly as int],
                queries::magnitude(q.rotation),
                vp.num_vars as nat,
                mo,
                states[i],
                states[i + 1],
            ));
        }
    }
}

/// A proof has absorbed all values of all instances, in order, before anything else happened.
pub proof fn law_prover_begins_with_instances<
    F: PrimeField,
    H: HashFunction,
    A: Steps<F, [u8; 32]>,
    Ci: PlonkishCircuit<F>,
>(
    steps: A,
    pp: HyperPlonkProverParam<F, BrakedownPcs<F, H>>,
    circuit: Ci,
    shifts: Seq<ShiftConstraint>,
    mo: Model<[u8; 32]>,
    st: State<[u8; 32]>,
)
    requires
        pp.pcs.param.code@.wf(),
        protocol::can_prove::<F, H, A, Ci>(steps, pp, circuit),
    ensures
        protocol::prove_spec::<F, H, A, Ci>(steps, pp, circuit, shifts, mo, st) matches Ok(done)
            ==> (st.events + trace::fields(circuit.instances_spec().flatten())).is_prefix_of(
            done.events,
        ),
{
    if let Ok(done) = protocol::prove_spec::<F, H, A, Ci>(steps, pp, circuit, shifts, mo, st) {
        law_proof_says::<F, H, A, Ci>(steps, pp, circuit, shifts, mo, st);
        let (sent, states) = choose|sent: protocol::Sent, states: Seq<State<[u8; 32]>>|
            {
                &&& #[trigger] proof_says::<F, H, A, Ci>(
                    steps,
                    pp,
                    circuit,
                    shifts,
                    mo,
                    st,
                    sent,
                    states,
                )
                &&& states.last() == done
            };
        lemma_sent_follows::<F, H, A, Ci>(steps, pp, circuit, mo, st);
        assert forall|t: int| 0 <= t < states.len() - 1 implies trace::follows(
            states[t + 1],
            #[trigger] states[t],
        ) by {
            reveal(step_is_said);
            let c = shifts[t];
        }
        lemma_chain_follows(states, 0, states.len() - 1);
        trace::lemma_follows_trans(sent.state, states[0], done);
        let front = st.events + trace::fields(circuit.instances_spec().flatten());
        lemma_prefix_stays(front, sent.state, done);
    }
}

/// A proof that is accepted has absorbed all values of all instances, in order, before anything
/// else happened.
pub proof fn law_verifier_begins_with_instances<
    F: PrimeField,
    H: HashFunction,
    A: Steps<F, [u8; 32]>,
>(
    steps: A,
    vp: HyperPlonkVerifierParam<F, BrakedownPcs<F, H>>,
    instances: Seq<Seq<int>>,
    shifts: Seq<ShiftConstraint>,
    mo: Model<[u8; 32]>,
    st: State<[u8; 32]>,
)
    requires
        vp.pcs.param.code@.wf(),
        vp.num_witness_polys@.len() == vp.num_challenges@.len(),
    ensures
        protocol::verify_spec::<F, H, A>(steps, vp, instances, shifts, mo, st) matches Ok(done)
            ==> (st.events + trace::fields(instances.flatten())).is_prefix_of(done.events),
{
    if let Ok(done) = protocol::verify_spec::<F, H, A>(steps, vp, instances, shifts, mo, st) {
        law_accepted_proof_shows::<F, H, A>(steps, vp, instances, shifts, mo, st);
        let (heard, states) = choose|heard: protocol::Heard, states: Seq<State<[u8; 32]>>|
            {
                &&& #[trigger] proof_shows::<F, H, A>(
                    steps,
                    vp,
                    instances,
                    shifts,
                    mo,
                    st,
                    heard,
                    states,
                )
                &&& states.last() == done
            };
        let (witness, ms, hzs) = choose|
            witness: Seq<Seq<BrakedownCommitment>>,
            ms: Seq<BrakedownCommitment>,
            hzs: Seq<BrakedownCommitment>,
        | #[trigger]
            rounds::heard_in_rounds::<F, H>(vp, instances, mo, st, heard, witness, ms, hzs);
        assert forall|t: int| 0 <= t < states.len() - 1 implies trace::follows(
            states[t + 1],
            #[trigger] states[t],
        ) by {
            reveal(step_is_shown);
            let c = shifts[t];
        }
        lemma_chain_follows(states, 0, states.len() - 1);
        trace::lemma_follows_trans(heard.state, states[0], done);
        let front = st.events + trace::fields(instances.flatten());
        assert(front =~= heard.state.events.subrange(0, front.len() as int));
        lemma_prefix_stays(front, heard.state, done);
    }
}

/// Accepted proofs for different instances of the same shape have left different events behind.
pub proof fn law_accepted_instances_are_told_apart<
    F: PrimeField,
    H: HashFunction,
    A: Steps<F, [u8; 32]>,
>(
    steps: A,
    vp: HyperPlonkVerifierParam<F, BrakedownPcs<F, H>>,
    a: Seq<Seq<int>>,
    b: Seq<Seq<int>>,
    shifts: Seq<ShiftConstraint>,
    mo: Model<[u8; 32]>,
    st: State<[u8; 32]>,
    r: State<[u8; 32]>,
)
    requires
        vp.pcs.param.code@.wf(),
        vp.num_witness_polys@.len() == vp.num_challenges@.len(),
        a.len() == b.len(),
        forall|i: int| 0 <= i < a.len() ==> (#[trigger] a[i]).len() == b[i].len(),
        a != b,
        r.events == st.events,
        protocol::verify_spec::<F, H, A>(steps, vp, a, shifts, mo, st) is Ok,
        protocol::verify_spec::<F, H, A>(steps, vp, b, shifts, mo, r) is Ok,
    ensures
        protocol::verify_spec::<F, H, A>(steps, vp, a, shifts, mo, st)->Ok_0.events
            != protocol::verify_spec::<F, H, A>(steps, vp, b, shifts, mo, r)->Ok_0.events,
{
    law_verifier_begins_with_instances::<F, H, A>(steps, vp, a, shifts, mo, st);
    law_verifier_begins_with_instances::<F, H, A>(steps, vp, b, shifts, mo, r);
    let s = protocol::verify_spec::<F, H, A>(steps, vp, a, shifts, mo, st)->Ok_0;
    let t = protocol::verify_spec::<F, H, A>(steps, vp, b, shifts, mo, r)->Ok_0;
    rounds::lemma_flattened_len(a, b);
    if s.events == t.events {
        let fa = st.events + trace::fields(a.flatten());
        let fb = st.events + trace::fields(b.flatten());
        assert(fa =~= fb);
        let n = st.events.len() as int;
        assert forall|i: int| 0 <= i < a.flatten().len() implies a.flatten()[i]
            == b.flatten()[i] by {
            assert(fa[n + i] == trace::fields::<[u8; 32]>(a.flatten())[i]);
            assert(fb[n + i] == trace::fields::<[u8; 32]>(b.flatten())[i]);
        }
        assert(a.flatten() =~= b.flatten());
        rounds::law_flattened_lists_differ(a, b);
    }
}

/// A prefix of what happened is a prefix of what happened later.
proof fn lemma_prefix_stays(front: Seq<Event<[u8; 32]>>, s: State<[u8; 32]>, t: State<[u8; 32]>)
    requires
        front.is_prefix_of(s.events),
        trace::follows(t, s),
    ensures
        front.is_prefix_of(t.events),
{
    assert(front =~= t.events.subrange(0, front.len() as int)) by {
        assert forall|i: int| 0 <= i < front.len() implies front[i] == t.events[i] by {
            assert(front[i] == s.events.subrange(0, front.len() as int)[i]);
            assert(s.events[i] == t.events.take(s.events.len() as int)[i]);
        }
    }
}

} // verus!
