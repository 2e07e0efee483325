//! What happens in the rounds before the zero-check.

use crate::backend;
use crate::backend::hyperplonk;
use crate::backend::hyperplonk::{HyperPlonkProverParam, HyperPlonkVerifierParam, Steps};
use crate::backend::hyperplonk_brakedown;
use crate::backend::hyperplonk_brakedown::protocol;
use crate::backend::{PlonkishCircuit, PlonkishCircuitInfo};
use crate::pcs;
use crate::pcs::multilinear::brakedown;
use crate::pcs::multilinear::brakedown::acceptance;
use crate::pcs::multilinear::brakedown::batching;
use crate::pcs::multilinear::brakedown::{
    BrakedownCommitment, BrakedownParam, BrakedownPcs, BrakedownProverParam,
    BrakedownVerifierParam,
};
use crate::pcs::PolynomialCommitmentScheme;
use crate::util::field::PrimeField;
use crate::util::hash::HashFunction;
use crate::util::transcript;
use crate::util::transcript::trace;
use crate::util::transcript::{Event, Model, State};
use crate::ErrorView;
use vstd::arithmetic::power::pow;
use vstd::prelude::*;

verus! {

/// Elements that are absorbed are absorbed in their order, every one of them.
pub proof fn law_values_are_absorbed<C>(mo: Model<C>, st: State<C>, vs: Seq<int>)
    ensures
        protocol::absorb_fields(mo, st, vs) matches Ok(s) ==> s.events == st.events
            + trace::fields(vs) && s.proof == st.proof,
    decreases vs.len(),
{
    if vs.len() == 0 {
        assert(st.events + trace::fields(vs) =~= st.events);
    } else {
        law_values_are_absorbed(mo, st, vs.drop_last());
        if let Ok(s) = protocol::absorb_fields(mo, st, vs) {
            assert(s.events =~= st.events + trace::fields(vs));
        }
    }
}

/// All values of all instances are absorbed: column by column, and in each its values in order.
pub proof fn law_instances_are_absorbed<C>(mo: Model<C>, st: State<C>, instances: Seq<Seq<int>>)
    ensures
        protocol::absorb_instances(mo, st, instances) matches Ok(s) ==> s.events == st.events
            + trace::fields(instances.flatten()) && s.proof == st.proof,
    decreases instances.len(),
{
    if instances.len() == 0 {
        assert(instances.flatten() =~= Seq::empty());
        assert(st.events + trace::fields(instances.flatten()) =~= st.events);
    } else {
        law_instances_are_absorbed(mo, st, instances.drop_last());
        if let Ok(s) = protocol::absorb_instances(mo, st, instances) {
            let t = protocol::absorb_instances(mo, st, instances.drop_last())->Ok_0;
            law_values_are_absorbed(mo, t, instances.last());
            trace::lemma_flatten_last(instances);
            assert(s.events =~= st.events + trace::fields(instances.flatten()));
        }
    }
}

/// Lists of lists of the same shape that hold the same values in order are the same.
pub proof fn law_flattened_lists_differ(a: Seq<Seq<int>>, b: Seq<Seq<int>>)
    requires
        a.len() == b.len(),
        forall|i: int| 0 <= i < a.len() ==> (#[trigger] a[i]).len() == b[i].len(),
        a.flatten() == b.flatten(),
    ensures
        a == b,
    decreases a.len(),
{
    if a.len() == 0 {
        assert(a =~= b);
    } else {
        let (x, y) = (a.last(), b.last());
        assert(a[a.len() - 1].len() == b[a.len() - 1].len());
        trace::lemma_flatten_last(a);
        trace::lemma_flatten_last(b);
        let whole = a.flatten();
        let n = whole.len() - x.len();
        assert(x =~= whole.skip(n));
        assert(y =~= whole.skip(n));
        assert(a.drop_last().flatten() =~= whole.take(n));
        assert(b.drop_last().flatten() =~= whole.take(n));
        assert forall|i: int| 0 <= i < a.drop_last().len() implies (
        #[trigger] a.drop_last()[i]).len() == b.drop_last()[i].len() by {
            assert(a[i].len() == b[i].len());
        }
        law_flattened_lists_differ(a.drop_last(), b.drop_last());
        assert(a =~= a.drop_last().push(x));
        assert(b =~= b.drop_last().push(y));
    }
}

/// Different instances of the same shape leave different events behind, whatever else happens
/// after them; so all challenges are drawn after different events.
pub proof fn law_different_instances_are_told_apart<C>(
    mo: Model<C>,
    st: State<C>,
    a: Seq<Seq<int>>,
    b: Seq<Seq<int>>,
    s: State<C>,
    t: State<C>,
)
    requires
        a.len() == b.len(),
        forall|i: int| 0 <= i < a.len() ==> (#[trigger] a[i]).len() == b[i].len(),
        a != b,
        protocol::absorb_instances(mo, st, a) is Ok,
        protocol::absorb_instances(mo, st, b) is Ok,
        trace::follows(s, protocol::absorb_instances(mo, st, a)->Ok_0),
        trace::follows(t, protocol::absorb_instances(mo, st, b)->Ok_0),
    ensures
        s.events != t.events,
{
    law_instances_are_absorbed(mo, st, a);
    law_instances_are_absorbed(mo, st, b);
    let ea = protocol::absorb_instances(mo, st, a)->Ok_0.events;
    let eb = protocol::absorb_instances(mo, st, b)->Ok_0.events;
    lemma_flattened_len(a, b);
    if s.events == t.events {
        assert(ea =~= eb);
        let n = st.events.len() as int;
        let fa = a.flatten();
        let fb = b.flatten();
        assert forall|i: int| 0 <= i < fa.len() implies fa[i] == fb[i] by {
            assert(ea[n + i] == trace::fields::<C>(fa)[i]);
            assert(eb[n + i] == trace::fields::<C>(fb)[i]);
        }
        assert(fa =~= fb);
        law_flattened_lists_differ(a, b);
    }
}

/// Lists of the same shape hold equally many values.
pub proof fn lemma_flattened_len(a: Seq<Seq<int>>, b: Seq<Seq<int>>)
    requires
        a.len() == b.len(),
        forall|i: int| 0 <= i < a.len() ==> (#[trigger] a[i]).len() == b[i].len(),
    ensures
        a.flatten().len() == b.flatten().len(),
    decreases a.len(),
{
    if a.len() == 0 {
        assert(a =~= b);
    } else {
        trace::lemma_flatten_last(a);
        trace::lemma_flatten_last(b);
        assert(a[a.len() - 1].len() == b[a.len() - 1].len());
        assert forall|i: int| 0 <= i < a.drop_last().len() implies (
        #[trigger] a.drop_last()[i]).len() == b.drop_last()[i].len() by {
            assert(a[i].len() == b[i].len());
        }
        lemma_flattened_len(a.drop_last(), b.drop_last());
    }
}

/// The first `n` powers of a challenge are its powers.
pub proof fn law_powers_of_a_challenge(x: int, n: nat, m: int, i: int)
    requires
        0 <= i < n,
    ensures
        protocol::powers_of(x, n, m).len() == n,
        protocol::powers_of(x, n, m)[i] == pow(x, i as nat) % m,
{
    batching::law_powers(x, i as nat);
}

/// The events of the phases of the witness: in each, the roots of its commitments are absorbed,
/// and then its challenges are drawn.
pub open spec fn phases_events(comms: Seq<Seq<BrakedownCommitment>>, num_challenges: Seq<usize>) -> Seq<
    Event<[u8; 32]>,
> {
    Seq::new(
        num_challenges.len(),
        |j: int|
            trace::chunks(acceptance::roots(comms[j])) + trace::squeezes(num_challenges[j] as nat),
    ).flatten()
}

/// The events of all rounds before the zero-check: the instances, the phases of the witness,
/// the draw of `beta`, the commitments for the lookups, the draw of `gamma`, the commitments of
/// the helpers, and the draws of `alpha` and of one challenge per variable.
pub open spec fn rounds_events(
    instances: Seq<Seq<int>>,
    witness: Seq<Seq<BrakedownCommitment>>,
    num_challenges: Seq<usize>,
    ms: Seq<BrakedownCommitment>,
    hzs: Seq<BrakedownCommitment>,
    num_vars: nat,
) -> Seq<Event<[u8; 32]>> {
    trace::fields(instances.flatten()) + phases_events(witness, num_challenges) + trace::squeezes(1)
        + trace::chunks(acceptance::roots(ms)) + trace::squeezes(1) + trace::chunks(
        acceptance::roots(hzs),
    ) + trace::squeezes(1 + num_vars)
}

/// One more phase.
proof fn lemma_phases_events_push(
    comms: Seq<Seq<BrakedownCommitment>>,
    num_challenges: Seq<usize>,
)
    requires
        comms.len() == num_challenges.len(),
        comms.len() > 0,
    ensures
        phases_events(comms, num_challenges) == phases_events(
            comms.drop_last(),
            num_challenges.drop_last(),
        ) + (trace::chunks(acceptance::roots(comms.last())) + trace::squeezes(
            num_challenges.last() as nat,
        )),
{
    let f = |comms: Seq<Seq<BrakedownCommitment>>, nums: Seq<usize>|
        Seq::new(
            nums.len(),
            |j: int|
                trace::chunks::<[u8; 32]>(acceptance::roots(comms[j])) + trace::squeezes(
                    nums[j] as nat,
                ),
        );
    let all = f(comms, num_challenges);
    trace::lemma_flatten_last(all);
    assert(all.drop_last() =~= f(comms.drop_last(), num_challenges.drop_last()));
}

/// What is drawn in a phase.
proof fn lemma_drawn_phase(
    mo: Model<[u8; 32]>,
    before: State<[u8; 32]>,
    comms: Seq<BrakedownCommitment>,
    s: State<[u8; 32]>,
    n: nat,
)
    requires
        s.events == before.events + trace::chunks(acceptance::roots(comms)),
    ensures
        trace::drawn(
            mo,
            before.events,
            trace::chunks(acceptance::roots(comms)) + trace::squeezes(n),
        ) == transcript::squeeze_many(mo, s, n).0,
{
    let sent = trace::chunks(acceptance::roots(comms));
    trace::lemma_drawn_add(mo, before.events, sent, trace::squeezes(n));
    trace::lemma_drawn_nothing(mo, before.events, sent);
    trace::lemma_drawn_squeezes(mo, s, n);
    let cs = transcript::squeeze_many(mo, s, n).0;
    assert(Seq::<int>::empty() + cs =~= cs);
}

/// Whether the phases were run: in each the polynomials that the circuit makes of the
/// challenges drawn so far are committed to, every one by its own commitment.
pub open spec fn phases_ran<F: PrimeField, H: HashFunction, Ci: PlonkishCircuit<F>>(
    pp: BrakedownProverParam<F>,
    circuit: Ci,
    num_challenges: Seq<usize>,
    challenges: Seq<int>,
    polys: Seq<Seq<Seq<int>>>,
    comms: Seq<Seq<BrakedownCommitment>>,
) -> bool {
    &&& polys.len() == num_challenges.len()
    &&& comms.len() == num_challenges.len()
    &&& forall|j: int|
        0 <= j < num_challenges.len() ==> {
            &&& circuit.synthesize_spec(
                j as nat,
                challenges.take(backend::total(num_challenges.take(j))),
            ) == Ok::<Seq<Seq<int>>, ErrorView>(#[trigger] polys[j])
            &&& comms[j].len() == polys[j].len()
            &&& forall|i: int|
                0 <= i < polys[j].len() ==> brakedown::commit_evals_spec::<F, H>(
                    pp.param.code@,
                    #[trigger] polys[j][i],
                ) == Ok::<BrakedownCommitment, ErrorView>(comms[j][i])
        }
}

/// The prover's phases.
proof fn lemma_phases_ran<F: PrimeField, H: HashFunction, Ci: PlonkishCircuit<F>>(
    pp: BrakedownProverParam<F>,
    circuit: Ci,
    num_challenges: Seq<usize>,
    mo: Model<[u8; 32]>,
    st: State<[u8; 32]>,
) -> (r: (Seq<Seq<Seq<int>>>, Seq<Seq<BrakedownCommitment>>))
    requires
        protocol::prove_phases::<F, H, Ci>(pp, circuit, num_challenges, mo, st) is Ok,
    ensures
        ({
            let p = protocol::prove_phases::<F, H, Ci>(pp, circuit, num_challenges, mo, st)->Ok_0;
            let events = phases_events(r.1, num_challenges);
            &&& phases_ran::<F, H, Ci>(pp, circuit, num_challenges, p.challenges, r.0, r.1)
            &&& p.polys == r.0.flatten()
            &&& p.comms == r.1.flatten()
            &&& p.state.events == st.events + events
            &&& p.challenges == trace::drawn(mo, st.events, events)
            &&& p.challenges.len() == backend::total(num_challenges)
        }),
    decreases num_challenges.len(),
{
    let p = protocol::prove_phases::<F, H, Ci>(pp, circuit, num_challenges, mo, st)->Ok_0;
    if num_challenges.len() == 0 {
        let none: Seq<Seq<BrakedownCommitment>> = Seq::empty();
        let no_polys: Seq<Seq<Seq<int>>> = Seq::empty();
        assert(phases_events(none, num_challenges) =~= Seq::empty());
        assert(no_polys.flatten() =~= Seq::empty());
        assert(none.flatten() =~= Seq::empty());
        assert(st.events + Seq::empty() =~= st.events);
        (no_polys, none)
    } else {
        let fewer = num_challenges.drop_last();
        let (polys0, comms0) = lemma_phases_ran::<F, H, Ci>(pp, circuit, fewer, mo, st);
        let q = protocol::prove_phases::<F, H, Ci>(pp, circuit, fewer, mo, st)->Ok_0;
        let k = (num_challenges.len() - 1) as nat;
        let more = circuit.synthesize_spec(k, q.challenges)->Ok_0;
        acceptance::law_sent_commitments::<F, H>(pp, more, mo, q.state);
        let (cm, s) = pcs::batch_commit_and_write_spec::<F, BrakedownPcs<F, H>>(
            pp,
            more,
            mo,
            q.state,
        )->Ok_0;
        let n = num_challenges.last() as nat;
        let (cs, t) = transcript::squeeze_many(mo, s, n);
        trace::law_challenges_are_drawn_in_turn(mo, s, n);
        let polys = polys0.push(more);
        let comms = comms0.push(cm);
        assert(polys.drop_last() =~= polys0);
        assert(comms.drop_last() =~= comms0);
        trace::lemma_flatten_last(polys);
        trace::lemma_flatten_last(comms);
        lemma_phases_events_push(comms, num_challenges);
        let before = phases_events(comms0, fewer);
        let here = trace::chunks(acceptance::roots(cm)) + trace::squeezes(n);
        assert(p.state.events =~= st.events + (before + here));
        trace::lemma_drawn_add(mo, st.events, before, here);
        lemma_drawn_phase(mo, q.state, cm, s, n);
        assert(p.challenges == q.challenges + cs);
        assert forall|j: int| 0 <= j < num_challenges.len() implies {
            &&& circuit.synthesize_spec(
                j as nat,
                p.challenges.take(backend::total(num_challenges.take(j))),
            ) == Ok::<Seq<Seq<int>>, ErrorView>(#[trigger] polys[j])
            &&& comms[j].len() == polys[j].len()
            &&& forall|i: int|
                0 <= i < polys[j].len() ==> brakedown::commit_evals_spec::<F, H>(
                    pp.param.code@,
                    #[trigger] polys[j][i],
                ) == Ok::<BrakedownCommitment, ErrorView>(comms[j][i])
        } by {
            if j < k {
                assert(polys[j] == polys0[j]);
                assert(num_challenges.take(j) =~= fewer.take(j));
                backend::lemma_total_prefix(fewer, j);
                assert(p.challenges.take(backend::total(num_challenges.take(j)))
                    =~= q.challenges.take(backend::total(fewer.take(j))));
            } else {
                assert(num_challenges.take(j) =~= fewer);
                assert(p.challenges.take(backend::total(fewer)) =~= q.challenges);
            }
        }
        (polys, comms)
    }
}

/// The verifier's phases.
proof fn lemma_phases_read<F: PrimeField, H: HashFunction>(
    vp: BrakedownVerifierParam<F>,
    num_witness_polys: Seq<usize>,
    num_challenges: Seq<usize>,
    mo: Model<[u8; 32]>,
    st: State<[u8; 32]>,
) -> (r: Seq<Seq<BrakedownCommitment>>)
    requires
        num_witness_polys.len() == num_challenges.len(),
        protocol::read_phases::<F, H>(vp, num_witness_polys, num_challenges, mo, st) is Ok,
    ensures
        ({
            let (comms, challenges, s) = protocol::read_phases::<F, H>(
                vp,
                num_witness_polys,
                num_challenges,
                mo,
                st,
            )->Ok_0;
            let events = phases_events(r, num_challenges);
            &&& r.len() == num_challenges.len()
            &&& forall|j: int|
                0 <= j < num_challenges.len() ==> (#[trigger] r[j]).len() == num_witness_polys[j]
            &&& comms == r.flatten()
            &&& s.events == st.events + events
            &&& challenges == trace::drawn(mo, st.events, events)
        }),
    decreases num_challenges.len(),
{
    if num_challenges.len() == 0 {
        let none: Seq<Seq<BrakedownCommitment>> = Seq::empty();
        assert(phases_events(none, num_challenges) =~= Seq::empty());
        assert(none.flatten() =~= Seq::empty());
        assert(st.events + Seq::empty() =~= st.events);
        none
    } else {
        let fewer = num_challenges.drop_last();
        let fewer_polys = num_witness_polys.drop_last();
        let r0 = lemma_phases_read::<F, H>(vp, fewer_polys, fewer, mo, st);
        let (comms0, challenges0, q) = protocol::read_phases::<F, H>(
            vp,
            fewer_polys,
            fewer,
            mo,
            st,
        )->Ok_0;
        acceptance::law_read_roots_are_absorbed(mo, q, num_witness_polys.last() as nat);
        let (cm, s) = brakedown::read_roots(mo, q, num_witness_polys.last() as nat)->Ok_0;
        let n = num_challenges.last() as nat;
        trace::law_challenges_are_drawn_in_turn(mo, s, n);
        let r = r0.push(cm);
        assert(r.drop_last() =~= r0);
        trace::lemma_flatten_last(r);
        lemma_phases_events_push(r, num_challenges);
        let before = phases_events(r0, fewer);
        let here = trace::chunks(acceptance::roots(cm)) + trace::squeezes(n);
        let t = transcript::squeeze_many(mo, s, n).1;
        assert(t.events =~= st.events + (before + here));
        trace::lemma_drawn_add(mo, st.events, before, here);
        lemma_drawn_phase(mo, q, cm, s, n);
        assert forall|j: int| 0 <= j < num_challenges.len() implies (#[trigger] r[j]).len()
            == num_witness_polys[j] by {
            if j < fewer.len() {
                assert(r[j] == r0[j]);
                assert(fewer_polys[j] == num_witness_polys[j]);
            }
        }
        r
    }
}

/// What is drawn in all rounds.
proof fn lemma_drawn_rounds(
    mo: Model<[u8; 32]>,
    st: Seq<Event<[u8; 32]>>,
    instances: Seq<Seq<int>>,
    witness: Seq<Seq<BrakedownCommitment>>,
    num_challenges: Seq<usize>,
    ms: Seq<BrakedownCommitment>,
    hzs: Seq<BrakedownCommitment>,
    num_vars: nat,
    s1: State<[u8; 32]>,
    s2: State<[u8; 32]>,
    s4: State<[u8; 32]>,
    s6: State<[u8; 32]>,
    challenges: Seq<int>,
)
    requires
        s1.events == st + trace::fields(instances.flatten()),
        s2.events == s1.events + phases_events(witness, num_challenges),
        challenges == trace::drawn(mo, s1.events, phases_events(witness, num_challenges)),
        s4.events == transcript::squeeze(mo, s2).1.events + trace::chunks(acceptance::roots(ms)),
        s6.events == transcript::squeeze(mo, s4).1.events + trace::chunks(acceptance::roots(hzs)),
    ensures
        ({
            let (alpha, s7) = transcript::squeeze(mo, s6);
            let (y, s8) = transcript::squeeze_many(mo, s7, num_vars);
            let events = rounds_events(instances, witness, num_challenges, ms, hzs, num_vars);
            &&& s8.events == st + events
            &&& trace::drawn(mo, st, events) == challenges + seq![
                transcript::squeeze(mo, s2).0,
                transcript::squeeze(mo, s4).0,
                alpha,
            ] + y
        }),
{
    let (beta, s3) = transcript::squeeze(mo, s2);
    let (gamma, s5) = transcript::squeeze(mo, s4);
    let (alpha, s7) = transcript::squeeze(mo, s6);
    let (y, s8) = transcript::squeeze_many(mo, s7, num_vars);
    trace::law_challenges_are_drawn_in_turn(mo, s7, num_vars);
    let a = trace::fields(instances.flatten());
    let b = phases_events(witness, num_challenges);
    let one = trace::squeezes::<[u8; 32]>(1);
    let c = trace::chunks(acceptance::roots(ms));
    let d = trace::chunks(acceptance::roots(hzs));
    let last = trace::squeezes::<[u8; 32]>(1 + num_vars);
    let events = rounds_events(instances, witness, num_challenges, ms, hzs, num_vars);
    assert(s3.events =~= s2.events + one);
    assert(s5.events =~= s4.events + one);
    assert(s8.events =~= st + events);
    trace::lemma_drawn_add(mo, st, a + b + one + c + one + d, last);
    trace::lemma_drawn_add(mo, st, a + b + one + c + one, d);
    trace::lemma_drawn_add(mo, st, a + b + one + c, one);
    trace::lemma_drawn_add(mo, st, a + b + one, c);
    trace::lemma_drawn_add(mo, st, a + b, one);
    trace::lemma_drawn_add(mo, st, a, b);
    assert(st + (a + b) =~= s2.events);
    assert(st + (a + b + one) =~= s3.events);
    assert(st + (a + b + one + c) =~= s4.events);
    assert(st + (a + b + one + c + one) =~= s5.events);
    assert(st + (a + b + one + c + one + d) =~= s6.events);
    trace::lemma_drawn_nothing(mo, st, a);
    trace::lemma_drawn_nothing(mo, s3.events, c);
    trace::lemma_drawn_nothing(mo, s5.events, d);
    lemma_drawn_one(mo, s2);
    lemma_drawn_one(mo, s4);
    trace::lemma_drawn_squeezes(mo, s6, 1 + num_vars);
    lemma_squeeze_first(mo, s6, num_vars);
    assert(trace::drawn(mo, st, events) =~= challenges + seq![beta, gamma, alpha] + y);
}

/// One challenge that is drawn.
proof fn lemma_drawn_one(mo: Model<[u8; 32]>, s: State<[u8; 32]>)
    ensures
        trace::drawn(mo, s.events, trace::squeezes(1)) == seq![transcript::squeeze(mo, s).0],
{
    trace::lemma_drawn_squeezes(mo, s, 1);
    trace::law_challenges_are_drawn_in_turn(mo, s, 1);
    assert(s.events + trace::squeezes(0) =~= s.events);
    assert(transcript::squeeze_many(mo, s, 1).0 =~= seq![transcript::squeeze(mo, s).0]);
}

/// Drawing one challenge and then more is drawing one more.
proof fn lemma_squeeze_first(mo: Model<[u8; 32]>, s: State<[u8; 32]>, n: nat)
    ensures
        transcript::squeeze_many(mo, s, 1 + n).0 == seq![transcript::squeeze(mo, s).0]
            + transcript::squeeze_many(mo, transcript::squeeze(mo, s).1, n).0,
{
    let (c, t) = transcript::squeeze(mo, s);
    let all = transcript::squeeze_many(mo, s, 1 + n).0;
    let rest = transcript::squeeze_many(mo, t, n).0;
    trace::law_challenges_are_drawn_in_turn(mo, s, 1 + n);
    trace::law_challenges_are_drawn_in_turn(mo, t, n);
    assert forall|j: int| 0 <= j < 1 + n implies all[j] == (seq![c] + rest)[j] by {
        if j == 0 {
            assert(s.events + trace::squeezes(0) =~= s.events);
        } else {
            assert(t.events + trace::squeezes((j - 1) as nat) =~= s.events + trace::squeezes(
                j as nat,
            ));
            assert(rest[j - 1] == (mo.challenge)(t.events + trace::squeezes((j - 1) as nat)));
        }
    }
    assert(all =~= seq![c] + rest);
}

/// The longest list is as long as one of them, and none is longer.
pub proof fn law_longest_list<V>(lists: Seq<Seq<V>>)
    ensures
        forall|i: int| 0 <= i < lists.len() ==> (#[trigger] lists[i]).len() <= protocol::max_width(lists),
        lists.len() > 0 ==> exists|i: int|
            0 <= i < lists.len() && (#[trigger] lists[i]).len() == protocol::max_width(lists),
        lists.len() == 0 ==> protocol::max_width(lists) == 0,
    decreases lists.len(),
{
    if lists.len() > 0 {
        let fewer = lists.drop_last();
        law_longest_list(fewer);
        assert forall|i: int| 0 <= i < lists.len() implies (#[trigger] lists[i]).len()
            <= protocol::max_width(lists) by {
            if i < fewer.len() {
                assert(fewer[i] == lists[i]);
            }
        }
        if lists.last().len() > protocol::max_width(fewer) || fewer.len() == 0 {
            assert(lists[lists.len() - 1].len() == protocol::max_width(lists));
        } else {
            let i = choose|i: int|
                0 <= i < fewer.len() && (#[trigger] fewer[i]).len() == protocol::max_width(fewer);
            assert(lists[i].len() == protocol::max_width(lists));
        }
    }
}

/// Whether the helpers are those of the lookups and the permutation: the lookups are compressed
/// with the powers of `beta`, as many as the widest lookup needs, and `beta` and `gamma` are
/// the challenges drawn after the phases.
pub open spec fn helpers_made<F: PrimeField, H: HashFunction, A: Steps<F, [u8; 32]>>(
    steps: A,
    pp: HyperPlonkProverParam<F, BrakedownPcs<F, H>>,
    polys: Seq<Seq<int>>,
    challenges: Seq<int>,
    ms: Seq<Seq<int>>,
    hzs: Seq<Seq<int>>,
) -> bool {
    let k = backend::total(pp.num_challenges@);
    let (beta, gamma) = (challenges[k], challenges[k + 1]);
    let lookups = hyperplonk::lookups_view(pp.lookups@);
    let betas = Seq::new(
        protocol::max_width(lookups),
        |i: int| pow(beta, i as nat) % F::modulus(),
    );
    let compressed = steps.lookup_compressed_polys_spec(lookups, polys, challenges.take(k), betas);
    &&& challenges.len() == k + 3
    &&& steps.lookup_m_polys_spec(compressed) == Ok::<Seq<Seq<int>>, ErrorView>(ms)
    &&& hzs == steps.lookup_h_polys_spec(compressed, ms, gamma) + steps.permutation_z_polys_spec(
        pp.num_permutation_z_polys as nat,
        hyperplonk::indexed_vals(pp.permutation_polys@),
        polys,
        beta,
        gamma,
    )
}

/// What the prover has sent before the zero-check. Everything that happened is what
/// [`rounds_events`] says; the challenges are those drawn in the course of it. The polynomials
/// are those of the instances, of preprocessing, of the phases, of the permutation and the
/// helpers, which are made as [`helpers_made`] says; and the commitments stand in the same order, those of the phases and the helpers
/// each for its own polynomial.
pub open spec fn sent_in_rounds<
    F: PrimeField,
    H: HashFunction,
    A: Steps<F, [u8; 32]>,
    Ci: PlonkishCircuit<F>,
>(
    steps: A,
    pp: HyperPlonkProverParam<F, BrakedownPcs<F, H>>,
    circuit: Ci,
    mo: Model<[u8; 32]>,
    st: State<[u8; 32]>,
    sent: protocol::Sent,
    wpolys: Seq<Seq<Seq<int>>>,
    wcomms: Seq<Seq<BrakedownCommitment>>,
    ms: Seq<Seq<int>>,
    m_comms: Seq<BrakedownCommitment>,
    hzs: Seq<Seq<int>>,
    hz_comms: Seq<BrakedownCommitment>,
) -> bool {
    let n = pp.num_vars as nat;
    let instances = circuit.instances_spec();
    let events = rounds_events(instances, wcomms, pp.num_challenges@, m_comms, hz_comms, n);
    let code = pp.pcs.param.code@;
    &&& sent.state.events == st.events + events
    &&& sent.challenges + sent.y == trace::drawn(mo, st.events, events)
    &&& sent.y.len() == n
    &&& phases_ran::<F, H, Ci>(
        pp.pcs,
        circuit,
        pp.num_challenges@,
        sent.challenges,
        wpolys,
        wcomms,
    )
    &&& sent.polys == steps.instance_polys_spec(n, instances) + pcs::owned_vals(
        pp.preprocess_polys@,
    ) + wpolys.flatten() + protocol::without_indices(
        hyperplonk::indexed_vals(pp.permutation_polys@),
    ) + ms + hzs
    &&& sent.comms == Seq::new(
        pp.num_instances@.len(),
        |i: int| brakedown::empty_commitment(),
    ) + pp.preprocess_comms@ + wcomms.flatten() + pp.permutation_comms@ + m_comms + hz_comms
    &&& helpers_made::<F, H, A>(
        steps,
        pp,
        steps.instance_polys_spec(n, instances) + pcs::owned_vals(pp.preprocess_polys@)
            + wpolys.flatten(),
        sent.challenges,
        ms,
        hzs,
    )
    &&& m_comms.len() == ms.len()
    &&& hz_comms.len() == hzs.len()
    &&& forall|i: int|
        0 <= i < ms.len() ==> brakedown::commit_evals_spec::<F, H>(code, #[trigger] ms[i]) == Ok::<
            BrakedownCommitment,
            ErrorView,
        >(m_comms[i])
    &&& forall|i: int|
        0 <= i < hzs.len() ==> brakedown::commit_evals_spec::<F, H>(code, #[trigger] hzs[i]) == Ok::<
            BrakedownCommitment,
            ErrorView,
        >(hz_comms[i])
}

/// Before the zero-check, all values of all instances, all commitments and all challenges have
/// happened in their order, as [`sent_in_rounds`] says.
pub proof fn law_sent_in_rounds<
    F: PrimeField,
    H: HashFunction,
    A: Steps<F, [u8; 32]>,
    Ci: PlonkishCircuit<F>,
>(
    steps: A,
    pp: HyperPlonkProverParam<F, BrakedownPcs<F, H>>,
    circuit: Ci,
    mo: Model<[u8; 32]>,
    st: State<[u8; 32]>,
)
    ensures
        protocol::prove_rounds::<F, H, A, Ci>(steps, pp, circuit, mo, st) matches Ok(sent)
            ==> exists|
            wpolys: Seq<Seq<Seq<int>>>,
            wcomms: Seq<Seq<BrakedownCommitment>>,
            ms: Seq<Seq<int>>,
            m_comms: Seq<BrakedownCommitment>,
            hzs: Seq<Seq<int>>,
            hz_comms: Seq<BrakedownCommitment>,
        | #[trigger]
            sent_in_rounds::<F, H, A, Ci>(
                steps,
                pp,
                circuit,
                mo,
                st,
                sent,
                wpolys,
                wcomms,
                ms,
                m_comms,
                hzs,
                hz_comms,
            ),
{
    if let Ok(sent) = protocol::prove_rounds::<F, H, A, Ci>(steps, pp, circuit, mo, st) {
        let n = pp.num_vars as nat;
        let instances = circuit.instances_spec();
        law_instances_are_absorbed(mo, st, instances);
        let s1 = protocol::absorb_instances(mo, st, instances)->Ok_0;
        let (wpolys, wcomms) = lemma_phases_ran::<F, H, Ci>(
            pp.pcs,
            circuit,
            pp.num_challenges@,
            mo,
            s1,
        );
        let p = protocol::prove_phases::<F, H, Ci>(
            pp.pcs,
            circuit,
            pp.num_challenges@,
            mo,
            s1,
        )->Ok_0;
        let polys = steps.instance_polys_spec(n, instances) + pcs::owned_vals(pp.preprocess_polys@)
            + p.polys;
        let h = protocol::prove_helpers::<F, H, A>(
            steps,
            pp,
            polys,
            p.challenges,
            mo,
            p.state,
        )->Ok_0;
        let s3 = transcript::squeeze(mo, p.state).1;
        acceptance::law_sent_commitments::<F, H>(pp.pcs, h.ms, mo, s3);
        let s4 = pcs::batch_commit_and_write_spec::<F, BrakedownPcs<F, H>>(
            pp.pcs,
            h.ms,
            mo,
            s3,
        )->Ok_0.1;
        let s5 = transcript::squeeze(mo, s4).1;
        acceptance::law_sent_commitments::<F, H>(pp.pcs, h.hzs, mo, s5);
        lemma_drawn_rounds(
            mo,
            st.events,
            instances,
            wcomms,
            pp.num_challenges@,
            h.m_comms,
            h.hz_comms,
            n,
            s1,
            p.state,
            s4,
            h.state,
            p.challenges,
        );
        let s7 = transcript::squeeze(mo, h.state).1;
        trace::law_challenges_are_drawn_in_turn(mo, s7, n);
        assert forall|j: int| 0 <= j < pp.num_challenges@.len() implies sent.challenges.take(
            backend::total(#[trigger] pp.num_challenges@.take(j)),
        ) == p.challenges.take(backend::total(pp.num_challenges@.take(j))) by {
            backend::lemma_total_prefix(pp.num_challenges@, j);
            assert(sent.challenges.take(backend::total(pp.num_challenges@.take(j)))
                =~= p.challenges.take(backend::total(pp.num_challenges@.take(j))));
        }
        assert(phases_ran::<F, H, Ci>(
            pp.pcs,
            circuit,
            pp.num_challenges@,
            sent.challenges,
            wpolys,
            wcomms,
        )) by {
            assert forall|j: int| 0 <= j < pp.num_challenges@.len() implies {
                &&& circuit.synthesize_spec(
                    j as nat,
                    sent.challenges.take(backend::total(pp.num_challenges@.take(j))),
                ) == Ok::<Seq<Seq<int>>, ErrorView>(#[trigger] wpolys[j])
                &&& wcomms[j].len() == wpolys[j].len()
                &&& forall|i: int|
                    0 <= i < wpolys[j].len() ==> brakedown::commit_evals_spec::<F, H>(
                        pp.pcs.param.code@,
                        #[trigger] wpolys[j][i],
                    ) == Ok::<BrakedownCommitment, ErrorView>(wcomms[j][i])
            } by {
                let front = pp.num_challenges@.take(j);
            }
        }
        let k = backend::total(pp.num_challenges@);
        let width = protocol::max_width(hyperplonk::lookups_view(pp.lookups@));
        assert(p.challenges.len() == k);
        assert(sent.challenges.take(k) =~= p.challenges);
        assert(sent.challenges[k] == h.beta);
        assert(sent.challenges[k + 1] == h.gamma);
        assert(protocol::powers_of(h.beta, width, F::modulus()) =~= Seq::new(
            width,
            |i: int| pow(h.beta, i as nat) % F::modulus(),
        )) by {
            assert forall|i: int| 0 <= i < width implies #[trigger] protocol::powers_of(
                h.beta,
                width,
                F::modulus(),
            )[i] == pow(h.beta, i as nat) % F::modulus() by {
                law_powers_of_a_challenge(h.beta, width, F::modulus(), i);
            }
        }
        assert(helpers_made::<F, H, A>(steps, pp, polys, sent.challenges, h.ms, h.hzs));
        assert(sent_in_rounds::<F, H, A, Ci>(
            steps,
            pp,
            circuit,
            mo,
            st,
            sent,
            wpolys,
            wcomms,
            h.ms,
            h.m_comms,
            h.hzs,
            h.hz_comms,
        ));
    }
}

/// What the verifier has heard before the zero-check. Everything that happened is what
/// [`rounds_events`] says, with as many commitments as the parameters say; the challenges are
/// those drawn in the course of it. The commitments stand in the order of the polynomials.
pub open spec fn heard_in_rounds<F: PrimeField, H: HashFunction>(
    vp: HyperPlonkVerifierParam<F, BrakedownPcs<F, H>>,
    instances: Seq<Seq<int>>,
    mo: Model<[u8; 32]>,
    st: State<[u8; 32]>,
    heard: protocol::Heard,
    witness: Seq<Seq<BrakedownCommitment>>,
    ms: Seq<BrakedownCommitment>,
    hzs: Seq<BrakedownCommitment>,
) -> bool {
    let n = vp.num_vars as nat;
    let events = rounds_events(instances, witness, vp.num_challenges@, ms, hzs, n);
    &&& heard.state.events == st.events + events
    &&& heard.challenges + heard.y == trace::drawn(mo, st.events, events)
    &&& heard.y.len() == n
    &&& witness.len() == vp.num_challenges@.len()
    &&& forall|j: int|
        0 <= j < witness.len() ==> (#[trigger] witness[j]).len() == vp.num_witness_polys@[j]
    &&& ms.len() == vp.num_lookups
    &&& hzs.len() == vp.num_lookups + vp.num_permutation_z_polys
    &&& heard.comms == Seq::new(
        vp.num_instances@.len(),
        |i: int| brakedown::empty_commitment(),
    ) + vp.preprocess_comms@ + witness.flatten() + Seq::new(
        vp.permutation_comms@.len(),
        |i: int| vp.permutation_comms@[i].1,
    ) + ms + hzs
}

/// Before the zero-check, the verifier has absorbed all values of all instances and as many
/// commitments as there are, and has drawn all challenges, in their order, as
/// [`heard_in_rounds`] says.
pub proof fn law_heard_in_rounds<F: PrimeField, H: HashFunction>(
    vp: HyperPlonkVerifierParam<F, BrakedownPcs<F, H>>,
    instances: Seq<Seq<int>>,
    mo: Model<[u8; 32]>,
    st: State<[u8; 32]>,
)
    requires
        vp.num_witness_polys@.len() == vp.num_challenges@.len(),
    ensures
        protocol::read_rounds::<F, H>(vp, instances, mo, st) matches Ok(heard) ==> exists|
            witness: Seq<Seq<BrakedownCommitment>>,
            ms: Seq<BrakedownCommitment>,
            hzs: Seq<BrakedownCommitment>,
        | #[trigger]
            heard_in_rounds::<F, H>(vp, instances, mo, st, heard, witness, ms, hzs),
{
    if let Ok(heard) = protocol::read_rounds::<F, H>(vp, instances, mo, st) {
        let n = vp.num_vars as nat;
        law_instances_are_absorbed(mo, st, instances);
        let s1 = protocol::absorb_instances(mo, st, instances)->Ok_0;
        let witness = lemma_phases_read::<F, H>(
            vp.pcs,
            vp.num_witness_polys@,
            vp.num_challenges@,
            mo,
            s1,
        );
        let (_, challenges, s2) = protocol::read_phases::<F, H>(
            vp.pcs,
            vp.num_witness_polys@,
            vp.num_challenges@,
            mo,
            s1,
        )->Ok_0;
        let s3 = transcript::squeeze(mo, s2).1;
        acceptance::law_read_roots_are_absorbed(mo, s3, vp.num_lookups as nat);
        let (ms, s4) = brakedown::read_roots(mo, s3, vp.num_lookups as nat)->Ok_0;
        let s5 = transcript::squeeze(mo, s4).1;
        let many = (vp.num_lookups + vp.num_permutation_z_polys) as nat;
        acceptance::law_read_roots_are_absorbed(mo, s5, many);
        let (hzs, s6) = brakedown::read_roots(mo, s5, many)->Ok_0;
        lemma_drawn_rounds(
            mo,
            st.events,
            instances,
            witness,
            vp.num_challenges@,
            ms,
            hzs,
            n,
            s1,
            s2,
            s4,
            s6,
            challenges,
        );
        let s7 = transcript::squeeze(mo, s6).1;
        trace::law_challenges_are_drawn_in_turn(mo, s7, n);
        assert(heard_in_rounds::<F, H>(vp, instances, mo, st, heard, witness, ms, hzs));
    }
}

/// Preprocessing commits to every fixed polynomial and every polynomial of the permutation, and
/// prover and verifier get the same commitments, numbers and expression, those of the circuit.
pub proof fn law_preprocessed_parameters<F: PrimeField, H: HashFunction, A: Steps<F, [u8; 32]>>(
    steps: A,
    param: BrakedownParam<F>,
    info: PlonkishCircuitInfo<F>,
    pp: HyperPlonkProverParam<F, BrakedownPcs<F, H>>,
    vp: HyperPlonkVerifierParam<F, BrakedownPcs<F, H>>,
)
    requires
        hyperplonk_brakedown::preprocessed::<F, H, A>(
            steps,
            param,
            info,
            Ok::<_, crate::Error>((pp, vp)),
        ),
    ensures
        ({
            let fixed = pcs::points_vals(info.preprocess_polys@);
            let permutation = steps.permutation_polys_spec(info);
            &&& pcs::owned_vals(pp.preprocess_polys@) == fixed
            &&& pp.preprocess_comms@.len() == fixed.len()
            &&& vp.preprocess_comms@ == pp.preprocess_comms@
            &&& forall|i: int|
                0 <= i < fixed.len() ==> brakedown::commit_evals_spec::<F, H>(
                    param.code@,
                    #[trigger] fixed[i],
                ) == Ok::<BrakedownCommitment, ErrorView>(vp.preprocess_comms@[i])
            &&& hyperplonk::indexed_vals(pp.permutation_polys@) == permutation
            &&& pp.permutation_comms@.len() == permutation.len()
            &&& vp.permutation_comms@.len() == permutation.len()
            &&& forall|i: int|
                0 <= i < permutation.len() ==> {
                    &&& brakedown::commit_evals_spec::<F, H>(
                        param.code@,
                        (#[trigger] permutation[i]).1,
                    ) == Ok::<BrakedownCommitment, ErrorView>(pp.permutation_comms@[i])
                    &&& vp.permutation_comms@[i].0 == permutation[i].0
                    &&& vp.permutation_comms@[i].1 == pp.permutation_comms@[i]
                }
            &&& vp.num_instances@ == info.num_instances@
            &&& vp.num_witness_polys@ == info.num_witness_polys@
            &&& vp.num_challenges@ == info.num_challenges@
            &&& pp.num_instances@ == info.num_instances@
            &&& pp.num_witness_polys@ == info.num_witness_polys@
            &&& pp.num_challenges@ == info.num_challenges@
            &&& vp.num_lookups == info.lookups@.len()
            &&& vp.num_vars == info.k
            &&& pp.num_vars == info.k
            &&& vp.num_permutation_z_polys == steps.compose_spec(info).0
            &&& pp.num_permutation_z_polys == steps.compose_spec(info).0
            &&& vp.expression@ == steps.compose_spec(info).1
            &&& pp.expression@ == steps.compose_spec(info).1
            &&& vp.pcs.param.code@ == param.code@
            &&& pp.pcs.param.code@ == param.code@
            &&& vp.pcs.param.num_vars == param.num_vars
        }),
{
    let commit = |e: Seq<int>| brakedown::commit_evals_spec::<F, H>(param.code@, e);
    let fixed = pcs::points_vals(info.preprocess_polys@);
    let permutation = steps.permutation_polys_spec(info);
    let perms = protocol::without_indices(permutation);
    acceptance::lemma_commit_all(commit, fixed);
    acceptance::lemma_commit_all(commit, perms);
    let perm_comms = pcs::commit_all(commit, perms)->Ok_0;
    assert(protocol::unindexed(vp.permutation_comms@) == perm_comms);
    assert(protocol::unindexed(vp.permutation_comms@).len() == vp.permutation_comms@.len());
    assert forall|i: int| 0 <= i < fixed.len() implies brakedown::commit_evals_spec::<F, H>(
        param.code@,
        #[trigger] fixed[i],
    ) == Ok::<BrakedownCommitment, ErrorView>(vp.preprocess_comms@[i]) by {
        assert(commit(fixed[i]) == Ok::<BrakedownCommitment, ErrorView>(vp.preprocess_comms@[i]));
    }
    assert forall|i: int| 0 <= i < permutation.len() implies {
        &&& brakedown::commit_evals_spec::<F, H>(param.code@, (#[trigger] permutation[i]).1)
            == Ok::<BrakedownCommitment, ErrorView>(pp.permutation_comms@[i])
        &&& vp.permutation_comms@[i].0 == permutation[i].0
        &&& vp.permutation_comms@[i].1 == pp.permutation_comms@[i]
    } by {
        assert(perms[i] == permutation[i].1);
        assert(commit(perms[i]) == Ok::<BrakedownCommitment, ErrorView>(perm_comms[i]));
        assert(protocol::unindexed(vp.permutation_comms@)[i] == vp.permutation_comms@[i].1);
    }
}

} // verus!
