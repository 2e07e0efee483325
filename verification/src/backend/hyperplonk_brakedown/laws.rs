//! What becomes of honest proofs.

use crate::backend::hyperplonk;
use crate::backend::hyperplonk::unconstrained;
use crate::backend::hyperplonk::unconstrained::Unconstrained;
use crate::backend::hyperplonk::{HyperPlonkProverParam, HyperPlonkVerifierParam, Steps};
use crate::backend::hyperplonk_brakedown;
use crate::backend::hyperplonk_brakedown::protocol;
use crate::backend::hyperplonk_brakedown::ShiftConstraint;
use crate::backend::{PlonkishCircuit, PlonkishCircuitInfo};
use crate::pcs;
use crate::pcs::multilinear::brakedown;
use crate::pcs::multilinear::brakedown::laws;
use crate::pcs::multilinear::brakedown::{
    BrakedownCommitment, BrakedownParam, BrakedownPcs, BrakedownProverParam, BrakedownVerifierParam,
};
use crate::pcs::{EvaluationView, PolynomialCommitmentScheme};
use crate::piop::shift_open;
use crate::poly::hypercube;
use crate::util::expression::ExpressionView;
use crate::util::field::PrimeField;
use crate::util::hash::HashFunction;
use crate::util::integer;
use crate::util::transcript;
use crate::util::transcript::{Halt, Item, Model, State};
use crate::Error;
use vstd::arithmetic::power2::pow2;
use vstd::prelude::*;

verus! {

/// The root of `comm` is that of a commitment to `evals`.
pub open spec fn stands_for<F: PrimeField, H: HashFunction>(
    pp: BrakedownProverParam<F>,
    comm: BrakedownCommitment,
    evals: Seq<int>,
) -> bool {
    &&& BrakedownPcs::<F, H>::commit_spec(pp, evals) is Ok
    &&& comm.root == BrakedownPcs::<F, H>::commit_spec(pp, evals)->Ok_0.root
}

/// The commitments have the same roots.
pub open spec fn same_roots(a: Seq<BrakedownCommitment>, b: Seq<BrakedownCommitment>) -> bool {
    &&& a.len() == b.len()
    &&& forall|i: int| 0 <= i < a.len() ==> (#[trigger] a[i]).root == b[i].root
}

/// Every shift of a polynomial is of one to which the commitment stands.
pub open spec fn shifts_are_committed<F: PrimeField, H: HashFunction>(
    pp: BrakedownProverParam<F>,
    polys: Seq<Seq<int>>,
    comms: Seq<BrakedownCommitment>,
    shifts: Seq<ShiftConstraint>,
) -> bool {
    forall|i: int|
        0 <= i < shifts.len() && (#[trigger] shifts[i]).poly_idx < polys.len() ==> stands_for::<
            F,
            H,
        >(pp, comms[shifts[i].poly_idx as int], polys[shifts[i].poly_idx as int])
}

/// One shift-open proof, written and read.
proof fn lemma_shift_accepted<F: PrimeField, H: HashFunction>(
    pp: BrakedownProverParam<F>,
    vp: BrakedownVerifierParam<F>,
    given: BrakedownCommitment,
    comm: BrakedownCommitment,
    evals: Seq<int>,
    k: int,
    mo: Model<[u8; 32]>,
    w: State<[u8; 32]>,
)
    requires
        pp.param.code@.wf(),
        vp.param.code@ == pp.param.code@,
        evals.len() == pow2(vp.param.num_vars as nat),
        BrakedownPcs::<F, H>::can_open(pp, evals.len(), vp.param.num_vars as nat),
        stands_for::<F, H>(pp, comm, evals),
        transcript::round_trips(mo, F::modulus()),
        shift_open::prove_shift_open_spec::<F, BrakedownPcs<F, H>>(
            pp,
            evals,
            given,
            vp.param.num_vars as nat,
            k,
            mo,
            w,
        ) is Ok,
    ensures
        ({
            let done = shift_open::prove_shift_open_spec::<F, BrakedownPcs<F, H>>(
                pp,
                evals,
                given,
                vp.param.num_vars as nat,
                k,
                mo,
                w,
            )->Ok_0;
            &&& transcript::starts_with(done.proof, w)
            &&& forall|r: State<[u8; 32]>, whole: Seq<u8>| #[trigger]
                transcript::mirrors(w, r, whole) && transcript::starts_with(whole, done)
                    ==> (shift_open::verify_shift_open_spec::<F, BrakedownPcs<F, H>>(
                    vp,
                    comm,
                    vp.param.num_vars as nat,
                    k,
                    mo,
                    r,
                ) matches Ok((_, _, s)) && transcript::mirrors(done, s, whole))
        }),
{
    let n = vp.param.num_vars as nat;
    laws::law_brakedown_opens_honestly::<F, H>(pp, vp, comm, comm, evals, mo);
    let done = shift_open::prove_shift_open_spec::<F, BrakedownPcs<F, H>>(
        pp,
        evals,
        given,
        n,
        k,
        mo,
        w,
    )->Ok_0;
    let same = shift_open::prove_shift_open_spec::<F, BrakedownPcs<F, H>>(
        pp,
        evals,
        comm,
        n,
        k,
        mo,
        w,
    );
    assert(same == Ok::<State<[u8; 32]>, Halt<[u8; 32]>>(done));
    shift_open::lemma_shift_open_appends::<F, BrakedownPcs<F, H>>(
        pp,
        vp,
        comm,
        evals,
        n,
        k,
        mo,
        w,
    );
    assert forall|r: State<[u8; 32]>, whole: Seq<u8>| #[trigger]
        transcript::mirrors(w, r, whole) && transcript::starts_with(whole, done) implies (
    shift_open::verify_shift_open_spec::<F, BrakedownPcs<F, H>>(
        vp,
        comm,
        n,
        k,
        mo,
        r,
    ) matches Ok((_, _, s)) && transcript::mirrors(done, s, whole)) by {
        shift_open::law_shift_open_is_complete::<F, BrakedownPcs<F, H>>(
            pp,
            vp,
            comm,
            evals,
            n,
            k,
            mo,
            w,
            r,
            whole,
        );
    }
}

/// Shift-open proofs only ever append.
proof fn lemma_shifts_append<F: PrimeField, H: HashFunction>(
    pp: BrakedownProverParam<F>,
    vp: BrakedownVerifierParam<F>,
    polys: Seq<Seq<int>>,
    given: Seq<BrakedownCommitment>,
    comms: Seq<BrakedownCommitment>,
    shifts: Seq<ShiftConstraint>,
    mo: Model<[u8; 32]>,
    w: State<[u8; 32]>,
)
    requires
        pp.param.code@.wf(),
        vp.param.code@ == pp.param.code@,
        pcs::all_sized(polys, pow2(vp.param.num_vars as nat)),
        brakedown::can_open_evals(
            pp.param.code@,
            pow2(vp.param.num_vars as nat),
            vp.param.num_vars as nat,
        ),
        shifts_are_committed::<F, H>(pp, polys, comms, shifts),
        transcript::round_trips(mo, F::modulus()),
        protocol::prove_shifts::<F, H>(
            pp,
            polys,
            given,
            shifts,
            vp.param.num_vars as nat,
            mo,
            w,
        ) is Ok,
    ensures
        transcript::starts_with(
            protocol::prove_shifts::<F, H>(
                pp,
                polys,
                given,
                shifts,
                vp.param.num_vars as nat,
                mo,
                w,
            )->Ok_0.proof,
            w,
        ),
    decreases shifts.len(),
{
    let n = vp.param.num_vars as nat;
    if shifts.len() == 0 {
        assert(w.proof.subrange(0, w.proof.len() as int) =~= w.proof);
    } else {
        let front = shifts.drop_last();
        assert forall|i: int|
            0 <= i < front.len() && (#[trigger] front[i]).poly_idx < polys.len() implies stands_for::<
            F,
            H,
        >(pp, comms[front[i].poly_idx as int], polys[front[i].poly_idx as int]) by {
            assert(shifts[i] == front[i]);
        }
        lemma_shifts_append::<F, H>(pp, vp, polys, given, comms, front, mo, w);
        let mid = protocol::prove_shifts::<F, H>(pp, polys, given, front, n, mo, w)->Ok_0;
        let done = protocol::prove_shifts::<F, H>(pp, polys, given, shifts, n, mo, w)->Ok_0;
        let i = shifts.last().poly_idx as int;
        if i < polys.len() {
            assert(shifts[shifts.len() - 1].poly_idx < polys.len());
            assert(polys[i].len() == pow2(n));
            lemma_shift_accepted::<F, H>(
                pp,
                vp,
                protocol::comm_at(given, i),
                comms[i],
                polys[i],
                shifts.last().k as int,
                mo,
                mid,
            );
            transcript::lemma_starts_trans(done.proof, w, mid);
        }
    }
}

/// Completeness of the shift proofs: whoever reads the shift-open proofs that are written
/// for committed polynomials accepts them.
pub proof fn law_shift_proofs_are_accepted<F: PrimeField, H: HashFunction>(
    pp: BrakedownProverParam<F>,
    vp: BrakedownVerifierParam<F>,
    polys: Seq<Seq<int>>,
    given: Seq<BrakedownCommitment>,
    comms: Seq<BrakedownCommitment>,
    shifts: Seq<ShiftConstraint>,
    mo: Model<[u8; 32]>,
    w: State<[u8; 32]>,
    r: State<[u8; 32]>,
    whole: Seq<u8>,
)
    requires
        pp.param.code@.wf(),
        vp.param.code@ == pp.param.code@,
        comms.len() == polys.len(),
        pcs::all_sized(polys, pow2(vp.param.num_vars as nat)),
        brakedown::can_open_evals(
            pp.param.code@,
            pow2(vp.param.num_vars as nat),
            vp.param.num_vars as nat,
        ),
        shifts_are_committed::<F, H>(pp, polys, comms, shifts),
        transcript::round_trips(mo, F::modulus()),
        transcript::mirrors(w, r, whole),
        protocol::prove_shifts::<F, H>(
            pp,
            polys,
            given,
            shifts,
            vp.param.num_vars as nat,
            mo,
            w,
        ) is Ok,
        transcript::starts_with(
            whole,
            protocol::prove_shifts::<F, H>(
                pp,
                polys,
                given,
                shifts,
                vp.param.num_vars as nat,
                mo,
                w,
            )->Ok_0,
        ),
    ensures
        protocol::verify_shifts::<F, H>(
            vp,
            comms,
            shifts,
            vp.param.num_vars as nat,
            mo,
            r,
        ) matches Ok(s) && transcript::mirrors(
            protocol::prove_shifts::<F, H>(
                pp,
                polys,
                given,
                shifts,
                vp.param.num_vars as nat,
                mo,
                w,
            )->Ok_0,
            s,
            whole,
        ),
    decreases shifts.len(),
{
    let n = vp.param.num_vars as nat;
    if shifts.len() > 0 {
        let front = shifts.drop_last();
        assert forall|i: int|
            0 <= i < front.len() && (#[trigger] front[i]).poly_idx < polys.len() implies stands_for::<
            F,
            H,
        >(pp, comms[front[i].poly_idx as int], polys[front[i].poly_idx as int]) by {
            assert(shifts[i] == front[i]);
        }
        let mid = protocol::prove_shifts::<F, H>(pp, polys, given, front, n, mo, w)->Ok_0;
        let done = protocol::prove_shifts::<F, H>(pp, polys, given, shifts, n, mo, w)->Ok_0;
        let i = shifts.last().poly_idx as int;
        if i < polys.len() {
            assert(shifts[shifts.len() - 1].poly_idx < polys.len());
            assert(polys[i].len() == pow2(n));
            lemma_shift_accepted::<F, H>(
                pp,
                vp,
                protocol::comm_at(given, i),
                comms[i],
                polys[i],
                shifts.last().k as int,
                mo,
                mid,
            );
            transcript::lemma_starts_trans(whole, mid, done);
        }
        law_shift_proofs_are_accepted::<F, H>(
            pp,
            vp,
            polys,
            given,
            comms,
            front,
            mo,
            w,
            r,
            whole,
        );
        let s = protocol::verify_shifts::<F, H>(vp, comms, front, n, mo, r)->Ok_0;
        assert(transcript::mirrors(mid, s, whole));
    }
}

/// The commitments stand for the polynomials, from the index `from` on.
pub open spec fn stand_for_all<F: PrimeField, H: HashFunction>(
    pp: BrakedownProverParam<F>,
    comms: Seq<BrakedownCommitment>,
    polys: Seq<Seq<int>>,
    from: int,
) -> bool {
    &&& comms.len() == polys.len()
    &&& forall|i: int|
        from <= i < polys.len() ==> stands_for::<F, H>(pp, #[trigger] comms[i], polys[i])
}

/// Commitments made together stand for their polynomials.
proof fn lemma_committed_together<F: PrimeField, H: HashFunction>(
    pp: BrakedownProverParam<F>,
    polys: Seq<Seq<int>>,
)
    requires
        pcs::commit_all(|e: Seq<int>| BrakedownPcs::<F, H>::commit_spec(pp, e), polys) is Ok,
    ensures
        stand_for_all::<F, H>(
            pp,
            pcs::commit_all(
                |e: Seq<int>| BrakedownPcs::<F, H>::commit_spec(pp, e),
                polys,
            )->Ok_0,
            polys,
            0,
        ),
    decreases polys.len(),
{
    let f = |e: Seq<int>| BrakedownPcs::<F, H>::commit_spec(pp, e);
    if polys.len() > 0 {
        lemma_committed_together::<F, H>(pp, polys.drop_last());
        let front = pcs::commit_all(f, polys.drop_last())->Ok_0;
        let all = pcs::commit_all(f, polys)->Ok_0;
        assert forall|i: int| 0 <= i < polys.len() implies stands_for::<F, H>(
            pp,
            #[trigger] all[i],
            polys[i],
        ) by {
            if i < polys.len() - 1 {
                assert(stands_for::<F, H>(pp, front[i], polys.drop_last()[i]));
            }
        }
    }
}

/// Lists of commitments can be chained.
proof fn lemma_stand_for_add<F: PrimeField, H: HashFunction>(
    pp: BrakedownProverParam<F>,
    comms: Seq<BrakedownCommitment>,
    polys: Seq<Seq<int>>,
    more_comms: Seq<BrakedownCommitment>,
    more: Seq<Seq<int>>,
    from: int,
)
    requires
        0 <= from,
        stand_for_all::<F, H>(pp, comms, polys, from),
        stand_for_all::<F, H>(pp, more_comms, more, 0),
    ensures
        stand_for_all::<F, H>(pp, comms + more_comms, polys + more, from),
{
    let a = comms + more_comms;
    let b = polys + more;
    assert forall|i: int| from <= i < b.len() implies stands_for::<F, H>(
        pp,
        #[trigger] a[i],
        b[i],
    ) by {
        if i < polys.len() {
            assert(stands_for::<F, H>(pp, comms[i], polys[i]));
        } else {
            assert(stands_for::<F, H>(
                pp,
                more_comms[i - polys.len()],
                more[i - polys.len()],
            ));
        }
    }
}

/// Commitments with the same roots stand for the same polynomials.
proof fn lemma_stand_for_same<F: PrimeField, H: HashFunction>(
    pp: BrakedownProverParam<F>,
    comms: Seq<BrakedownCommitment>,
    others: Seq<BrakedownCommitment>,
    polys: Seq<Seq<int>>,
    from: int,
)
    requires
        0 <= from,
        stand_for_all::<F, H>(pp, comms, polys, from),
        same_roots(comms, others),
    ensures
        stand_for_all::<F, H>(pp, others, polys, from),
{
    assert forall|i: int| from <= i < polys.len() implies stands_for::<F, H>(
        pp,
        #[trigger] others[i],
        polys[i],
    ) by {
        assert(comms[i].root == others[i].root);
        assert(stands_for::<F, H>(pp, comms[i], polys[i]));
    }
}

/// Lists with the same roots can be chained.
proof fn lemma_same_roots_add(
    a: Seq<BrakedownCommitment>,
    b: Seq<BrakedownCommitment>,
    c: Seq<BrakedownCommitment>,
    d: Seq<BrakedownCommitment>,
)
    requires
        same_roots(a, b),
        same_roots(c, d),
    ensures
        same_roots(a + c, b + d),
{
    assert forall|i: int| 0 <= i < (a + c).len() implies (#[trigger] (a + c)[i]).root == (b
        + d)[i].root by {
        if i < a.len() {
            assert(a[i].root == b[i].root);
        } else {
            assert(c[i - a.len()].root == d[i - a.len()].root);
        }
    }
}

/// Commitments are written by their roots alone.
proof fn lemma_comms_step<F: PrimeField, H: HashFunction>(
    mo: Model<[u8; 32]>,
    w: State<[u8; 32]>,
    comms: Seq<BrakedownCommitment>,
)
    requires
        comms.len() > 0,
    ensures
        pcs::write_comms::<F, BrakedownPcs<F, H>>(mo, w, comms) == (match pcs::write_comms::<
            F,
            BrakedownPcs<F, H>,
        >(mo, w, comms.drop_last()) {
            Err(e) => Err::<State<[u8; 32]>, Halt<[u8; 32]>>(e),
            Ok(s) => transcript::write(mo, s, Item::Chunk(comms.last().root.0)),
        }),
{
    let chunks = BrakedownPcs::<F, H>::chunks_spec(comms.last());
    assert(chunks.drop_last() =~= Seq::empty());
    assert(chunks.last() == comms.last().root.0);
    reveal_with_fuel(pcs::write_chunks, 2);
}

/// Writing commitments only ever appends.
proof fn lemma_comms_append<F: PrimeField, H: HashFunction>(
    mo: Model<[u8; 32]>,
    w: State<[u8; 32]>,
    comms: Seq<BrakedownCommitment>,
)
    requires
        pcs::write_comms::<F, BrakedownPcs<F, H>>(mo, w, comms) is Ok,
    ensures
        transcript::starts_with(
            pcs::write_comms::<F, BrakedownPcs<F, H>>(mo, w, comms)->Ok_0.proof,
            w,
        ),
    decreases comms.len(),
{
    if comms.len() == 0 {
        assert(w.proof.subrange(0, w.proof.len() as int) =~= w.proof);
    } else {
        lemma_comms_step::<F, H>(mo, w, comms);
        lemma_comms_append::<F, H>(mo, w, comms.drop_last());
        let mid = pcs::write_comms::<F, BrakedownPcs<F, H>>(mo, w, comms.drop_last())->Ok_0;
        transcript::lemma_write_appends(mo, mid, Item::Chunk(comms.last().root.0));
        transcript::lemma_starts_trans(
            pcs::write_comms::<F, BrakedownPcs<F, H>>(mo, w, comms)->Ok_0.proof,
            w,
            mid,
        );
    }
}

/// Commitments that were written are read back, by their roots.
proof fn lemma_comms_read_back<F: PrimeField, H: HashFunction>(
    mo: Model<[u8; 32]>,
    w: State<[u8; 32]>,
    r: State<[u8; 32]>,
    comms: Seq<BrakedownCommitment>,
    whole: Seq<u8>,
)
    requires
        transcript::round_trips(mo, F::modulus()),
        pcs::write_comms::<F, BrakedownPcs<F, H>>(mo, w, comms) is Ok,
        transcript::mirrors(w, r, whole),
        transcript::starts_with(
            whole,
            pcs::write_comms::<F, BrakedownPcs<F, H>>(mo, w, comms)->Ok_0,
        ),
    ensures
        brakedown::read_roots(mo, r, comms.len()) matches Ok((got, s)) && {
            &&& same_roots(comms, got)
            &&& transcript::mirrors(
                pcs::write_comms::<F, BrakedownPcs<F, H>>(mo, w, comms)->Ok_0,
                s,
                whole,
            )
        },
    decreases comms.len(),
{
    if comms.len() > 0 {
        lemma_comms_step::<F, H>(mo, w, comms);
        let mid = pcs::write_comms::<F, BrakedownPcs<F, H>>(mo, w, comms.drop_last())->Ok_0;
        let done = pcs::write_comms::<F, BrakedownPcs<F, H>>(mo, w, comms)->Ok_0;
        transcript::lemma_write_appends(mo, mid, Item::Chunk(comms.last().root.0));
        transcript::lemma_starts_trans(whole, mid, done);
        lemma_comms_read_back::<F, H>(mo, w, r, comms.drop_last(), whole);
        let (got, s) = brakedown::read_roots(mo, r, (comms.len() - 1) as nat)->Ok_0;
        transcript::lemma_chunk_read_back(
            mo,
            F::modulus(),
            mid,
            s,
            comms.last().root.0,
            whole,
        );
        let all = brakedown::read_roots(mo, r, comms.len())->Ok_0.0;
        assert forall|i: int| 0 <= i < comms.len() implies (#[trigger] comms[i]).root
            == all[i].root by {
            if i < comms.len() - 1 {
                assert(comms.drop_last()[i].root == got[i].root);
            }
        }
    }
}

/// Absorbing keeps reader and writer together.
proof fn lemma_absorb_fields_mirrors<C>(
    mo: Model<C>,
    w: State<C>,
    r: State<C>,
    vs: Seq<int>,
    whole: Seq<u8>,
)
    requires
        transcript::mirrors(w, r, whole),
        protocol::absorb_fields(mo, w, vs) is Ok,
    ensures
        protocol::absorb_fields(mo, w, vs)->Ok_0.proof == w.proof,
        protocol::absorb_fields(mo, r, vs) matches Ok(s) && transcript::mirrors(
            protocol::absorb_fields(mo, w, vs)->Ok_0,
            s,
            whole,
        ),
    decreases vs.len(),
{
    if vs.len() > 0 {
        lemma_absorb_fields_mirrors(mo, w, r, vs.drop_last(), whole);
    }
}

/// Absorbing the instances keeps reader and writer together.
proof fn lemma_absorb_mirrors<C>(
    mo: Model<C>,
    w: State<C>,
    r: State<C>,
    instances: Seq<Seq<int>>,
    whole: Seq<u8>,
)
    requires
        transcript::mirrors(w, r, whole),
        protocol::absorb_instances(mo, w, instances) is Ok,
    ensures
        protocol::absorb_instances(mo, w, instances)->Ok_0.proof == w.proof,
        protocol::absorb_instances(mo, r, instances) matches Ok(s) && transcript::mirrors(
            protocol::absorb_instances(mo, w, instances)->Ok_0,
            s,
            whole,
        ),
    decreases instances.len(),
{
    if instances.len() > 0 {
        let front = instances.drop_last();
        lemma_absorb_mirrors(mo, w, r, front, whole);
        let a = protocol::absorb_instances(mo, w, front)->Ok_0;
        let b = protocol::absorb_instances(mo, r, front)->Ok_0;
        lemma_absorb_fields_mirrors(mo, a, b, instances.last(), whole);
    }
}

/// Drawing challenges writes nothing.
proof fn lemma_squeeze_keeps_proof<C>(mo: Model<C>, st: State<C>, n: nat)
    ensures
        transcript::squeeze_many(mo, st, n).1.proof == st.proof,
    decreases n,
{
    if n > 0 {
        lemma_squeeze_keeps_proof(mo, st, (n - 1) as nat);
    }
}

/// The commitments of the phases stand for their polynomials.
proof fn lemma_phases_stand<F: PrimeField, H: HashFunction, Ci: PlonkishCircuit<F>>(
    pp: BrakedownProverParam<F>,
    circuit: Ci,
    num_challenges: Seq<usize>,
    mo: Model<[u8; 32]>,
    w: State<[u8; 32]>,
)
    requires
        protocol::prove_phases::<F, H, Ci>(pp, circuit, num_challenges, mo, w) is Ok,
    ensures
        ({
            let p = protocol::prove_phases::<F, H, Ci>(pp, circuit, num_challenges, mo, w)->Ok_0;
            stand_for_all::<F, H>(pp, p.comms, p.polys, 0)
        }),
    decreases num_challenges.len(),
{
    if num_challenges.len() > 0 {
        let front = num_challenges.drop_last();
        lemma_phases_stand::<F, H, Ci>(pp, circuit, front, mo, w);
        let p = protocol::prove_phases::<F, H, Ci>(pp, circuit, front, mo, w)->Ok_0;
        let polys = circuit.synthesize_spec(front.len(), p.challenges)->Ok_0;
        let comms = pcs::batch_commit_and_write_spec::<F, BrakedownPcs<F, H>>(
            pp,
            polys,
            mo,
            p.state,
        )->Ok_0.0;
        lemma_committed_together::<F, H>(pp, polys);
        lemma_stand_for_add::<F, H>(pp, p.comms, p.polys, comms, polys, 0);
    }
}

/// The verifier sees the phases as the prover ran them.
proof fn lemma_phases_mirror<F: PrimeField, H: HashFunction, Ci: PlonkishCircuit<F>>(
    pp: BrakedownProverParam<F>,
    vp: BrakedownVerifierParam<F>,
    circuit: Ci,
    num_witness_polys: Seq<usize>,
    num_challenges: Seq<usize>,
    num_vars: nat,
    k: int,
    mo: Model<[u8; 32]>,
    w: State<[u8; 32]>,
    r: State<[u8; 32]>,
    whole: Seq<u8>,
)
    requires
        protocol::synthesizes::<F, Ci>(circuit, num_witness_polys, num_challenges, num_vars),
        0 <= k <= num_challenges.len(),
        transcript::round_trips(mo, F::modulus()),
        transcript::mirrors(w, r, whole),
        protocol::prove_phases::<F, H, Ci>(pp, circuit, num_challenges.take(k), mo, w) is Ok,
        transcript::starts_with(
            whole,
            protocol::prove_phases::<F, H, Ci>(
                pp,
                circuit,
                num_challenges.take(k),
                mo,
                w,
            )->Ok_0.state,
        ),
    ensures
        ({
            let p = protocol::prove_phases::<F, H, Ci>(
                pp,
                circuit,
                num_challenges.take(k),
                mo,
                w,
            )->Ok_0;
            &&& protocol::read_phases::<F, H>(
                vp,
                num_witness_polys.take(k),
                num_challenges.take(k),
                mo,
                r,
            ) matches Ok((comms, challenges, s))
            &&& same_roots(p.comms, comms)
            &&& challenges == p.challenges
            &&& transcript::mirrors(p.state, s, whole)
        }),
    decreases k,
{
    if k == 0 {
        assert(num_challenges.take(0) =~= Seq::empty());
    } else {
        let front = num_challenges.take(k - 1);
        assert(num_challenges.take(k).drop_last() =~= front);
        assert(num_witness_polys.take(k).drop_last() =~= num_witness_polys.take(k - 1));
        let p = protocol::prove_phases::<F, H, Ci>(pp, circuit, front, mo, w)->Ok_0;
        let done = protocol::prove_phases::<F, H, Ci>(
            pp,
            circuit,
            num_challenges.take(k),
            mo,
            w,
        )->Ok_0;
        let polys = circuit.synthesize_spec((k - 1) as nat, p.challenges)->Ok_0;
        let (comms, s) = pcs::batch_commit_and_write_spec::<F, BrakedownPcs<F, H>>(
            pp,
            polys,
            mo,
            p.state,
        )->Ok_0;
        let count = num_challenges[k - 1] as nat;
        lemma_squeeze_keeps_proof(mo, s, count);
        assert(transcript::starts_with(whole, s));
        lemma_comms_append::<F, H>(mo, p.state, comms);
        transcript::lemma_starts_trans(whole, p.state, s);
        lemma_phases_mirror::<F, H, Ci>(
            pp,
            vp,
            circuit,
            num_witness_polys,
            num_challenges,
            num_vars,
            k - 1,
            mo,
            w,
            r,
            whole,
        );
        protocol::lemma_phases_shape::<F, H, Ci>(
            pp,
            circuit,
            num_witness_polys,
            num_challenges,
            num_vars,
            k - 1,
            mo,
            w,
        );
        assert(circuit.can_synthesize((k - 1) as nat, p.challenges));
        let (heard, _, t) = protocol::read_phases::<F, H>(
            vp,
            num_witness_polys.take(k - 1),
            front,
            mo,
            r,
        )->Ok_0;
        protocol::lemma_commit_all_len(
            |e: Seq<int>| BrakedownPcs::<F, H>::commit_spec(pp, e),
            polys,
        );
        lemma_comms_read_back::<F, H>(mo, p.state, t, comms, whole);
        let (got, u) = brakedown::read_roots(mo, t, comms.len())->Ok_0;
        transcript::lemma_squeeze_many_mirrors(mo, s, u, count, whole);
        lemma_same_roots_add(p.comms, heard, comms, got);
    }
}

/// The parameters of prover and verifier belong together, and to polynomials with as many
/// variables as the scheme was set up for.
pub open spec fn paired<F: PrimeField, H: HashFunction>(
    pp: HyperPlonkProverParam<F, BrakedownPcs<F, H>>,
    vp: HyperPlonkVerifierParam<F, BrakedownPcs<F, H>>,
) -> bool {
    &&& vp.pcs.param.code@ == pp.pcs.param.code@
    &&& vp.pcs.param.num_vars == pp.num_vars
    &&& vp.num_vars == pp.num_vars
    &&& vp.num_instances@ == pp.num_instances@
    &&& vp.num_witness_polys@ == pp.num_witness_polys@
    &&& vp.num_challenges@ == pp.num_challenges@
    &&& vp.num_lookups == pp.lookups@.len()
    &&& vp.num_permutation_z_polys == pp.num_permutation_z_polys
    &&& vp.expression@ == pp.expression@
    &&& vp.preprocess_comms@ == pp.preprocess_comms@
    &&& protocol::unindexed(vp.permutation_comms@) == pp.permutation_comms@
}

/// The commitments among the prover's parameters stand for its polynomials.
pub open spec fn committed<F: PrimeField, H: HashFunction>(
    pp: HyperPlonkProverParam<F, BrakedownPcs<F, H>>,
) -> bool {
    &&& stand_for_all::<F, H>(
        pp.pcs,
        pp.preprocess_comms@,
        pcs::owned_vals(pp.preprocess_polys@),
        0,
    )
    &&& stand_for_all::<F, H>(
        pp.pcs,
        pp.permutation_comms@,
        protocol::without_indices(hyperplonk::indexed_vals(pp.permutation_polys@)),
        0,
    )
}

/// What preprocessing makes of a circuit with as many variables as the scheme was set up
/// for belongs together.
pub proof fn law_preprocessing_pairs<F: PrimeField, H: HashFunction, A: Steps<F, [u8; 32]>>(
    steps: A,
    param: BrakedownParam<F>,
    info: PlonkishCircuitInfo<F>,
    pp: HyperPlonkProverParam<F, BrakedownPcs<F, H>>,
    vp: HyperPlonkVerifierParam<F, BrakedownPcs<F, H>>,
)
    requires
        info.k == param.num_vars,
        hyperplonk_brakedown::preprocessed::<F, H, A>(
            steps,
            param,
            info,
            Ok::<_, Error>((pp, vp)),
        ),
    ensures
        paired(pp, vp),
        committed(pp),
{
    let stated = |e: Seq<int>| brakedown::commit_evals_spec::<F, H>(param.code@, e);
    let commit = |e: Seq<int>| BrakedownPcs::<F, H>::commit_spec(pp.pcs, e);
    assert(commit =~= stated);
    let permutation = steps.permutation_polys_spec(info);
    lemma_committed_together::<F, H>(pp.pcs, pcs::points_vals(info.preprocess_polys@));
    lemma_committed_together::<F, H>(pp.pcs, protocol::without_indices(permutation));
    assert(hyperplonk::lookups_view(pp.lookups@).len() == pp.lookups@.len());
    assert(hyperplonk::lookups_view(info.lookups@).len() == info.lookups@.len());
}

/// What preprocessing makes of a well-formed circuit with a polynomial is ready for proving
/// and verifying, if the code splits the circuit's variables evenly.
pub proof fn law_preprocessing_readies<F: PrimeField, H: HashFunction, A: Steps<F, [u8; 32]>>(
    steps: A,
    param: BrakedownParam<F>,
    info: PlonkishCircuitInfo<F>,
    pp: HyperPlonkProverParam<F, BrakedownPcs<F, H>>,
    vp: HyperPlonkVerifierParam<F, BrakedownPcs<F, H>>,
    instances: Seq<Seq<int>>,
)
    requires
        info.k == param.num_vars,
        pow2(info.k as nat) <= usize::MAX,
        info.well_formed(),
        info.num_polys() > 0,
        pcs::all_sized(pcs::points_vals(info.preprocess_polys@), pow2(info.k as nat)),
        hyperplonk::indexed_sized(steps.permutation_polys_spec(info), pow2(info.k as nat)),
        info.lookups@.len() + steps.compose_spec(info).0 <= usize::MAX,
        brakedown::can_open_evals(param.code@, pow2(info.k as nat), info.k as nat),
        protocol::instances_match(info.num_instances@, instances),
        hyperplonk_brakedown::preprocessed::<F, H, A>(
            steps,
            param,
            info,
            Ok::<_, Error>((pp, vp)),
        ),
    ensures
        protocol::prover_ready(pp),
        protocol::can_verify::<F, H>(vp, instances),
{
    let n = info.k as nat;
    let stated = |e: Seq<int>| brakedown::commit_evals_spec::<F, H>(param.code@, e);
    let permutation = steps.permutation_polys_spec(info);
    protocol::lemma_commit_all_len(stated, pcs::points_vals(info.preprocess_polys@));
    protocol::lemma_commit_all_len(stated, protocol::without_indices(permutation));
    assert(pcs::owned_vals(pp.preprocess_polys@).len() == pp.preprocess_polys@.len());
    assert(hyperplonk::indexed_vals(pp.permutation_polys@).len() == pp.permutation_polys@.len());
    let k = brakedown::row_vars(param.code@, pow2(n));
    integer::lemma_pow2_monotone((n - k) as nat, n);
}

/// The helpers are written, and seen by the verifier, as they are.
proof fn lemma_helpers_mirror<F: PrimeField, H: HashFunction, A: Steps<F, [u8; 32]>>(
    steps: A,
    pp: HyperPlonkProverParam<F, BrakedownPcs<F, H>>,
    polys: Seq<Seq<int>>,
    challenges: Seq<int>,
    mo: Model<[u8; 32]>,
    w: State<[u8; 32]>,
)
    requires
        protocol::prover_ready(pp),
        pcs::all_sized(polys, pow2(pp.num_vars as nat)),
        steps.supports(pp.lookups@.len(), pp.num_permutation_z_polys as nat),
        transcript::round_trips(mo, F::modulus()),
        protocol::prove_helpers::<F, H, A>(steps, pp, polys, challenges, mo, w) is Ok,
    ensures
        ({
            let h = protocol::prove_helpers::<F, H, A>(steps, pp, polys, challenges, mo, w)->Ok_0;
            let lookups = pp.lookups@.len();
            let both = lookups + pp.num_permutation_z_polys as nat;
            &&& transcript::starts_with(h.state.proof, w)
            &&& forall|r: State<[u8; 32]>, whole: Seq<u8>| #[trigger]
                transcript::mirrors(w, r, whole) && transcript::starts_with(whole, h.state) ==> {
                    let (beta, s1) = transcript::squeeze(mo, r);
                    &&& beta == h.beta
                    &&& brakedown::read_roots(mo, s1, lookups) matches Ok((ms, s2))
                    &&& same_roots(h.m_comms, ms)
                    &&& ({
                        let (gamma, s3) = transcript::squeeze(mo, s2);
                        &&& gamma == h.gamma
                        &&& brakedown::read_roots(mo, s3, both) matches Ok((hzs, s4))
                        &&& same_roots(h.hz_comms, hzs)
                        &&& transcript::mirrors(h.state, s4, whole)
                    })
                }
        }),
{
    let h = protocol::prove_helpers::<F, H, A>(steps, pp, polys, challenges, mo, w)->Ok_0;
    let lookups = hyperplonk::lookups_view(pp.lookups@);
    let betas = protocol::powers_of(h.beta, protocol::max_width(lookups), F::modulus());
    let perms = hyperplonk::indexed_vals(pp.permutation_polys@);
    let nz = pp.num_permutation_z_polys as nat;
    let both = pp.lookups@.len() + nz;
    steps.polys_have_size(
        pp.num_vars as nat,
        Seq::empty(),
        lookups,
        polys,
        challenges,
        betas,
        nz,
        perms,
        h.beta,
        h.gamma,
    );
    lemma_committed_together::<F, H>(pp.pcs, h.ms);
    lemma_committed_together::<F, H>(pp.pcs, h.hzs);
    let w1 = transcript::squeeze(mo, w).1;
    let w2 = pcs::write_comms::<F, BrakedownPcs<F, H>>(mo, w1, h.m_comms)->Ok_0;
    let w3 = transcript::squeeze(mo, w2).1;
    lemma_comms_append::<F, H>(mo, w1, h.m_comms);
    lemma_comms_append::<F, H>(mo, w3, h.hz_comms);
    transcript::lemma_starts_trans(h.state.proof, w1, w3);
    assert(h.m_comms.len() == pp.lookups@.len());
    assert(h.hz_comms.len() == both);
    assert forall|r: State<[u8; 32]>, whole: Seq<u8>| #[trigger]
        transcript::mirrors(w, r, whole) && transcript::starts_with(whole, h.state) implies {
        let (beta, s1) = transcript::squeeze(mo, r);
        &&& beta == h.beta
        &&& brakedown::read_roots(mo, s1, pp.lookups@.len()) matches Ok((ms, s2))
        &&& same_roots(h.m_comms, ms)
        &&& ({
            let (gamma, s3) = transcript::squeeze(mo, s2);
            &&& gamma == h.gamma
            &&& brakedown::read_roots(mo, s3, both) matches Ok((hzs, s4))
            &&& same_roots(h.hz_comms, hzs)
            &&& transcript::mirrors(h.state, s4, whole)
        })
    } by {
        transcript::lemma_starts_trans(whole, w3, h.state);
        let s1 = transcript::squeeze(mo, r).1;
        assert(transcript::mirrors(w1, s1, whole));
        lemma_comms_read_back::<F, H>(mo, w1, s1, h.m_comms, whole);
        let s2 = brakedown::read_roots(mo, s1, pp.lookups@.len())->Ok_0.1;
        let s3 = transcript::squeeze(mo, s2).1;
        assert(transcript::mirrors(w3, s3, whole));
        lemma_comms_read_back::<F, H>(mo, w3, s3, h.hz_comms, whole);
    }
}

/// The commitments that are sent stand for the polynomials behind the instances.
proof fn lemma_sent_stands<
    F: PrimeField,
    H: HashFunction,
    A: Steps<F, [u8; 32]>,
    Ci: PlonkishCircuit<F>,
>(
    steps: A,
    pp: HyperPlonkProverParam<F, BrakedownPcs<F, H>>,
    circuit: Ci,
    mo: Model<[u8; 32]>,
    w: State<[u8; 32]>,
)
    requires
        protocol::can_prove::<F, H, A, Ci>(steps, pp, circuit),
        committed(pp),
        protocol::prove_rounds::<F, H, A, Ci>(steps, pp, circuit, mo, w) is Ok,
    ensures
        ({
            let sent = protocol::prove_rounds::<F, H, A, Ci>(steps, pp, circuit, mo, w)->Ok_0;
            stand_for_all::<F, H>(pp.pcs, sent.comms, sent.polys, pp.num_instances@.len() as int)
        }),
{
    let n = pp.num_vars as nat;
    let instances = circuit.instances_spec();
    let w1 = protocol::absorb_instances(mo, w, instances)->Ok_0;
    let p = protocol::prove_phases::<F, H, Ci>(pp.pcs, circuit, pp.num_challenges@, mo, w1)->Ok_0;
    let ip = steps.instance_polys_spec(n, instances);
    let pre = pcs::owned_vals(pp.preprocess_polys@);
    let polys = ip + pre + p.polys;
    let h = protocol::prove_helpers::<F, H, A>(steps, pp, polys, p.challenges, mo, p.state)->Ok_0;
    lemma_phases_stand::<F, H, Ci>(pp.pcs, circuit, pp.num_challenges@, mo, w1);
    lemma_committed_together::<F, H>(pp.pcs, h.ms);
    lemma_committed_together::<F, H>(pp.pcs, h.hzs);
    let from = pp.num_instances@.len() as int;
    let blank = protocol::placeholders(pp.num_instances@.len());
    let a1 = blank + pp.preprocess_comms@;
    let a2 = a1 + p.comms;
    let a3 = a2 + pp.permutation_comms@;
    steps.polys_have_size(
        n,
        instances,
        Seq::empty(),
        Seq::empty(),
        Seq::empty(),
        Seq::empty(),
        0,
        Seq::empty(),
        0,
        0,
    );
    assert(stand_for_all::<F, H>(pp.pcs, blank, ip, from));
    lemma_stand_for_add::<F, H>(pp.pcs, blank, ip, pp.preprocess_comms@, pre, from);
    lemma_stand_for_add::<F, H>(pp.pcs, a1, ip + pre, p.comms, p.polys, from);
    let perms = protocol::without_indices(hyperplonk::indexed_vals(pp.permutation_polys@));
    lemma_stand_for_add::<F, H>(pp.pcs, a2, polys, pp.permutation_comms@, perms, from);
    lemma_stand_for_add::<F, H>(pp.pcs, a3, polys + perms, h.m_comms, h.ms, from);
    lemma_stand_for_add::<F, H>(
        pp.pcs,
        a3 + h.m_comms,
        polys + perms + h.ms,
        h.hz_comms,
        h.hzs,
        from,
    );
}

/// What the prover sends before the zero-check is what the verifier hears.
proof fn lemma_rounds_mirror<
    F: PrimeField,
    H: HashFunction,
    A: Steps<F, [u8; 32]>,
    Ci: PlonkishCircuit<F>,
>(
    steps: A,
    pp: HyperPlonkProverParam<F, BrakedownPcs<F, H>>,
    vp: HyperPlonkVerifierParam<F, BrakedownPcs<F, H>>,
    circuit: Ci,
    mo: Model<[u8; 32]>,
    w: State<[u8; 32]>,
    r: State<[u8; 32]>,
    whole: Seq<u8>,
)
    requires
        protocol::can_prove::<F, H, A, Ci>(steps, pp, circuit),
        paired(pp, vp),
        steps.supports(pp.lookups@.len(), pp.num_permutation_z_polys as nat),
        transcript::round_trips(mo, F::modulus()),
        transcript::mirrors(w, r, whole),
        protocol::prove_rounds::<F, H, A, Ci>(steps, pp, circuit, mo, w) is Ok,
        transcript::starts_with(
            whole,
            protocol::prove_rounds::<F, H, A, Ci>(steps, pp, circuit, mo, w)->Ok_0.state,
        ),
    ensures
        ({
            let sent = protocol::prove_rounds::<F, H, A, Ci>(steps, pp, circuit, mo, w)->Ok_0;
            &&& protocol::read_rounds::<F, H>(
                vp,
                circuit.instances_spec(),
                mo,
                r,
            ) matches Ok(heard)
            &&& same_roots(sent.comms, heard.comms)
            &&& heard.challenges == sent.challenges
            &&& heard.y == sent.y
            &&& transcript::mirrors(sent.state, heard.state, whole)
        }),
{
    let n = pp.num_vars as nat;
    let instances = circuit.instances_spec();
    let sent = protocol::prove_rounds::<F, H, A, Ci>(steps, pp, circuit, mo, w)->Ok_0;
    let w1 = protocol::absorb_instances(mo, w, instances)->Ok_0;
    lemma_absorb_mirrors(mo, w, r, instances, whole);
    let r1 = protocol::absorb_instances(mo, r, instances)->Ok_0;
    let p = protocol::prove_phases::<F, H, Ci>(pp.pcs, circuit, pp.num_challenges@, mo, w1)->Ok_0;
    let ip = steps.instance_polys_spec(n, instances);
    let pre = pcs::owned_vals(pp.preprocess_polys@);
    let polys = ip + pre + p.polys;
    protocol::lemma_first_polys::<F, H, A, Ci>(steps, pp, circuit, mo, w1);
    let h = protocol::prove_helpers::<F, H, A>(steps, pp, polys, p.challenges, mo, p.state)->Ok_0;
    lemma_helpers_mirror::<F, H, A>(steps, pp, polys, p.challenges, mo, p.state);
    let w2 = transcript::squeeze(mo, h.state).1;
    lemma_squeeze_keeps_proof(mo, w2, n);
    assert(transcript::starts_with(whole, h.state));
    transcript::lemma_starts_trans(whole, p.state, h.state);
    let k = pp.num_challenges@.len() as int;
    assert(pp.num_challenges@.take(k) =~= pp.num_challenges@);
    assert(pp.num_witness_polys@.take(k) =~= pp.num_witness_polys@);
    lemma_phases_mirror::<F, H, Ci>(
        pp.pcs,
        vp.pcs,
        circuit,
        pp.num_witness_polys@,
        pp.num_challenges@,
        n,
        k,
        mo,
        w1,
        r1,
        whole,
    );
    let (witness, challenges, r2) = protocol::read_phases::<F, H>(
        vp.pcs,
        pp.num_witness_polys@,
        pp.num_challenges@,
        mo,
        r1,
    )->Ok_0;
    assert(transcript::mirrors(p.state, r2, whole));
    let r3 = transcript::squeeze(mo, r2).1;
    let (ms, r4) = brakedown::read_roots(mo, r3, vp.num_lookups as nat)->Ok_0;
    let r5 = transcript::squeeze(mo, r4).1;
    let both = (vp.num_lookups + vp.num_permutation_z_polys) as nat;
    let (hzs, r6) = brakedown::read_roots(mo, r5, both)->Ok_0;
    let r7 = transcript::squeeze(mo, r6).1;
    assert(transcript::mirrors(w2, r7, whole));
    transcript::lemma_squeeze_many_mirrors(mo, w2, r7, n, whole);
    let heard = protocol::read_rounds::<F, H>(vp, instances, mo, r)->Ok_0;
    let blank = protocol::placeholders(pp.num_instances@.len());
    lemma_same_roots_add(blank, blank, pp.preprocess_comms@, pp.preprocess_comms@);
    let a1 = blank + pp.preprocess_comms@;
    lemma_same_roots_add(a1, a1, p.comms, witness);
    let a2 = a1 + p.comms;
    let b2 = a1 + witness;
    lemma_same_roots_add(a2, b2, pp.permutation_comms@, pp.permutation_comms@);
    let a3 = a2 + pp.permutation_comms@;
    let b3 = b2 + pp.permutation_comms@;
    lemma_same_roots_add(a3, b3, h.m_comms, ms);
    lemma_same_roots_add(a3 + h.m_comms, b3 + ms, h.hz_comms, hzs);
}

/// The zero-check of the expression `e` on `polys` is honest, if it succeeds: what the prover
/// writes, the verifier reads back and accepts, and it leaves for each polynomial, in order,
/// the claim of its true value at the first point.
pub open spec fn checks_honestly<F: PrimeField, A: Steps<F, [u8; 32]>>(
    steps: A,
    num_instances: nat,
    e: ExpressionView,
    polys: Seq<Seq<int>>,
    instances: Seq<Seq<int>>,
    challenges: Seq<int>,
    y: Seq<int>,
    mo: Model<[u8; 32]>,
    w: State<[u8; 32]>,
) -> bool {
    steps.prove_zero_check_spec(num_instances, e, polys, challenges, y, mo, w) matches Ok(
        (points, evals, s),
    ) ==> {
        &&& transcript::starts_with(s.proof, w)
        &&& evals.len() == polys.len()
        &&& forall|i: int|
            0 <= i < evals.len() ==> (#[trigger] evals[i]).value == hypercube::mle(
                polys[i],
                points[0],
            ) % F::modulus()
        &&& forall|r: State<[u8; 32]>, whole: Seq<u8>| #[trigger]
            transcript::mirrors(w, r, whole) && transcript::starts_with(whole, s) ==> {
                &&& steps.verify_zero_check_spec(
                    y.len(),
                    e,
                    instances,
                    challenges,
                    y,
                    mo,
                    r,
                ) matches Ok((read_points, read_evals, t))
                &&& read_points == points
                &&& read_evals == evals
                &&& transcript::mirrors(s, t, whole)
            }
    }
}

/// The zero-check of a circuit, run after the rounds that `sent` holds, is honest.
pub open spec fn circuit_checks_honestly<
    F: PrimeField,
    H: HashFunction,
    A: Steps<F, [u8; 32]>,
    Ci: PlonkishCircuit<F>,
>(
    steps: A,
    pp: HyperPlonkProverParam<F, BrakedownPcs<F, H>>,
    circuit: Ci,
    sent: protocol::Sent,
    mo: Model<[u8; 32]>,
) -> bool {
    checks_honestly::<F, A>(
        steps,
        pp.num_instances@.len(),
        pp.expression@,
        sent.polys,
        circuit.instances_spec(),
        sent.challenges,
        sent.y,
        mo,
        sent.state,
    )
}

/// Circuits whose constraints always hold are checked honestly.
pub proof fn law_unconstrained_is_honest<F: PrimeField>(
    steps: Unconstrained,
    num_instances: nat,
    e: ExpressionView,
    polys: Seq<Seq<int>>,
    instances: Seq<Seq<int>>,
    challenges: Seq<int>,
    y: Seq<int>,
    mo: Model<[u8; 32]>,
    w: State<[u8; 32]>,
)
    requires
        polys.len() > 0,
        steps.num_polys == polys.len(),
        transcript::round_trips(mo, F::modulus()),
    ensures
        checks_honestly::<F, Unconstrained>(
            steps,
            num_instances,
            e,
            polys,
            instances,
            challenges,
            y,
            mo,
            w,
        ),
{
    let m = F::modulus();
    F::modulus_is_odd();
    let values = unconstrained::values_at(polys, y, m);
    let written = transcript::write_fields(mo, w, values);
    if written is Ok {
        transcript::lemma_write_fields_appends(mo, w, values);
        assert forall|r: State<[u8; 32]>, whole: Seq<u8>| #[trigger]
            transcript::mirrors(w, r, whole) && transcript::starts_with(
                whole,
                written->Ok_0,
            ) implies {
            &&& transcript::read_fields(mo, r, values.len()) matches Ok((read, t))
            &&& read == values
            &&& transcript::mirrors(written->Ok_0, t, whole)
        } by {
            transcript::lemma_fields_read_back(mo, m, w, r, values, whole);
        }
    }
}

/// The steps of circuits whose constraints always hold do not fail by themselves: nothing
/// does, if the circuit makes its witness.
pub proof fn law_unconstrained_does_not_fail<
    F: PrimeField,
    H: HashFunction,
    Ci: PlonkishCircuit<F>,
>(
    steps: Unconstrained,
    pp: HyperPlonkProverParam<F, BrakedownPcs<F, H>>,
    circuit: Ci,
    mo: Model<[u8; 32]>,
    st: State<[u8; 32]>,
)
    requires
        transcript::never_refuses(mo),
        protocol::absorb_instances(mo, st, circuit.instances_spec()) matches Ok(s)
            ==> phases_are_synthesized::<F, H, Ci>(pp.pcs, circuit, pp.num_challenges@, mo, s),
    ensures
        nothing_fails::<F, H, Unconstrained, Ci>(steps, pp, circuit, mo, st),
{
    let rounds = protocol::prove_rounds::<F, H, Unconstrained, Ci>(steps, pp, circuit, mo, st);
    if rounds is Ok {
        let sent = rounds->Ok_0;
        transcript::lemma_write_fields_succeeds(
            mo,
            sent.state,
            unconstrained::values_at(sent.polys, sent.y, F::modulus()),
        );
    }
}

/// The common opening is written, read and accepted.
proof fn lemma_batch_accepted<F: PrimeField, H: HashFunction>(
    pp: BrakedownProverParam<F>,
    vp: BrakedownVerifierParam<F>,
    polys: Seq<Seq<int>>,
    given: Seq<BrakedownCommitment>,
    comms: Seq<BrakedownCommitment>,
    points: Seq<Seq<int>>,
    evals: Seq<EvaluationView>,
    mo: Model<[u8; 32]>,
    w: State<[u8; 32]>,
)
    requires
        pp.param.code@.wf(),
        vp.param.code@ == pp.param.code@,
        polys.len() > 0,
        given.len() == polys.len(),
        comms.len() == polys.len(),
        evals.len() == polys.len(),
        polys.len() == 1 ==> stands_for::<F, H>(pp, comms[0], polys[0]),
        points.len() > 0,
        points[0].len() == vp.param.num_vars,
        pcs::all_sized(polys, pow2(vp.param.num_vars as nat)),
        brakedown::can_open_evals(
            pp.param.code@,
            pow2(vp.param.num_vars as nat),
            vp.param.num_vars as nat,
        ),
        forall|k: int|
            0 <= k < evals.len() ==> (#[trigger] evals[k]).value == hypercube::mle(
                polys[k],
                points[0],
            ) % F::modulus(),
        transcript::round_trips(mo, F::modulus()),
        BrakedownPcs::<F, H>::batch_open_spec(pp, polys, given, points, evals, mo, w) is Ok,
    ensures
        ({
            let done = BrakedownPcs::<F, H>::batch_open_spec(
                pp,
                polys,
                given,
                points,
                evals,
                mo,
                w,
            )->Ok_0;
            &&& transcript::starts_with(done.proof, w)
            &&& forall|r: State<[u8; 32]>, whole: Seq<u8>| #[trigger]
                transcript::mirrors(w, r, whole) && transcript::starts_with(whole, done) ==> (
                BrakedownPcs::<F, H>::batch_verify_spec(
                    vp,
                    comms,
                    points,
                    evals,
                    mo,
                    r,
                ) matches Ok(s) && transcript::mirrors(done, s, whole))
        }),
{
    let n = vp.param.num_vars as nat;
    let c = pp.param.code@;
    let done = BrakedownPcs::<F, H>::batch_open_spec(
        pp,
        polys,
        given,
        points,
        evals,
        mo,
        w,
    )->Ok_0;
    assert(polys[0].len() == pow2(n));
    if polys.len() == 1 {
        laws::lemma_open_appends::<F, H>(c, polys[0], points[0], mo, w);
    } else {
        let (x, s) = transcript::squeeze(mo, w);
        laws::lemma_open_appends::<F, H>(
            c,
            brakedown::batched(polys, x, F::modulus()),
            points[0],
            mo,
            s,
        );
    }
    assert forall|r: State<[u8; 32]>, whole: Seq<u8>| #[trigger]
        transcript::mirrors(w, r, whole) && transcript::starts_with(whole, done) implies (
    BrakedownPcs::<F, H>::batch_verify_spec(vp, comms, points, evals, mo, r) matches Ok(s)
        && transcript::mirrors(done, s, whole)) by {
        if polys.len() == 1 {
            assert(evals[0].value == hypercube::mle(polys[0], points[0]) % F::modulus());
            laws::law_honest_opening::<F, H>(
                c,
                n,
                Some(comms[0].root),
                polys[0],
                points[0],
                evals[0].value,
                mo,
                w,
                r,
                whole,
            );
        } else {
            laws::law_honest_batch_is_accepted::<F, H>(
                pp,
                vp,
                polys,
                comms,
                points,
                evals,
                mo,
                w,
                r,
                whole,
            );
        }
    }
}

/// Completeness of the backend: whoever reads the proof that is written for a circuit
/// accepts it, with a shift-open proof for each of `shifts` or without any. The zero-check
/// is taken to be honest, and instances, to which there is no commitment, are neither
/// shifted nor the only polynomial.
pub proof fn law_honest_proof_is_accepted<
    F: PrimeField,
    H: HashFunction,
    A: Steps<F, [u8; 32]>,
    Ci: PlonkishCircuit<F>,
>(
    steps: A,
    pp: HyperPlonkProverParam<F, BrakedownPcs<F, H>>,
    vp: HyperPlonkVerifierParam<F, BrakedownPcs<F, H>>,
    circuit: Ci,
    shifts: Seq<ShiftConstraint>,
    mo: Model<[u8; 32]>,
    w: State<[u8; 32]>,
    r: State<[u8; 32]>,
    whole: Seq<u8>,
)
    requires
        pp.pcs.param.code@.wf(),
        protocol::can_prove::<F, H, A, Ci>(steps, pp, circuit),
        paired(pp, vp),
        committed(pp),
        steps.supports(pp.lookups@.len(), pp.num_permutation_z_polys as nat),
        forall|i: int|
            0 <= i < shifts.len() ==> (#[trigger] shifts[i]).poly_idx >= pp.num_instances@.len(),
        transcript::round_trips(mo, F::modulus()),
        transcript::mirrors(w, r, whole),
        protocol::prove_spec::<F, H, A, Ci>(steps, pp, circuit, shifts, mo, w) is Ok,
        ({
            let sent = protocol::prove_rounds::<F, H, A, Ci>(steps, pp, circuit, mo, w)->Ok_0;
            &&& sent.polys.len() == 1 ==> pp.num_instances@.len() == 0
            &&& circuit_checks_honestly::<F, H, A, Ci>(steps, pp, circuit, sent, mo)
        }),
        transcript::starts_with(
            whole,
            protocol::prove_spec::<F, H, A, Ci>(steps, pp, circuit, shifts, mo, w)->Ok_0,
        ),
    ensures
        protocol::verify_spec::<F, H, A>(
            steps,
            vp,
            circuit.instances_spec(),
            shifts,
            mo,
            r,
        ) matches Ok(s) && transcript::mirrors(
            protocol::prove_spec::<F, H, A, Ci>(steps, pp, circuit, shifts, mo, w)->Ok_0,
            s,
            whole,
        ),
{
    let n = pp.num_vars as nat;
    let from = pp.num_instances@.len() as int;
    let instances = circuit.instances_spec();
    let done = protocol::prove_spec::<F, H, A, Ci>(steps, pp, circuit, shifts, mo, w)->Ok_0;
    let sent = protocol::prove_rounds::<F, H, A, Ci>(steps, pp, circuit, mo, w)->Ok_0;
    let (points, evals, w1) = steps.prove_zero_check_spec(
        pp.num_instances@.len(),
        pp.expression@,
        sent.polys,
        sent.challenges,
        sent.y,
        mo,
        sent.state,
    )->Ok_0;
    let w2 = BrakedownPcs::<F, H>::batch_open_spec(
        pp.pcs,
        sent.polys,
        sent.comms,
        points,
        evals,
        mo,
        w1,
    )->Ok_0;
    protocol::lemma_sent_shape::<F, H, A, Ci>(steps, pp, circuit, mo, w);
    steps.zero_check_can_be_opened(
        pp.num_instances@.len(),
        pp.expression@,
        sent.polys,
        instances,
        sent.challenges,
        sent.y,
        mo,
        sent.state,
    );
    lemma_sent_stands::<F, H, A, Ci>(steps, pp, circuit, mo, w);
    assert(shifts_are_committed::<F, H>(pp.pcs, sent.polys, sent.comms, shifts)) by {
        assert forall|i: int|
            0 <= i < shifts.len() && (#[trigger] shifts[i]).poly_idx
                < sent.polys.len() implies stands_for::<F, H>(
            pp.pcs,
            sent.comms[shifts[i].poly_idx as int],
            sent.polys[shifts[i].poly_idx as int],
        ) by {
            assert(from <= shifts[i].poly_idx);
        }
    }
    lemma_shifts_append::<F, H>(
        pp.pcs,
        vp.pcs,
        sent.polys,
        sent.comms,
        sent.comms,
        shifts,
        mo,
        w2,
    );
    transcript::lemma_starts_trans(whole, w2, done);
    assert(sent.polys.len() == 1 ==> stands_for::<F, H>(pp.pcs, sent.comms[0], sent.polys[0]));
    lemma_batch_accepted::<F, H>(
        pp.pcs,
        vp.pcs,
        sent.polys,
        sent.comms,
        sent.comms,
        points,
        evals,
        mo,
        w1,
    );
    transcript::lemma_starts_trans(whole, w1, w2);
    transcript::lemma_starts_trans(whole, sent.state, w1);
    lemma_rounds_mirror::<F, H, A, Ci>(steps, pp, vp, circuit, mo, w, r, whole);
    let heard = protocol::read_rounds::<F, H>(vp, instances, mo, r)->Ok_0;
    lemma_stand_for_same::<F, H>(pp.pcs, sent.comms, heard.comms, sent.polys, from);
    assert(transcript::mirrors(sent.state, heard.state, whole));
    let checked = steps.verify_zero_check_spec(
        sent.y.len(),
        pp.expression@,
        instances,
        sent.challenges,
        sent.y,
        mo,
        heard.state,
    );
    assert(checked is Ok);
    let r1 = checked->Ok_0.2;
    assert(transcript::mirrors(w1, r1, whole));
    assert(sent.polys.len() == 1 ==> stands_for::<F, H>(pp.pcs, heard.comms[0], sent.polys[0]));
    lemma_batch_accepted::<F, H>(
        pp.pcs,
        vp.pcs,
        sent.polys,
        sent.comms,
        heard.comms,
        points,
        evals,
        mo,
        w1,
    );
    let r2 = BrakedownPcs::<F, H>::batch_verify_spec(
        vp.pcs,
        heard.comms,
        points,
        evals,
        mo,
        r1,
    )->Ok_0;
    assert(transcript::mirrors(w2, r2, whole));
    assert(shifts_are_committed::<F, H>(pp.pcs, sent.polys, heard.comms, shifts)) by {
        assert forall|i: int|
            0 <= i < shifts.len() && (#[trigger] shifts[i]).poly_idx
                < sent.polys.len() implies stands_for::<F, H>(
            pp.pcs,
            heard.comms[shifts[i].poly_idx as int],
            sent.polys[shifts[i].poly_idx as int],
        ) by {
            assert(from <= shifts[i].poly_idx);
        }
    }
    law_shift_proofs_are_accepted::<F, H>(
        pp.pcs,
        vp.pcs,
        sent.polys,
        sent.comms,
        heard.comms,
        shifts,
        mo,
        w2,
        r2,
        whole,
    );
}

/// The backend over Keccak-256, from end to end: whoever reads the bytes of an honest proof
/// accepts them, to the last one.
pub proof fn law_proof_bytes_are_accepted<
    F: PrimeField,
    H: HashFunction,
    A: Steps<F, [u8; 32]>,
    Ci: PlonkishCircuit<F>,
>(
    steps: A,
    pp: HyperPlonkProverParam<F, BrakedownPcs<F, H>>,
    vp: HyperPlonkVerifierParam<F, BrakedownPcs<F, H>>,
    circuit: Ci,
    shifts: Seq<ShiftConstraint>,
    done: State<[u8; 32]>,
)
    requires
        pp.pcs.param.code@.wf(),
        protocol::can_prove::<F, H, A, Ci>(steps, pp, circuit),
        paired(pp, vp),
        committed(pp),
        steps.supports(pp.lookups@.len(), pp.num_permutation_z_polys as nat),
        forall|i: int|
            0 <= i < shifts.len() ==> (#[trigger] shifts[i]).poly_idx >= pp.num_instances@.len(),
        protocol::prove_spec::<F, H, A, Ci>(
            steps,
            pp,
            circuit,
            shifts,
            transcript::keccak_model::<F>(),
            State { events: Seq::empty(), proof: Seq::empty() },
        ) == Ok::<State<[u8; 32]>, Halt<[u8; 32]>>(done),
        ({
            let mo = transcript::keccak_model::<F>();
            let start = State { events: Seq::empty(), proof: Seq::empty() };
            let sent = protocol::prove_rounds::<F, H, A, Ci>(steps, pp, circuit, mo, start)->Ok_0;
            &&& sent.polys.len() == 1 ==> pp.num_instances@.len() == 0
            &&& circuit_checks_honestly::<F, H, A, Ci>(steps, pp, circuit, sent, mo)
        }),
    ensures
        protocol::verify_spec::<F, H, A>(
            steps,
            vp,
            circuit.instances_spec(),
            shifts,
            transcript::keccak_model::<F>(),
            State { events: Seq::empty(), proof: done.proof },
        ) matches Ok(s) && s.proof.len() == 0,
{
    let mo = transcript::keccak_model::<F>();
    let start = State { events: Seq::empty(), proof: Seq::empty() };
    let reader = State { events: Seq::empty(), proof: done.proof };
    transcript::keccak_round_trips::<F>();
    assert(start.proof + reader.proof =~= done.proof);
    assert(done.proof.subrange(0, done.proof.len() as int) =~= done.proof);
    law_honest_proof_is_accepted::<F, H, A, Ci>(
        steps,
        pp,
        vp,
        circuit,
        shifts,
        mo,
        start,
        reader,
        done.proof,
    );
    let s = protocol::verify_spec::<F, H, A>(
        steps,
        vp,
        circuit.instances_spec(),
        shifts,
        mo,
        reader,
    )->Ok_0;
    assert((done.proof + s.proof).len() == done.proof.len());
}

/// The backend over Keccak-256, from preprocessing on: what is made of a well-formed circuit
/// is ready for proving and verifying, and whoever reads the bytes of its proof accepts
/// them, to the last one. The steps are taken to support as many lookups and permutation
/// helpers as the circuit has, and its zero-check to be honest.
pub proof fn law_preprocessed_circuits_are_accepted<
    F: PrimeField,
    H: HashFunction,
    A: Steps<F, [u8; 32]>,
    Ci: PlonkishCircuit<F>,
>(
    steps: A,
    param: BrakedownParam<F>,
    info: PlonkishCircuitInfo<F>,
    pp: HyperPlonkProverParam<F, BrakedownPcs<F, H>>,
    vp: HyperPlonkVerifierParam<F, BrakedownPcs<F, H>>,
    circuit: Ci,
    shifts: Seq<ShiftConstraint>,
)
    requires
        param.code@.wf(),
        info.k == param.num_vars,
        pow2(info.k as nat) <= usize::MAX,
        brakedown::can_open_evals(param.code@, pow2(info.k as nat), info.k as nat),
        info.well_formed(),
        info.num_polys() > 0,
        pcs::all_sized(pcs::points_vals(info.preprocess_polys@), pow2(info.k as nat)),
        hyperplonk::indexed_sized(steps.permutation_polys_spec(info), pow2(info.k as nat)),
        info.lookups@.len() + steps.compose_spec(info).0 <= usize::MAX,
        hyperplonk_brakedown::preprocessed::<F, H, A>(
            steps,
            param,
            info,
            Ok::<_, Error>((pp, vp)),
        ),
        protocol::instances_match(info.num_instances@, circuit.instances_spec()),
        protocol::synthesizes::<F, Ci>(
            circuit,
            info.num_witness_polys@,
            info.num_challenges@,
            info.k as nat,
        ),
        steps.can_place(info.k as nat, circuit.instances_spec()),
        steps.supports(info.lookups@.len(), steps.compose_spec(info).0),
        forall|i: int|
            0 <= i < shifts.len() ==> (#[trigger] shifts[i]).poly_idx >= info.num_instances@.len(),
        ({
            let mo = transcript::keccak_model::<F>();
            let start = State { events: Seq::empty(), proof: Seq::empty() };
            let sent = protocol::prove_rounds::<F, H, A, Ci>(steps, pp, circuit, mo, start)->Ok_0;
            &&& sent.polys.len() == 1 ==> info.num_instances@.len() == 0
            &&& circuit_checks_honestly::<F, H, A, Ci>(steps, pp, circuit, sent, mo)
        }),
    ensures
        protocol::can_prove::<F, H, A, Ci>(steps, pp, circuit),
        protocol::can_verify::<F, H>(vp, circuit.instances_spec()),
        protocol::prove_spec::<F, H, A, Ci>(
            steps,
            pp,
            circuit,
            shifts,
            transcript::keccak_model::<F>(),
            State { events: Seq::empty(), proof: Seq::empty() },
        ) matches Ok(done) ==> (protocol::verify_spec::<F, H, A>(
            steps,
            vp,
            circuit.instances_spec(),
            shifts,
            transcript::keccak_model::<F>(),
            State { events: Seq::empty(), proof: done.proof },
        ) matches Ok(s) && s.proof.len() == 0),
{
    let proved = protocol::prove_spec::<F, H, A, Ci>(
        steps,
        pp,
        circuit,
        shifts,
        transcript::keccak_model::<F>(),
        State { events: Seq::empty(), proof: Seq::empty() },
    );
    law_preprocessing_pairs::<F, H, A>(steps, param, info, pp, vp);
    law_preprocessing_readies::<F, H, A>(steps, param, info, pp, vp, circuit.instances_spec());
    assert(hyperplonk::lookups_view(pp.lookups@).len() == pp.lookups@.len());
    assert(hyperplonk::lookups_view(info.lookups@).len() == info.lookups@.len());
    if proved is Ok {
        law_proof_bytes_are_accepted::<F, H, A, Ci>(
            steps,
            pp,
            vp,
            circuit,
            shifts,
            proved->Ok_0,
        );
    }
}

/// Absorbing succeeds on a transcript that refuses nothing.
proof fn lemma_absorb_fields_succeeds<C>(mo: Model<C>, st: State<C>, vs: Seq<int>)
    requires
        transcript::never_refuses(mo),
    ensures
        protocol::absorb_fields(mo, st, vs) is Ok,
    decreases vs.len(),
{
    if vs.len() > 0 {
        lemma_absorb_fields_succeeds(mo, st, vs.drop_last());
    }
}

/// Absorbing the instances succeeds on a transcript that refuses nothing.
proof fn lemma_absorb_succeeds<C>(mo: Model<C>, st: State<C>, instances: Seq<Seq<int>>)
    requires
        transcript::never_refuses(mo),
    ensures
        protocol::absorb_instances(mo, st, instances) is Ok,
    decreases instances.len(),
{
    if instances.len() > 0 {
        lemma_absorb_succeeds(mo, st, instances.drop_last());
        lemma_absorb_fields_succeeds(
            mo,
            protocol::absorb_instances(mo, st, instances.drop_last())->Ok_0,
            instances.last(),
        );
    }
}

/// Polynomials of the right size are committed to, and the commitments written.
proof fn lemma_commit_and_write_succeeds<F: PrimeField, H: HashFunction>(
    pp: BrakedownProverParam<F>,
    polys: Seq<Seq<int>>,
    num_vars: nat,
    mo: Model<[u8; 32]>,
    st: State<[u8; 32]>,
)
    requires
        transcript::never_refuses(mo),
        pp.param.code@.wf(),
        pcs::all_sized(polys, pow2(num_vars)),
        brakedown::can_open_evals(pp.param.code@, pow2(num_vars), num_vars),
    ensures
        pcs::batch_commit_and_write_spec::<F, BrakedownPcs<F, H>>(pp, polys, mo, st) is Ok,
{
    lemma_commit_all_succeeds::<F, H>(pp, polys, num_vars);
    let f = |e: Seq<int>| BrakedownPcs::<F, H>::commit_spec(pp, e);
    lemma_write_comms_succeeds::<F, H>(mo, st, pcs::commit_all(f, polys)->Ok_0);
}

/// Polynomials of the right size are committed to.
proof fn lemma_commit_all_succeeds<F: PrimeField, H: HashFunction>(
    pp: BrakedownProverParam<F>,
    polys: Seq<Seq<int>>,
    num_vars: nat,
)
    requires
        pp.param.code@.wf(),
        pcs::all_sized(polys, pow2(num_vars)),
        brakedown::can_open_evals(pp.param.code@, pow2(num_vars), num_vars),
    ensures
        pcs::commit_all(|e: Seq<int>| BrakedownPcs::<F, H>::commit_spec(pp, e), polys) is Ok,
    decreases polys.len(),
{
    if polys.len() > 0 {
        let front = polys.drop_last();
        assert forall|i: int| 0 <= i < front.len() implies (#[trigger] front[i]).len() == pow2(
            num_vars,
        ) by {
            assert(polys[i].len() == pow2(num_vars));
        }
        lemma_commit_all_succeeds::<F, H>(pp, front, num_vars);
        assert(polys[polys.len() - 1].len() == pow2(num_vars));
        laws::law_commitment_succeeds::<F, H>(pp.param.code@, polys.last(), num_vars);
    }
}

/// Writing commitments succeeds on a transcript that refuses nothing.
proof fn lemma_write_comms_succeeds<F: PrimeField, H: HashFunction>(
    mo: Model<[u8; 32]>,
    st: State<[u8; 32]>,
    comms: Seq<BrakedownCommitment>,
)
    requires
        transcript::never_refuses(mo),
    ensures
        pcs::write_comms::<F, BrakedownPcs<F, H>>(mo, st, comms) is Ok,
    decreases comms.len(),
{
    if comms.len() > 0 {
        lemma_comms_step::<F, H>(mo, st, comms);
        lemma_write_comms_succeeds::<F, H>(mo, st, comms.drop_last());
    }
}

/// Whether the circuit makes its witness in each of its phases, from the challenges drawn
/// before.
pub open spec fn phases_are_synthesized<F: PrimeField, H: HashFunction, Ci: PlonkishCircuit<F>>(
    pp: BrakedownProverParam<F>,
    circuit: Ci,
    num_challenges: Seq<usize>,
    mo: Model<[u8; 32]>,
    st: State<[u8; 32]>,
) -> bool {
    forall|k: int|
        0 <= k < num_challenges.len() && (#[trigger] protocol::prove_phases::<F, H, Ci>(
            pp,
            circuit,
            num_challenges.take(k),
            mo,
            st,
        )) is Ok ==> circuit.synthesize_spec(
            k as nat,
            protocol::prove_phases::<F, H, Ci>(
                pp,
                circuit,
                num_challenges.take(k),
                mo,
                st,
            )->Ok_0.challenges,
        ) is Ok
}

/// Whether the multiplicities of the lookups among `polys` can be counted.
pub open spec fn lookups_are_counted<F: PrimeField, H: HashFunction, A: Steps<F, [u8; 32]>>(
    steps: A,
    pp: HyperPlonkProverParam<F, BrakedownPcs<F, H>>,
    polys: Seq<Seq<int>>,
    challenges: Seq<int>,
    mo: Model<[u8; 32]>,
    st: State<[u8; 32]>,
) -> bool {
    let lookups = hyperplonk::lookups_view(pp.lookups@);
    let beta = transcript::squeeze(mo, st).0;
    let betas = protocol::powers_of(beta, protocol::max_width(lookups), F::modulus());
    steps.lookup_m_polys_spec(
        steps.lookup_compressed_polys_spec(lookups, polys, challenges, betas),
    ) is Ok
}

/// Whether neither the circuit nor the steps fail by themselves while the circuit is proved:
/// each phase has a witness, the lookups' entries are found in their tables, and the
/// zero-check succeeds.
pub open spec fn nothing_fails<
    F: PrimeField,
    H: HashFunction,
    A: Steps<F, [u8; 32]>,
    Ci: PlonkishCircuit<F>,
>(
    steps: A,
    pp: HyperPlonkProverParam<F, BrakedownPcs<F, H>>,
    circuit: Ci,
    mo: Model<[u8; 32]>,
    st: State<[u8; 32]>,
) -> bool {
    let instances = circuit.instances_spec();
    protocol::absorb_instances(mo, st, instances) matches Ok(s) ==> {
        &&& phases_are_synthesized::<F, H, Ci>(pp.pcs, circuit, pp.num_challenges@, mo, s)
        &&& protocol::prove_phases::<F, H, Ci>(
            pp.pcs,
            circuit,
            pp.num_challenges@,
            mo,
            s,
        ) matches Ok(p) ==> lookups_are_counted::<F, H, A>(
            steps,
            pp,
            steps.instance_polys_spec(pp.num_vars as nat, instances) + pcs::owned_vals(
                pp.preprocess_polys@,
            ) + p.polys,
            p.challenges,
            mo,
            p.state,
        )
        &&& protocol::prove_rounds::<F, H, A, Ci>(steps, pp, circuit, mo, st) matches Ok(sent)
            ==> steps.prove_zero_check_spec(
            pp.num_instances@.len(),
            pp.expression@,
            sent.polys,
            sent.challenges,
            sent.y,
            mo,
            sent.state,
        ) is Ok
    }
}

/// The phases succeed on a transcript that refuses nothing.
proof fn lemma_phases_succeed<F: PrimeField, H: HashFunction, Ci: PlonkishCircuit<F>>(
    pp: BrakedownProverParam<F>,
    circuit: Ci,
    num_witness_polys: Seq<usize>,
    num_challenges: Seq<usize>,
    num_vars: nat,
    k: int,
    mo: Model<[u8; 32]>,
    st: State<[u8; 32]>,
)
    requires
        transcript::never_refuses(mo),
        pp.param.code@.wf(),
        brakedown::can_open_evals(pp.param.code@, pow2(num_vars), num_vars),
        protocol::synthesizes::<F, Ci>(circuit, num_witness_polys, num_challenges, num_vars),
        phases_are_synthesized::<F, H, Ci>(pp, circuit, num_challenges, mo, st),
        0 <= k <= num_challenges.len(),
    ensures
        protocol::prove_phases::<F, H, Ci>(pp, circuit, num_challenges.take(k), mo, st) is Ok,
    decreases k,
{
    if k > 0 {
        let front = num_challenges.take(k - 1);
        assert(num_challenges.take(k).drop_last() =~= front);
        lemma_phases_succeed::<F, H, Ci>(
            pp,
            circuit,
            num_witness_polys,
            num_challenges,
            num_vars,
            k - 1,
            mo,
            st,
        );
        protocol::lemma_phases_shape::<F, H, Ci>(
            pp,
            circuit,
            num_witness_polys,
            num_challenges,
            num_vars,
            k - 1,
            mo,
            st,
        );
        let p = protocol::prove_phases::<F, H, Ci>(pp, circuit, front, mo, st)->Ok_0;
        let polys = circuit.synthesize_spec((k - 1) as nat, p.challenges)->Ok_0;
        assert(circuit.can_synthesize((k - 1) as nat, p.challenges));
        lemma_commit_and_write_succeeds::<F, H>(pp, polys, num_vars, mo, p.state);
    }
}

/// Shift-open proofs succeed on a transcript that refuses nothing.
proof fn lemma_shifts_succeed<F: PrimeField, H: HashFunction>(
    pp: BrakedownProverParam<F>,
    polys: Seq<Seq<int>>,
    comms: Seq<BrakedownCommitment>,
    shifts: Seq<ShiftConstraint>,
    num_vars: nat,
    mo: Model<[u8; 32]>,
    st: State<[u8; 32]>,
)
    requires
        transcript::never_refuses(mo),
        shifts.len() > 0 ==> num_vars > 0,
    ensures
        protocol::prove_shifts::<F, H>(pp, polys, comms, shifts, num_vars, mo, st) is Ok,
    decreases shifts.len(),
{
    if shifts.len() > 0 {
        let front = shifts.drop_last();
        lemma_shifts_succeed::<F, H>(pp, polys, comms, front, num_vars, mo, st);
        let s = protocol::prove_shifts::<F, H>(pp, polys, comms, front, num_vars, mo, st)->Ok_0;
        let i = shifts.last().poly_idx as int;
        if i < polys.len() {
            laws::law_shift_open_succeeds::<F, H>(
                pp,
                polys[i],
                protocol::comm_at(comms, i),
                num_vars,
                shifts.last().k as int,
                mo,
                s,
            );
        }
    }
}

/// Proving succeeds on a transcript that refuses nothing, if neither the circuit nor the
/// steps fail by themselves, and shifts are asked for only where there is a variable.
pub proof fn law_proving_succeeds<
    F: PrimeField,
    H: HashFunction,
    A: Steps<F, [u8; 32]>,
    Ci: PlonkishCircuit<F>,
>(
    steps: A,
    pp: HyperPlonkProverParam<F, BrakedownPcs<F, H>>,
    circuit: Ci,
    shifts: Seq<ShiftConstraint>,
    mo: Model<[u8; 32]>,
    st: State<[u8; 32]>,
)
    requires
        transcript::never_refuses(mo),
        pp.pcs.param.code@.wf(),
        protocol::can_prove::<F, H, A, Ci>(steps, pp, circuit),
        nothing_fails::<F, H, A, Ci>(steps, pp, circuit, mo, st),
        shifts.len() > 0 ==> pp.num_vars > 0,
    ensures
        protocol::prove_spec::<F, H, A, Ci>(steps, pp, circuit, shifts, mo, st) is Ok,
{
    let n = pp.num_vars as nat;
    let instances = circuit.instances_spec();
    lemma_absorb_succeeds(mo, st, instances);
    let s1 = protocol::absorb_instances(mo, st, instances)->Ok_0;
    let k = pp.num_challenges@.len() as int;
    assert(pp.num_challenges@.take(k) =~= pp.num_challenges@);
    lemma_phases_succeed::<F, H, Ci>(
        pp.pcs,
        circuit,
        pp.num_witness_polys@,
        pp.num_challenges@,
        n,
        k,
        mo,
        s1,
    );
    let p = protocol::prove_phases::<F, H, Ci>(pp.pcs, circuit, pp.num_challenges@, mo, s1)->Ok_0;
    protocol::lemma_first_polys::<F, H, A, Ci>(steps, pp, circuit, mo, s1);
    let polys = steps.instance_polys_spec(n, instances) + pcs::owned_vals(pp.preprocess_polys@)
        + p.polys;
    lemma_helpers_succeed::<F, H, A>(steps, pp, polys, p.challenges, mo, p.state);
    let sent = protocol::prove_rounds::<F, H, A, Ci>(steps, pp, circuit, mo, st)->Ok_0;
    let zero = steps.prove_zero_check_spec(
        pp.num_instances@.len(),
        pp.expression@,
        sent.polys,
        sent.challenges,
        sent.y,
        mo,
        sent.state,
    );
    assert(zero is Ok);
    let (points, evals, s2) = zero->Ok_0;
    let c = pp.pcs.param.code@;
    if sent.polys.len() == 1 {
        laws::law_opening_succeeds::<F, H>(c, sent.polys[0], points[0], mo, s2);
    } else {
        let (x, s3) = transcript::squeeze(mo, s2);
        laws::law_opening_succeeds::<F, H>(
            c,
            brakedown::batched(sent.polys, x, F::modulus()),
            points[0],
            mo,
            s3,
        );
    }
    let s4 = BrakedownPcs::<F, H>::batch_open_spec(
        pp.pcs,
        sent.polys,
        sent.comms,
        points,
        evals,
        mo,
        s2,
    )->Ok_0;
    lemma_shifts_succeed::<F, H>(pp.pcs, sent.polys, sent.comms, shifts, n, mo, s4);
}

/// The helpers succeed on a transcript that refuses nothing.
proof fn lemma_helpers_succeed<F: PrimeField, H: HashFunction, A: Steps<F, [u8; 32]>>(
    steps: A,
    pp: HyperPlonkProverParam<F, BrakedownPcs<F, H>>,
    polys: Seq<Seq<int>>,
    challenges: Seq<int>,
    mo: Model<[u8; 32]>,
    st: State<[u8; 32]>,
)
    requires
        transcript::never_refuses(mo),
        pp.pcs.param.code@.wf(),
        protocol::prover_ready(pp),
        pcs::all_sized(polys, pow2(pp.num_vars as nat)),
        lookups_are_counted::<F, H, A>(steps, pp, polys, challenges, mo, st),
    ensures
        protocol::prove_helpers::<F, H, A>(steps, pp, polys, challenges, mo, st) is Ok,
{
    let n = pp.num_vars as nat;
    let lookups = hyperplonk::lookups_view(pp.lookups@);
    let (beta, s1) = transcript::squeeze(mo, st);
    let betas = protocol::powers_of(beta, protocol::max_width(lookups), F::modulus());
    let perms = hyperplonk::indexed_vals(pp.permutation_polys@);
    let nz = pp.num_permutation_z_polys as nat;
    let compressed = steps.lookup_compressed_polys_spec(lookups, polys, challenges, betas);
    let ms = steps.lookup_m_polys_spec(compressed)->Ok_0;
    steps.polys_have_size(n, Seq::empty(), lookups, polys, challenges, betas, nz, perms, beta, 0);
    assert(steps.lookup_m_polys_spec(compressed) is Ok);
    lemma_commit_and_write_succeeds::<F, H>(pp.pcs, ms, n, mo, s1);
    let s2 = pcs::batch_commit_and_write_spec::<F, BrakedownPcs<F, H>>(pp.pcs, ms, mo, s1)->Ok_0.1;
    let (gamma, s3) = transcript::squeeze(mo, s2);
    steps.polys_have_size(
        n,
        Seq::empty(),
        lookups,
        polys,
        challenges,
        betas,
        nz,
        perms,
        beta,
        gamma,
    );
    let hs = steps.lookup_h_polys_spec(compressed, ms, gamma);
    let zs = steps.permutation_z_polys_spec(nz, perms, polys, beta, gamma);
    protocol::lemma_all_sized_add(hs, zs, pow2(n));
    lemma_commit_and_write_succeeds::<F, H>(pp.pcs, hs + zs, n, mo, s3);
}

} // verus!
