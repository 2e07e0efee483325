//! The rounds of HyperPlonk over Brakedown.

use crate::backend;
use crate::backend::hyperplonk;
use crate::backend::hyperplonk::{HyperPlonkProverParam, HyperPlonkVerifierParam, Steps};
use crate::backend::hyperplonk_brakedown::ShiftConstraint;
use crate::backend::PlonkishCircuit;
use crate::pcs;
use crate::pcs::multilinear::brakedown;
use crate::pcs::multilinear::brakedown::{
    BrakedownCommitment, BrakedownPcs, BrakedownProverParam, BrakedownVerifierParam,
};
use crate::pcs::PolynomialCommitmentScheme;
use crate::piop::shift_open;
use crate::poly::multilinear;
use crate::poly::multilinear::MultilinearPolynomial;
use crate::util::expression::Expression;
use crate::util::field;
use crate::util::field::PrimeField;
use crate::util::hash::HashFunction;
use crate::util::integer;
use crate::util::modular;
use crate::util::transcript;
use crate::util::transcript::{Halt, Item, Model, State, Transcript, TranscriptRead, TranscriptWrite};
use crate::{Error, ErrorView};
use vstd::arithmetic::power2::pow2;
use vstd::prelude::*;

verus! {

/// The state after the field elements `vs` are absorbed.
pub open spec fn absorb_fields<C>(mo: Model<C>, st: State<C>, vs: Seq<int>) -> Result<
    State<C>,
    Halt<C>,
>
    decreases vs.len(),
{
    if vs.len() == 0 {
        Ok(st)
    } else {
        match absorb_fields(mo, st, vs.drop_last()) {
            Err(e) => Err(e),
            Ok(s) => transcript::absorb(mo, s, Item::Field(vs.last())),
        }
    }
}

/// The state after all instances are absorbed.
pub open spec fn absorb_instances<C>(mo: Model<C>, st: State<C>, instances: Seq<Seq<int>>) -> Result<
    State<C>,
    Halt<C>,
>
    decreases instances.len(),
{
    if instances.len() == 0 {
        Ok(st)
    } else {
        match absorb_instances(mo, st, instances.drop_last()) {
            Err(e) => Err(e),
            Ok(s) => absorb_fields(mo, s, instances.last()),
        }
    }
}

/// Whether there are as many instances as `counts` says, each with as many values.
pub open spec fn instances_match(counts: Seq<usize>, instances: Seq<Seq<int>>) -> bool {
    &&& counts.len() == instances.len()
    &&& forall|i: int|
        0 <= i < counts.len() ==> (#[trigger] instances[i]).len() == counts[i]
}

/// An early error stops the whole.
proof fn lemma_absorb_fields_prefix<C>(mo: Model<C>, st: State<C>, vs: Seq<int>, k: int)
    requires
        0 <= k <= vs.len(),
        absorb_fields(mo, st, vs.take(k)) is Err,
    ensures
        absorb_fields(mo, st, vs) == absorb_fields(mo, st, vs.take(k)),
    decreases vs.len() - k,
{
    if k == vs.len() {
        assert(vs.take(k) =~= vs);
    } else {
        assert(vs.take(k + 1).drop_last() =~= vs.take(k));
        lemma_absorb_fields_prefix(mo, st, vs, k + 1);
    }
}

/// An early error stops the whole.
proof fn lemma_absorb_instances_prefix<C>(
    mo: Model<C>,
    st: State<C>,
    instances: Seq<Seq<int>>,
    k: int,
)
    requires
        0 <= k <= instances.len(),
        absorb_instances(mo, st, instances.take(k)) is Err,
    ensures
        absorb_instances(mo, st, instances) == absorb_instances(mo, st, instances.take(k)),
    decreases instances.len() - k,
{
    if k == instances.len() {
        assert(instances.take(k) =~= instances);
    } else {
        assert(instances.take(k + 1).drop_last() =~= instances.take(k));
        lemma_absorb_instances_prefix(mo, st, instances, k + 1);
    }
}

/// Absorbs field elements.
fn absorb_values<C, F: PrimeField, T: Transcript<C, F>>(values: &[F], transcript: &mut T) -> (r:
    Result<(), Error>)
    ensures
        transcript::moved_to(
            r,
            final(transcript).state(),
            absorb_fields(T::model(), old(transcript).state(), field::vals(values@)),
        ),
{
    let ghost st = transcript.state();
    let ghost vs = field::vals(values@);
    let mut i: usize = 0;
    assert(vs.take(0) =~= Seq::empty());
    while i < values.len()
        invariant
            i <= values.len(),
            st == old(transcript).state(),
            vs == field::vals(values@),
            absorb_fields(T::model(), st, vs.take(i as int)) == Ok::<State<C>, Halt<C>>(
                transcript.state(),
            ),
        decreases values.len() - i,
    {
        assert(vs.take(i + 1).drop_last() =~= vs.take(i as int));
        match transcript.common_field_element(&values[i]) {
            Err(e) => {
                proof {
                    lemma_absorb_fields_prefix(T::model(), st, vs, i + 1);
                }
                return Err(e);
            },
            Ok(()) => {},
        }
        i = i + 1;
    }
    assert(vs.take(vs.len() as int) =~= vs);
    Ok(())
}

/// Absorbs all instances.
fn absorb_all<C, F: PrimeField, T: Transcript<C, F>>(instances: &[Vec<F>], transcript: &mut T) -> (r:
    Result<(), Error>)
    ensures
        transcript::moved_to(
            r,
            final(transcript).state(),
            absorb_instances(T::model(), old(transcript).state(), pcs::points_vals(instances@)),
        ),
{
    let ghost st = transcript.state();
    let ghost iv = pcs::points_vals(instances@);
    let mut i: usize = 0;
    assert(iv.take(0) =~= Seq::empty());
    while i < instances.len()
        invariant
            i <= instances.len(),
            st == old(transcript).state(),
            iv == pcs::points_vals(instances@),
            absorb_instances(T::model(), st, iv.take(i as int)) == Ok::<State<C>, Halt<C>>(
                transcript.state(),
            ),
        decreases instances.len() - i,
    {
        assert(iv.take(i + 1).drop_last() =~= iv.take(i as int));
        assert(iv.take(i + 1).last() == field::vals(instances@[i as int]@));
        match absorb_values::<C, F, T>(&instances[i], transcript) {
            Err(e) => {
                proof {
                    lemma_absorb_instances_prefix(T::model(), st, iv, i + 1);
                }
                return Err(e);
            },
            Ok(()) => {},
        }
        i = i + 1;
    }
    assert(iv.take(iv.len() as int) =~= iv);
    Ok(())
}

/// What the phases of the witness leave behind.
#[verifier::ext_equal]
pub struct Phases {
    pub polys: Seq<Seq<int>>,
    pub comms: Seq<BrakedownCommitment>,
    pub challenges: Seq<int>,
    pub state: State<[u8; 32]>,
}

/// The phases of the witness: in each one its polynomials are made from the challenges so
/// far, committed to and sent, and further challenges are drawn.
pub open spec fn prove_phases<F: PrimeField, H: HashFunction, Ci: PlonkishCircuit<F>>(
    pp: BrakedownProverParam<F>,
    circuit: Ci,
    num_challenges: Seq<usize>,
    mo: Model<[u8; 32]>,
    st: State<[u8; 32]>,
) -> Result<Phases, Halt<[u8; 32]>>
    decreases num_challenges.len(),
{
    if num_challenges.len() == 0 {
        Ok(
            Phases {
                polys: Seq::empty(),
                comms: Seq::empty(),
                challenges: Seq::empty(),
                state: st,
            },
        )
    } else {
        match prove_phases::<F, H, Ci>(pp, circuit, num_challenges.drop_last(), mo, st) {
            Err(e) => Err(e),
            Ok(p) => match circuit.synthesize_spec(
                (num_challenges.len() - 1) as nat,
                p.challenges,
            ) {
                Err(e) => Err(Halt { error: e, state: p.state }),
                Ok(polys) => match pcs::batch_commit_and_write_spec::<F, BrakedownPcs<F, H>>(
                    pp,
                    polys,
                    mo,
                    p.state,
                ) {
                    Err(e) => Err(e),
                    Ok((comms, s)) => {
                        let (cs, t) = transcript::squeeze_many(mo, s, num_challenges.last() as nat);
                        Ok(
                            Phases {
                                polys: p.polys + polys,
                                comms: p.comms + comms,
                                challenges: p.challenges + cs,
                                state: t,
                            },
                        )
                    },
                },
            },
        }
    }
}

/// Whether the circuit makes its witness in as many phases as there are, each with as many
/// polynomials as `num_witness_polys` says, of `2^num_vars` values.
pub open spec fn synthesizes<F: PrimeField, Ci: PlonkishCircuit<F>>(
    circuit: Ci,
    num_witness_polys: Seq<usize>,
    num_challenges: Seq<usize>,
    num_vars: nat,
) -> bool {
    &&& num_witness_polys.len() == num_challenges.len()
    &&& forall|round: nat, challenges: Seq<int>|
        #![trigger circuit.can_synthesize(round, challenges)]
        #![trigger circuit.synthesize_spec(round, challenges)]
        round < num_challenges.len() && challenges.len() == backend::total(
            num_challenges.take(round as int),
        ) ==> {
            &&& circuit.can_synthesize(round, challenges)
            &&& circuit.synthesize_spec(round, challenges) matches Ok(polys) ==> {
                &&& polys.len() == num_witness_polys[round as int]
                &&& pcs::all_sized(polys, pow2(num_vars))
            }
        }
}

/// There are as many commitments as polynomials.
pub proof fn lemma_commit_all_len<V>(
    commit: spec_fn(Seq<int>) -> Result<V, ErrorView>,
    polys: Seq<Seq<int>>,
)
    requires
        pcs::commit_all(commit, polys) is Ok,
    ensures
        pcs::commit_all(commit, polys)->Ok_0.len() == polys.len(),
    decreases polys.len(),
{
    if polys.len() > 0 {
        lemma_commit_all_len(commit, polys.drop_last());
    }
}

/// What the phases leave behind has the right shape.
pub proof fn lemma_phases_shape<F: PrimeField, H: HashFunction, Ci: PlonkishCircuit<F>>(
    pp: BrakedownProverParam<F>,
    circuit: Ci,
    num_witness_polys: Seq<usize>,
    num_challenges: Seq<usize>,
    num_vars: nat,
    k: int,
    mo: Model<[u8; 32]>,
    st: State<[u8; 32]>,
)
    requires
        synthesizes::<F, Ci>(circuit, num_witness_polys, num_challenges, num_vars),
        0 <= k <= num_challenges.len(),
    ensures
        prove_phases::<F, H, Ci>(pp, circuit, num_challenges.take(k), mo, st) matches Ok(p) ==> {
            &&& p.polys.len() == backend::total(num_witness_polys.take(k))
            &&& p.comms.len() == p.polys.len()
            &&& p.challenges.len() == backend::total(num_challenges.take(k))
            &&& pcs::all_sized(p.polys, pow2(num_vars))
        },
    decreases k,
{
    if k > 0 {
        let front = num_challenges.take(k - 1);
        assert(num_challenges.take(k).drop_last() =~= front);
        assert(num_witness_polys.take(k).drop_last() =~= num_witness_polys.take(k - 1));
        lemma_phases_shape::<F, H, Ci>(
            pp,
            circuit,
            num_witness_polys,
            num_challenges,
            num_vars,
            k - 1,
            mo,
            st,
        );
        if prove_phases::<F, H, Ci>(pp, circuit, num_challenges.take(k), mo, st) is Ok {
            let p = prove_phases::<F, H, Ci>(pp, circuit, front, mo, st)->Ok_0;
            let polys = circuit.synthesize_spec((k - 1) as nat, p.challenges)->Ok_0;
            assert(circuit.can_synthesize((k - 1) as nat, p.challenges));
            let f = |e: Seq<int>| BrakedownPcs::<F, H>::commit_spec(pp, e);
            lemma_commit_all_len(f, polys);
            let s = pcs::batch_commit_and_write_spec::<F, BrakedownPcs<F, H>>(
                pp,
                polys,
                mo,
                p.state,
            )->Ok_0.1;
            transcript::lemma_squeeze_many_len(mo, s, num_challenges[k - 1] as nat);
            let all = p.polys + polys;
            assert forall|i: int| 0 <= i < all.len() implies (#[trigger] all[i]).len() == pow2(
                num_vars,
            ) by {
                if i < p.polys.len() {
                    assert(p.polys[i].len() == pow2(num_vars));
                } else {
                    assert(polys[i - p.polys.len()].len() == pow2(num_vars));
                }
            }
        }
    } else {
        assert(num_challenges.take(0) =~= Seq::empty());
        assert(num_witness_polys.take(0) =~= Seq::empty());
    }
}

/// An early error stops the whole.
proof fn lemma_prove_phases_prefix<F: PrimeField, H: HashFunction, Ci: PlonkishCircuit<F>>(
    pp: BrakedownProverParam<F>,
    circuit: Ci,
    num_challenges: Seq<usize>,
    k: int,
    mo: Model<[u8; 32]>,
    st: State<[u8; 32]>,
)
    requires
        0 <= k <= num_challenges.len(),
        prove_phases::<F, H, Ci>(pp, circuit, num_challenges.take(k), mo, st) is Err,
    ensures
        prove_phases::<F, H, Ci>(pp, circuit, num_challenges, mo, st) == prove_phases::<F, H, Ci>(
            pp,
            circuit,
            num_challenges.take(k),
            mo,
            st,
        ),
    decreases num_challenges.len() - k,
{
    if k == num_challenges.len() {
        assert(num_challenges.take(k) =~= num_challenges);
    } else {
        assert(num_challenges.take(k + 1).drop_last() =~= num_challenges.take(k));
        lemma_prove_phases_prefix::<F, H, Ci>(pp, circuit, num_challenges, k + 1, mo, st);
    }
}

/// Whether `r`, which left the transcript in state `st`, is what the phases say.
pub open spec fn phases_done<F: PrimeField>(
    r: Result<(Vec<MultilinearPolynomial<F>>, Vec<BrakedownCommitment>, Vec<F>), Error>,
    st: State<[u8; 32]>,
    expected: Result<Phases, Halt<[u8; 32]>>,
) -> bool {
    match expected {
        Ok(p) => {
            &&& r is Ok
            &&& pcs::owned_vals(r->Ok_0.0@) == p.polys
            &&& r->Ok_0.1@ == p.comms
            &&& field::vals(r->Ok_0.2@) == p.challenges
            &&& st == p.state
        },
        Err(h) => transcript::halted(r, st, h),
    }
}

/// The polynomials with the given values.
pub(crate) fn to_polys<F: PrimeField>(values: &Vec<Vec<F>>) -> (r: Vec<MultilinearPolynomial<F>>)
    requires
        forall|i: int|
            0 <= i < values@.len() ==> integer::is_pow2(
                (#[trigger] pcs::points_vals(values@)[i]).len() as int,
            ),
    ensures
        pcs::owned_vals(r@) == pcs::points_vals(values@),
{
    let ghost v = pcs::points_vals(values@);
    let mut r: Vec<MultilinearPolynomial<F>> = Vec::new();
    let mut i: usize = 0;
    assert(pcs::owned_vals(r@) =~= v.take(0));
    while i < values.len()
        invariant
            i <= values.len(),
            v == pcs::points_vals(values@),
            forall|i: int|
                0 <= i < values@.len() ==> integer::is_pow2((#[trigger] v[i]).len() as int),
            pcs::owned_vals(r@) == v.take(i as int),
        decreases values.len() - i,
    {
        assert(v[i as int] == field::vals(values@[i as int]@));
        assert(integer::is_pow2(v[i as int].len() as int));
        let poly = MultilinearPolynomial::new(multilinear::clone_elements(&values[i]));
        let ghost before = r@;
        r.push(poly);
        assert(pcs::owned_vals(r@) =~= pcs::owned_vals(before).push(poly.vals()));
        assert(v.take(i + 1) =~= v.take(i as int).push(v[i as int]));
        i = i + 1;
    }
    assert(v.take(v.len() as int) =~= v);
    r
}

/// Runs the phases of the witness.
fn run_phases<
    F: PrimeField,
    H: HashFunction,
    Ci: PlonkishCircuit<F>,
    T: TranscriptWrite<[u8; 32], F>,
>(
    pp: &BrakedownProverParam<F>,
    circuit: &Ci,
    num_witness_polys: &Vec<usize>,
    num_challenges: &Vec<usize>,
    num_vars: usize,
    transcript: &mut T,
) -> (r: Result<(Vec<MultilinearPolynomial<F>>, Vec<BrakedownCommitment>, Vec<F>), Error>)
    requires
        brakedown::fits(pp.param.code@),
        synthesizes::<F, Ci>(
            *circuit,
            num_witness_polys@,
            num_challenges@,
            num_vars as nat,
        ),
    ensures
        phases_done(
            r,
            final(transcript).state(),
            prove_phases::<F, H, Ci>(
                *pp,
                *circuit,
                num_challenges@,
                T::model(),
                old(transcript).state(),
            ),
        ),
{
    let ghost mo = T::model();
    let ghost st = transcript.state();
    let mut polys: Vec<MultilinearPolynomial<F>> = Vec::new();
    let mut comms: Vec<BrakedownCommitment> = Vec::new();
    let mut challenges: Vec<F> = Vec::new();
    let mut round: usize = 0;
    proof {
        assert(num_challenges@.take(0) =~= Seq::empty());
        assert(pcs::owned_vals(polys@) =~= Seq::empty());
        assert(comms@ =~= Seq::empty());
        assert(field::vals(challenges@) =~= Seq::empty());
    }
    while round < num_challenges.len()
        invariant
            round <= num_challenges.len(),
            mo == T::model(),
            st == old(transcript).state(),
            brakedown::fits(pp.param.code@),
            synthesizes::<F, Ci>(
                *circuit,
                num_witness_polys@,
                num_challenges@,
                num_vars as nat,
            ),
            prove_phases::<F, H, Ci>(*pp, *circuit, num_challenges@.take(round as int), mo, st)
                == Ok::<Phases, Halt<[u8; 32]>>(
                Phases {
                    polys: pcs::owned_vals(polys@),
                    comms: comms@,
                    challenges: field::vals(challenges@),
                    state: transcript.state(),
                },
            ),
        decreases num_challenges.len() - round,
    {
        let ghost cv = field::vals(challenges@);
        proof {
            assert(num_challenges@.take(round + 1).drop_last() =~= num_challenges@.take(
                round as int,
            ));
            lemma_phases_shape::<F, H, Ci>(
                *pp,
                *circuit,
                num_witness_polys@,
                num_challenges@,
                num_vars as nat,
                round as int,
                mo,
                st,
            );
            assert(circuit.can_synthesize(round as nat, cv));
        }
        let values = match circuit.synthesize(round, &challenges) {
            Err(e) => {
                proof {
                    lemma_prove_phases_prefix::<F, H, Ci>(
                        *pp,
                        *circuit,
                        num_challenges@,
                        round + 1,
                        mo,
                        st,
                    );
                }
                return Err(e);
            },
            Ok(values) => values,
        };
        let ghost vv = pcs::points_vals(values@);
        assert forall|i: int| 0 <= i < values@.len() implies integer::is_pow2(
            (#[trigger] pcs::points_vals(values@)[i]).len() as int,
        ) by {
            assert(vv[i].len() == pow2(num_vars as nat));
        }
        let mut more = to_polys(&values);
        let refs = pcs::poly_refs(&more);
        let mut new_comms = match pcs::batch_commit_and_write::<F, BrakedownPcs<F, H>, T>(
            pp,
            &refs,
            transcript,
        ) {
            Err(e) => {
                proof {
                    lemma_prove_phases_prefix::<F, H, Ci>(
                        *pp,
                        *circuit,
                        num_challenges@,
                        round + 1,
                        mo,
                        st,
                    );
                }
                return Err(e);
            },
            Ok(comms) => comms,
        };
        let ghost old_polys = polys@;
        let ghost added = more@;
        comms.append(&mut new_comms);
        polys.append(&mut more);
        proof {
            assert(polys@ =~= old_polys + added);
            assert(pcs::owned_vals(polys@) =~= pcs::owned_vals(old_polys) + vv);
        }
        let mut drawn: Vec<F> = transcript::squeeze_challenges(transcript, num_challenges[round]);
        let ghost dv = field::vals(drawn@);
        challenges.append(&mut drawn);
        assert(field::vals(challenges@) =~= cv + dv);
        round = round + 1;
    }
    assert(num_challenges@.take(num_challenges@.len() as int) =~= num_challenges@);
    Ok((polys, comms, challenges))
}

/// The length of the longest list.
pub open spec fn max_width<V>(lists: Seq<Seq<V>>) -> nat
    decreases lists.len(),
{
    if lists.len() == 0 {
        0
    } else if lists.last().len() > max_width(lists.drop_last()) {
        lists.last().len()
    } else {
        max_width(lists.drop_last())
    }
}

/// The first `n` powers of `x`, reduced.
pub open spec fn powers_of(x: int, n: nat, m: int) -> Seq<int> {
    Seq::new(n, |i: int| brakedown::power(x, i as nat) % m)
}

/// The first `n` powers of `x`.
fn powers<F: PrimeField>(x: F, n: usize) -> (r: Vec<F>)
    ensures
        field::vals(r@) == powers_of(x.val(), n as nat, F::modulus()),
{
    let ghost m = F::modulus();
    let mut r: Vec<F> = Vec::new();
    let mut p = F::one();
    let mut i: usize = 0;
    proof {
        F::modulus_is_odd();
        modular::lemma_small(1, m);
    }
    while i < n
        invariant
            i <= n,
            m == F::modulus(),
            m > 2,
            p.val() == brakedown::power(x.val(), i as nat) % m,
            r@.len() == i,
            forall|j: int|
                0 <= j < i ==> (#[trigger] r@[j]).val() == brakedown::power(x.val(), j as nat) % m,
        decreases n - i,
    {
        r.push(p);
        proof {
            let exact = brakedown::power(x.val(), i as nat);
            modular::lemma_cong_reduced(exact, m);
            modular::lemma_cong_mul(p.val(), exact, x.val(), x.val(), m);
        }
        p = p.mul(x);
        i = i + 1;
    }
    assert(field::vals(r@) =~= powers_of(x.val(), n as nat, m));
    r
}

/// The length of the longest lookup.
fn widest_lookup<F: PrimeField>(lookups: &Vec<Vec<(Expression<F>, Expression<F>)>>) -> (r: usize)
    ensures
        r == max_width(hyperplonk::lookups_view(lookups@)),
{
    let ghost lv = hyperplonk::lookups_view(lookups@);
    let mut r: usize = 0;
    let mut i: usize = 0;
    assert(lv.take(0) =~= Seq::empty());
    while i < lookups.len()
        invariant
            i <= lookups.len(),
            lv == hyperplonk::lookups_view(lookups@),
            r == max_width(lv.take(i as int)),
        decreases lookups.len() - i,
    {
        assert(lv.take(i + 1).drop_last() =~= lv.take(i as int));
        assert(lv.take(i + 1).last().len() == lookups@[i as int]@.len());
        if lookups[i].len() > r {
            r = lookups[i].len();
        }
        i = i + 1;
    }
    assert(lv.take(lv.len() as int) =~= lv);
    r
}

/// What the prover has sent before the zero-check: the polynomials and their commitments
/// in order, the challenges and the random point.
#[verifier::ext_equal]
pub struct Sent {
    pub polys: Seq<Seq<int>>,
    pub comms: Seq<BrakedownCommitment>,
    pub challenges: Seq<int>,
    pub y: Seq<int>,
    pub state: State<[u8; 32]>,
}

/// The helper polynomials of lookups and permutation, and the challenges in between.
#[verifier::ext_equal]
pub struct Helpers {
    pub ms: Seq<Seq<int>>,
    pub m_comms: Seq<BrakedownCommitment>,
    pub hzs: Seq<Seq<int>>,
    pub hz_comms: Seq<BrakedownCommitment>,
    pub beta: int,
    pub gamma: int,
    pub state: State<[u8; 32]>,
}

/// The polynomials of the permutation, without their indices.
pub open spec fn without_indices(polys: Seq<(int, Seq<int>)>) -> Seq<Seq<int>> {
    Seq::new(polys.len(), |i: int| polys[i].1)
}

/// The commitments that stand for the instances.
pub open spec fn placeholders(n: nat) -> Seq<BrakedownCommitment> {
    Seq::new(n, |i: int| brakedown::empty_commitment())
}

/// The rounds in which lookups and permutation are prepared.
pub open spec fn prove_helpers<F: PrimeField, H: HashFunction, A: Steps<F, [u8; 32]>>(
    steps: A,
    pp: HyperPlonkProverParam<F, BrakedownPcs<F, H>>,
    polys: Seq<Seq<int>>,
    challenges: Seq<int>,
    mo: Model<[u8; 32]>,
    st: State<[u8; 32]>,
) -> Result<Helpers, Halt<[u8; 32]>> {
    let lookups = hyperplonk::lookups_view(pp.lookups@);
    let (beta, s1) = transcript::squeeze(mo, st);
    let betas = powers_of(beta, max_width(lookups), F::modulus());
    let compressed = steps.lookup_compressed_polys_spec(lookups, polys, challenges, betas);
    match steps.lookup_m_polys_spec(compressed) {
        Err(e) => Err(Halt { error: e, state: s1 }),
        Ok(ms) => match pcs::batch_commit_and_write_spec::<F, BrakedownPcs<F, H>>(
            pp.pcs,
            ms,
            mo,
            s1,
        ) {
            Err(e) => Err(e),
            Ok((m_comms, s2)) => {
                let (gamma, s3) = transcript::squeeze(mo, s2);
                let hzs = steps.lookup_h_polys_spec(compressed, ms, gamma)
                    + steps.permutation_z_polys_spec(
                    pp.num_permutation_z_polys as nat,
                    hyperplonk::indexed_vals(pp.permutation_polys@),
                    polys,
                    beta,
                    gamma,
                );
                match pcs::batch_commit_and_write_spec::<F, BrakedownPcs<F, H>>(
                    pp.pcs,
                    hzs,
                    mo,
                    s3,
                ) {
                    Err(e) => Err(e),
                    Ok((hz_comms, s4)) => Ok(
                        Helpers { ms, m_comms, hzs, hz_comms, beta, gamma, state: s4 },
                    ),
                }
            },
        },
    }
}

/// All rounds before the zero-check.
pub open spec fn prove_rounds<
    F: PrimeField,
    H: HashFunction,
    A: Steps<F, [u8; 32]>,
    Ci: PlonkishCircuit<F>,
>(
    steps: A,
    pp: HyperPlonkProverParam<F, BrakedownPcs<F, H>>,
    circuit: Ci,
    mo: Model<[u8; 32]>,
    st: State<[u8; 32]>,
) -> Result<Sent, Halt<[u8; 32]>> {
    let instances = circuit.instances_spec();
    match absorb_instances(mo, st, instances) {
        Err(e) => Err(e),
        Ok(s1) => match prove_phases::<F, H, Ci>(pp.pcs, circuit, pp.num_challenges@, mo, s1) {
            Err(e) => Err(e),
            Ok(p) => {
                let polys = steps.instance_polys_spec(pp.num_vars as nat, instances)
                    + pcs::owned_vals(pp.preprocess_polys@) + p.polys;
                match prove_helpers::<F, H, A>(steps, pp, polys, p.challenges, mo, p.state) {
                    Err(e) => Err(e),
                    Ok(h) => {
                        let (alpha, s2) = transcript::squeeze(mo, h.state);
                        let (y, s3) = transcript::squeeze_many(mo, s2, pp.num_vars as nat);
                        Ok(
                            Sent {
                                polys: polys + without_indices(
                                    hyperplonk::indexed_vals(pp.permutation_polys@),
                                ) + h.ms + h.hzs,
                                comms: placeholders(pp.num_instances@.len())
                                    + pp.preprocess_comms@ + p.comms + pp.permutation_comms@
                                    + h.m_comms + h.hz_comms,
                                challenges: p.challenges + seq![h.beta, h.gamma, alpha],
                                y,
                                state: s3,
                            },
                        )
                    },
                }
            },
        },
    }
}

/// The commitment with the given index, or none.
pub open spec fn comm_at(comms: Seq<BrakedownCommitment>, i: int) -> BrakedownCommitment {
    if i < comms.len() {
        comms[i]
    } else {
        brakedown::empty_commitment()
    }
}

/// The state after a shift-open proof is written for each of the shifts.
pub open spec fn prove_shifts<F: PrimeField, H: HashFunction>(
    pp: BrakedownProverParam<F>,
    polys: Seq<Seq<int>>,
    comms: Seq<BrakedownCommitment>,
    shifts: Seq<ShiftConstraint>,
    num_vars: nat,
    mo: Model<[u8; 32]>,
    st: State<[u8; 32]>,
) -> Result<State<[u8; 32]>, Halt<[u8; 32]>>
    decreases shifts.len(),
{
    if shifts.len() == 0 {
        Ok(st)
    } else {
        match prove_shifts::<F, H>(pp, polys, comms, shifts.drop_last(), num_vars, mo, st) {
            Err(e) => Err(e),
            Ok(s) => {
                let i = shifts.last().poly_idx as int;
                if i < polys.len() {
                    shift_open::prove_shift_open_spec::<F, BrakedownPcs<F, H>>(
                        pp,
                        polys[i],
                        comm_at(comms, i),
                        num_vars,
                        shifts.last().k as int,
                        mo,
                        s,
                    )
                } else {
                    Ok(s)
                }
            },
        }
    }
}

/// The transcript after the whole proof is written, with a shift-open proof for each of
/// `shifts`.
pub open spec fn prove_spec<
    F: PrimeField,
    H: HashFunction,
    A: Steps<F, [u8; 32]>,
    Ci: PlonkishCircuit<F>,
>(
    steps: A,
    pp: HyperPlonkProverParam<F, BrakedownPcs<F, H>>,
    circuit: Ci,
    shifts: Seq<ShiftConstraint>,
    mo: Model<[u8; 32]>,
    st: State<[u8; 32]>,
) -> Result<State<[u8; 32]>, Halt<[u8; 32]>> {
    match prove_rounds::<F, H, A, Ci>(steps, pp, circuit, mo, st) {
        Err(e) => Err(e),
        Ok(sent) => match steps.prove_zero_check_spec(
            pp.num_instances@.len(),
            pp.expression@,
            sent.polys,
            sent.challenges,
            sent.y,
            mo,
            sent.state,
        ) {
            Err(e) => Err(e),
            Ok((points, evals, s)) => match BrakedownPcs::<F, H>::batch_open_spec(
                pp.pcs,
                sent.polys,
                sent.comms,
                points,
                evals,
                mo,
                s,
            ) {
                Err(e) => Err(e),
                Ok(t) => prove_shifts::<F, H>(
                    pp.pcs,
                    sent.polys,
                    sent.comms,
                    shifts,
                    pp.num_vars as nat,
                    mo,
                    t,
                ),
            },
        },
    }
}

/// Whether the prover's parameters fit together.
pub open spec fn prover_ready<F: PrimeField, H: HashFunction>(
    pp: HyperPlonkProverParam<F, BrakedownPcs<F, H>>,
) -> bool {
    let size = pow2(pp.num_vars as nat);
    &&& size <= usize::MAX
    &&& pp.preprocess_comms@.len() == pp.preprocess_polys@.len()
    &&& pp.permutation_comms@.len() == pp.permutation_polys@.len()
    &&& pcs::all_sized(pcs::owned_vals(pp.preprocess_polys@), size)
    &&& hyperplonk::indexed_sized(hyperplonk::indexed_vals(pp.permutation_polys@), size)
    &&& pp.num_instances@.len() + pp.preprocess_polys@.len() + backend::total(
        pp.num_witness_polys@,
    ) > 0
    &&& brakedown::can_open_evals(pp.pcs.param.code@, size, pp.num_vars as nat)
}

/// Whether the circuit can be proved with the given parameters.
pub open spec fn can_prove<
    F: PrimeField,
    H: HashFunction,
    A: Steps<F, [u8; 32]>,
    Ci: PlonkishCircuit<F>,
>(steps: A, pp: HyperPlonkProverParam<F, BrakedownPcs<F, H>>, circuit: Ci) -> bool {
    &&& prover_ready(pp)
    &&& instances_match(pp.num_instances@, circuit.instances_spec())
    &&& steps.can_place(pp.num_vars as nat, circuit.instances_spec())
    &&& synthesizes::<F, Ci>(
        circuit,
        pp.num_witness_polys@,
        pp.num_challenges@,
        pp.num_vars as nat,
    )
}

/// Lists of polynomials of one size can be chained.
pub proof fn lemma_all_sized_add(a: Seq<Seq<int>>, b: Seq<Seq<int>>, size: nat)
    requires
        pcs::all_sized(a, size),
        pcs::all_sized(b, size),
    ensures
        pcs::all_sized(a + b, size),
{
    assert forall|i: int| 0 <= i < (a + b).len() implies (#[trigger] (a + b)[i]).len() == size by {
        if i < a.len() {
            assert(a[i].len() == size);
        } else {
            assert(b[i - a.len()].len() == size);
        }
    }
}

/// The polynomials before the helpers have the right size.
pub proof fn lemma_first_polys<
    F: PrimeField,
    H: HashFunction,
    A: Steps<F, [u8; 32]>,
    Ci: PlonkishCircuit<F>,
>(
    steps: A,
    pp: HyperPlonkProverParam<F, BrakedownPcs<F, H>>,
    circuit: Ci,
    mo: Model<[u8; 32]>,
    st: State<[u8; 32]>,
)
    requires
        can_prove::<F, H, A, Ci>(steps, pp, circuit),
    ensures
        prove_phases::<F, H, Ci>(pp.pcs, circuit, pp.num_challenges@, mo, st) matches Ok(p) ==> {
            let polys = steps.instance_polys_spec(pp.num_vars as nat, circuit.instances_spec())
                + pcs::owned_vals(pp.preprocess_polys@) + p.polys;
            &&& pcs::all_sized(polys, pow2(pp.num_vars as nat))
            &&& polys.len() == pp.num_instances@.len() + pp.preprocess_polys@.len()
                + p.comms.len()
            &&& polys.len() > 0
        },
{
    let n = pp.num_vars as nat;
    let size = pow2(n);
    let whole = pp.num_challenges@.len() as int;
    assert(pp.num_challenges@.take(whole) =~= pp.num_challenges@);
    assert(pp.num_witness_polys@.take(whole) =~= pp.num_witness_polys@);
    lemma_phases_shape::<F, H, Ci>(
        pp.pcs,
        circuit,
        pp.num_witness_polys@,
        pp.num_challenges@,
        n,
        whole,
        mo,
        st,
    );
    steps.polys_have_size(
        n,
        circuit.instances_spec(),
        Seq::empty(),
        Seq::empty(),
        Seq::empty(),
        Seq::empty(),
        0,
        Seq::empty(),
        0,
        0,
    );
    if prove_phases::<F, H, Ci>(pp.pcs, circuit, pp.num_challenges@, mo, st) is Ok {
        let p = prove_phases::<F, H, Ci>(pp.pcs, circuit, pp.num_challenges@, mo, st)->Ok_0;
        let ip = steps.instance_polys_spec(n, circuit.instances_spec());
        let pre = pcs::owned_vals(pp.preprocess_polys@);
        lemma_all_sized_add(ip, pre, size);
        lemma_all_sized_add(ip + pre, p.polys, size);
    }
}

/// The helper polynomials have the right size.
proof fn lemma_helpers_shape<F: PrimeField, H: HashFunction, A: Steps<F, [u8; 32]>>(
    steps: A,
    pp: HyperPlonkProverParam<F, BrakedownPcs<F, H>>,
    polys: Seq<Seq<int>>,
    challenges: Seq<int>,
    mo: Model<[u8; 32]>,
    st: State<[u8; 32]>,
)
    requires
        prover_ready(pp),
        pcs::all_sized(polys, pow2(pp.num_vars as nat)),
    ensures
        prove_helpers::<F, H, A>(steps, pp, polys, challenges, mo, st) matches Ok(h) ==> {
            &&& pcs::all_sized(h.ms, pow2(pp.num_vars as nat))
            &&& pcs::all_sized(h.hzs, pow2(pp.num_vars as nat))
            &&& h.m_comms.len() == h.ms.len()
            &&& h.hz_comms.len() == h.hzs.len()
        },
{
    if prove_helpers::<F, H, A>(steps, pp, polys, challenges, mo, st) is Ok {
        let h = prove_helpers::<F, H, A>(steps, pp, polys, challenges, mo, st)->Ok_0;
        let lookups = hyperplonk::lookups_view(pp.lookups@);
        let betas = powers_of(h.beta, max_width(lookups), F::modulus());
        let perms = hyperplonk::indexed_vals(pp.permutation_polys@);
        let nz = pp.num_permutation_z_polys as nat;
        steps.polys_have_size(
            pp.num_vars as nat,
            Seq::empty(),
            lookups,
            polys,
            challenges,
            betas,
            nz,
            perms,
            h.beta,
            h.gamma,
        );
        let compressed = steps.lookup_compressed_polys_spec(lookups, polys, challenges, betas);
        lemma_all_sized_add(
            steps.lookup_h_polys_spec(compressed, h.ms, h.gamma),
            steps.permutation_z_polys_spec(nz, perms, polys, h.beta, h.gamma),
            pow2(pp.num_vars as nat),
        );
        let f = |e: Seq<int>| BrakedownPcs::<F, H>::commit_spec(pp.pcs, e);
        lemma_commit_all_len(f, h.ms);
        lemma_commit_all_len(f, h.hzs);
    }
}

/// What is sent before the zero-check has the right shape.
pub proof fn lemma_sent_shape<
    F: PrimeField,
    H: HashFunction,
    A: Steps<F, [u8; 32]>,
    Ci: PlonkishCircuit<F>,
>(
    steps: A,
    pp: HyperPlonkProverParam<F, BrakedownPcs<F, H>>,
    circuit: Ci,
    mo: Model<[u8; 32]>,
    st: State<[u8; 32]>,
)
    requires
        can_prove::<F, H, A, Ci>(steps, pp, circuit),
    ensures
        prove_rounds::<F, H, A, Ci>(steps, pp, circuit, mo, st) matches Ok(sent) ==> {
            &&& sent.polys.len() > 0
            &&& sent.comms.len() == sent.polys.len()
            &&& pcs::all_sized(sent.polys, pow2(pp.num_vars as nat))
            &&& sent.y.len() == pp.num_vars
        },
{
    if prove_rounds::<F, H, A, Ci>(steps, pp, circuit, mo, st) is Ok {
        let size = pow2(pp.num_vars as nat);
        let s1 = absorb_instances(mo, st, circuit.instances_spec())->Ok_0;
        let p = prove_phases::<F, H, Ci>(pp.pcs, circuit, pp.num_challenges@, mo, s1)->Ok_0;
        let polys = steps.instance_polys_spec(pp.num_vars as nat, circuit.instances_spec())
            + pcs::owned_vals(pp.preprocess_polys@) + p.polys;
        lemma_first_polys::<F, H, A, Ci>(steps, pp, circuit, mo, s1);
        lemma_helpers_shape::<F, H, A>(steps, pp, polys, p.challenges, mo, p.state);
        let h = prove_helpers::<F, H, A>(steps, pp, polys, p.challenges, mo, p.state)->Ok_0;
        let perms = hyperplonk::indexed_vals(pp.permutation_polys@);
        assert forall|i: int| 0 <= i < perms.len() implies (#[trigger] without_indices(
            perms,
        )[i]).len() == size by {
            assert(perms[i].1.len() == size);
        }
        lemma_all_sized_add(polys, without_indices(perms), size);
        lemma_all_sized_add(polys + without_indices(perms), h.ms, size);
        lemma_all_sized_add(polys + without_indices(perms) + h.ms, h.hzs, size);
        transcript::lemma_squeeze_many_len(
            mo,
            transcript::squeeze(mo, h.state).1,
            pp.num_vars as nat,
        );
    }
}

/// `front` with references to `polys` behind it.
fn chain_polys<'a, F: PrimeField>(
    front: Vec<&'a MultilinearPolynomial<F>>,
    polys: &'a Vec<MultilinearPolynomial<F>>,
) -> (r: Vec<&'a MultilinearPolynomial<F>>)
    ensures
        pcs::polys_vals(r@) == pcs::polys_vals(front@) + pcs::owned_vals(polys@),
{
    let mut r = front;
    let mut more = pcs::poly_refs(polys);
    let ghost added = more@;
    r.append(&mut more);
    assert(r@ =~= front@ + added);
    assert(pcs::polys_vals(r@) =~= pcs::polys_vals(front@) + pcs::polys_vals(added));
    r
}

/// References to polynomials that come with indices.
pub(crate) fn indexed_refs<F: PrimeField>(polys: &Vec<(usize, MultilinearPolynomial<F>)>) -> (r: Vec<
    &MultilinearPolynomial<F>,
>)
    ensures
        pcs::polys_vals(r@) == without_indices(hyperplonk::indexed_vals(polys@)),
{
    let ghost v = without_indices(hyperplonk::indexed_vals(polys@));
    let mut r: Vec<&MultilinearPolynomial<F>> = Vec::new();
    let mut i: usize = 0;
    assert(pcs::polys_vals(r@) =~= v.take(0));
    while i < polys.len()
        invariant
            i <= polys.len(),
            v == without_indices(hyperplonk::indexed_vals(polys@)),
            pcs::polys_vals(r@) == v.take(i as int),
        decreases polys.len() - i,
    {
        let ghost before = r@;
        let poly = &polys[i].1;
        r.push(poly);
        assert(pcs::polys_vals(r@) =~= pcs::polys_vals(before).push(poly.vals()));
        assert(v.take(i + 1) =~= v.take(i as int).push(poly.vals()));
        i = i + 1;
    }
    assert(v.take(v.len() as int) =~= v);
    r
}

/// `front` with references to `comms` behind it.
fn chain_comms<'a>(
    front: Vec<&'a BrakedownCommitment>,
    comms: &'a Vec<BrakedownCommitment>,
) -> (r: Vec<&'a BrakedownCommitment>)
    ensures
        pcs::pointees(r@) == pcs::pointees(front@) + comms@,
{
    let mut r = front;
    let mut more = pcs::value_refs(comms);
    let ghost added = more@;
    r.append(&mut more);
    assert(pcs::pointees(r@) =~= pcs::pointees(front@) + pcs::pointees(added));
    r
}

/// `n` references to `comm`.
fn repeat_comm<'a>(comm: &'a BrakedownCommitment, n: usize) -> (r: Vec<&'a BrakedownCommitment>)
    requires
        *comm == brakedown::empty_commitment(),
    ensures
        pcs::pointees(r@) == placeholders(n as nat),
{
    let mut r: Vec<&'a BrakedownCommitment> = Vec::new();
    let mut i: usize = 0;
    while i < n
        invariant
            i <= n,
            r@.len() == i,
            *comm == brakedown::empty_commitment(),
            forall|j: int| 0 <= j < i ==> *(#[trigger] r@[j]) == brakedown::empty_commitment(),
        decreases n - i,
    {
        r.push(comm);
        i = i + 1;
    }
    assert(pcs::pointees(r@) =~= placeholders(n as nat));
    r
}

/// The helper polynomials of lookups and permutation.
struct HelperPolys<F: PrimeField> {
    ms: Vec<MultilinearPolynomial<F>>,
    m_comms: Vec<BrakedownCommitment>,
    hs: Vec<MultilinearPolynomial<F>>,
    zs: Vec<MultilinearPolynomial<F>>,
    hz_comms: Vec<BrakedownCommitment>,
    beta: F,
    gamma: F,
}

impl<F: PrimeField> HelperPolys<F> {
    /// Whether these are the helpers `h`.
    spec fn are(self, h: Helpers) -> bool {
        &&& pcs::owned_vals(self.ms@) == h.ms
        &&& self.m_comms@ == h.m_comms
        &&& pcs::owned_vals(self.hs@) + pcs::owned_vals(self.zs@) == h.hzs
        &&& self.hz_comms@ == h.hz_comms
        &&& self.beta.val() == h.beta
        &&& self.gamma.val() == h.gamma
    }
}

/// Prepares lookups and permutation.
fn run_helpers<
    F: PrimeField,
    H: HashFunction,
    A: Steps<F, [u8; 32]>,
    T: TranscriptWrite<[u8; 32], F>,
>(
    steps: &A,
    pp: &HyperPlonkProverParam<F, BrakedownPcs<F, H>>,
    polys: &Vec<&MultilinearPolynomial<F>>,
    challenges: &Vec<F>,
    transcript: &mut T,
) -> (r: Result<HelperPolys<F>, Error>)
    requires
        brakedown::fits(pp.pcs.param.code@),
    ensures
        match prove_helpers::<F, H, A>(
            *steps,
            *pp,
            pcs::polys_vals(polys@),
            field::vals(challenges@),
            T::model(),
            old(transcript).state(),
        ) {
            Ok(h) => r is Ok && r->Ok_0.are(h) && final(transcript).state() == h.state,
            Err(h) => transcript::halted(r, final(transcript).state(), h),
        },
{
    let beta = transcript.squeeze_challenge();
    let betas = powers(beta, widest_lookup(&pp.lookups));
    let compressed = steps.lookup_compressed_polys(&pp.lookups, polys, challenges, &betas);
    let ms = match steps.lookup_m_polys(&compressed) {
        Err(e) => {
            return Err(e);
        },
        Ok(ms) => ms,
    };
    let m_refs = pcs::poly_refs(&ms);
    let m_comms = match pcs::batch_commit_and_write::<F, BrakedownPcs<F, H>, T>(
        &pp.pcs,
        &m_refs,
        transcript,
    ) {
        Err(e) => {
            return Err(e);
        },
        Ok(comms) => comms,
    };
    let gamma = transcript.squeeze_challenge();
    let hs = steps.lookup_h_polys(&compressed, &ms, &gamma);
    let zs = steps.permutation_z_polys(
        pp.num_permutation_z_polys,
        &pp.permutation_polys,
        polys,
        &beta,
        &gamma,
    );
    let hz_refs = chain_polys(pcs::poly_refs(&hs), &zs);
    let hz_comms = match pcs::batch_commit_and_write::<F, BrakedownPcs<F, H>, T>(
        &pp.pcs,
        &hz_refs,
        transcript,
    ) {
        Err(e) => {
            return Err(e);
        },
        Ok(comms) => comms,
    };
    Ok(HelperPolys { ms, m_comms, hs, zs, hz_comms, beta, gamma })
}

/// An early error stops the whole.
proof fn lemma_prove_shifts_prefix<F: PrimeField, H: HashFunction>(
    pp: BrakedownProverParam<F>,
    polys: Seq<Seq<int>>,
    comms: Seq<BrakedownCommitment>,
    shifts: Seq<ShiftConstraint>,
    k: int,
    num_vars: nat,
    mo: Model<[u8; 32]>,
    st: State<[u8; 32]>,
)
    requires
        0 <= k <= shifts.len(),
        prove_shifts::<F, H>(pp, polys, comms, shifts.take(k), num_vars, mo, st) is Err,
    ensures
        prove_shifts::<F, H>(pp, polys, comms, shifts, num_vars, mo, st) == prove_shifts::<F, H>(
            pp,
            polys,
            comms,
            shifts.take(k),
            num_vars,
            mo,
            st,
        ),
    decreases shifts.len() - k,
{
    if k == shifts.len() {
        assert(shifts.take(k) =~= shifts);
    } else {
        assert(shifts.take(k + 1).drop_last() =~= shifts.take(k));
        lemma_prove_shifts_prefix::<F, H>(pp, polys, comms, shifts, k + 1, num_vars, mo, st);
    }
}

/// Gives a shift-open proof for each of the shifts.
fn run_shifts<F: PrimeField, H: HashFunction, T: TranscriptWrite<[u8; 32], F>>(
    pp: &BrakedownProverParam<F>,
    polys: &Vec<&MultilinearPolynomial<F>>,
    comms: &Vec<&BrakedownCommitment>,
    shifts: &Vec<ShiftConstraint>,
    num_vars: usize,
    transcript: &mut T,
) -> (r: Result<(), Error>)
    requires
        pcs::all_sized(pcs::polys_vals(polys@), pow2(num_vars as nat)),
        brakedown::can_open_evals(pp.param.code@, pow2(num_vars as nat), num_vars as nat),
    ensures
        transcript::moved_to(
            r,
            final(transcript).state(),
            prove_shifts::<F, H>(
                *pp,
                pcs::polys_vals(polys@),
                pcs::pointees(comms@),
                shifts@,
                num_vars as nat,
                T::model(),
                old(transcript).state(),
            ),
        ),
{
    let ghost mo = T::model();
    let ghost st = transcript.state();
    let ghost pv = pcs::polys_vals(polys@);
    let ghost cv = pcs::pointees(comms@);
    let dummy = BrakedownCommitment::default();
    let mut i: usize = 0;
    assert(shifts@.take(0) =~= Seq::empty());
    proof {
        integer::lemma_log2_of_pow2(num_vars as nat);
    }
    while i < shifts.len()
        invariant
            i <= shifts.len(),
            mo == T::model(),
            st == old(transcript).state(),
            pv == pcs::polys_vals(polys@),
            cv == pcs::pointees(comms@),
            dummy == brakedown::empty_commitment(),
            pcs::all_sized(pv, pow2(num_vars as nat)),
            integer::floor_log2(pow2(num_vars as nat)) == num_vars,
            brakedown::can_open_evals(pp.param.code@, pow2(num_vars as nat), num_vars as nat),
            prove_shifts::<F, H>(
                *pp,
                pv,
                cv,
                shifts@.take(i as int),
                num_vars as nat,
                mo,
                st,
            ) == Ok::<State<[u8; 32]>, Halt<[u8; 32]>>(transcript.state()),
        decreases shifts.len() - i,
    {
        let shift = shifts[i];
        assert(shifts@.take(i + 1).drop_last() =~= shifts@.take(i as int));
        assert(shifts@.take(i + 1).last() == shift);
        if shift.poly_idx < polys.len() {
            let poly = polys[shift.poly_idx];
            assert(pv[shift.poly_idx as int] == poly.vals());
            assert(pv[shift.poly_idx as int].len() == pow2(num_vars as nat));
            assert(poly@.len() == poly.vals().len());
            let comm = if shift.poly_idx < comms.len() {
                comms[shift.poly_idx]
            } else {
                &dummy
            };
            assert(*comm == comm_at(cv, shift.poly_idx as int));
            match shift_open::prove_shift_open::<F, BrakedownPcs<F, H>, T>(
                pp,
                poly,
                comm,
                shift.k,
                transcript,
            ) {
                Err(e) => {
                    proof {
                        lemma_prove_shifts_prefix::<F, H>(
                            *pp,
                            pv,
                            cv,
                            shifts@,
                            i + 1,
                            num_vars as nat,
                            mo,
                            st,
                        );
                    }
                    return Err(e);
                },
                Ok(()) => {},
            }
        }
        i = i + 1;
    }
    assert(shifts@.take(shifts@.len() as int) =~= shifts@);
    Ok(())
}

/// Proves the circuit, with a shift-open proof for each of `shifts`.
pub(crate) fn prove_circuit<
    F: PrimeField,
    H: HashFunction,
    A: Steps<F, [u8; 32]>,
    Ci: PlonkishCircuit<F>,
    T: TranscriptWrite<[u8; 32], F>,
>(
    steps: &A,
    pp: &HyperPlonkProverParam<F, BrakedownPcs<F, H>>,
    circuit: &Ci,
    shifts: &Vec<ShiftConstraint>,
    transcript: &mut T,
) -> (r: Result<(), Error>)
    requires
        can_prove::<F, H, A, Ci>(*steps, *pp, *circuit),
    ensures
        transcript::moved_to(
            r,
            final(transcript).state(),
            prove_spec::<F, H, A, Ci>(
                *steps,
                *pp,
                *circuit,
                shifts@,
                T::model(),
                old(transcript).state(),
            ),
        ),
{
    let ghost mo = T::model();
    let ghost st = transcript.state();
    let instances = circuit.instances();
    match absorb_all::<[u8; 32], F, T>(instances, transcript) {
        Err(e) => {
            return Err(e);
        },
        Ok(()) => {},
    }
    let instance_polys = steps.instance_polys(pp.num_vars, instances);
    let (witness_polys, witness_comms, mut challenges) = match run_phases::<F, H, Ci, T>(
        &pp.pcs,
        circuit,
        &pp.num_witness_polys,
        &pp.num_challenges,
        pp.num_vars,
        transcript,
    ) {
        Err(e) => {
            return Err(e);
        },
        Ok(out) => out,
    };
    let ghost pv = field::vals(challenges@);
    let first = chain_polys(
        chain_polys(pcs::poly_refs(&instance_polys), &pp.preprocess_polys),
        &witness_polys,
    );
    let helpers = match run_helpers::<F, H, A, T>(steps, pp, &first, &challenges, transcript) {
        Err(e) => {
            return Err(e);
        },
        Ok(out) => out,
    };
    let alpha = transcript.squeeze_challenge();
    let y: Vec<F> = transcript::squeeze_challenges(transcript, pp.num_vars);
    let mut perm_refs = indexed_refs(&pp.permutation_polys);
    let ghost fv = first@;
    let ghost perms = perm_refs@;
    let mut with_perms = first;
    with_perms.append(&mut perm_refs);
    assert(pcs::polys_vals(with_perms@) =~= pcs::polys_vals(fv) + pcs::polys_vals(perms));
    let with_lookups = chain_polys(with_perms, &helpers.ms);
    let polys = chain_polys(chain_polys(with_lookups, &helpers.hs), &helpers.zs);
    challenges.push(helpers.beta);
    challenges.push(helpers.gamma);
    challenges.push(alpha);
    let dummy = BrakedownCommitment::default();
    let with_preprocess = chain_comms(
        repeat_comm(&dummy, pp.num_instances.len()),
        &pp.preprocess_comms,
    );
    let with_perm_comms = chain_comms(
        chain_comms(with_preprocess, &witness_comms),
        &pp.permutation_comms,
    );
    let comms = chain_comms(
        chain_comms(with_perm_comms, &helpers.m_comms),
        &helpers.hz_comms,
    );
    let ghost sent = prove_rounds::<F, H, A, Ci>(*steps, *pp, *circuit, mo, st)->Ok_0;
    proof {
        assert(field::vals(challenges@) =~= pv + seq![
            helpers.beta.val(),
            helpers.gamma.val(),
            alpha.val(),
        ]);
        assert(pcs::polys_vals(polys@) =~= sent.polys);
        assert(pcs::pointees(comms@) =~= sent.comms);
        lemma_sent_shape::<F, H, A, Ci>(*steps, *pp, *circuit, mo, st);
        assert(y@.len() == field::vals(y@).len());
    }
    let ghost before_check = transcript.state();
    let (points, evals) = match steps.prove_zero_check(
        pp.num_instances.len(),
        &pp.expression,
        &polys,
        &challenges,
        &y,
        transcript,
    ) {
        Err(e) => {
            return Err(e);
        },
        Ok(out) => out,
    };
    proof {
        steps.zero_check_can_be_opened(
            pp.num_instances@.len(),
            pp.expression@,
            sent.polys,
            Seq::empty(),
            sent.challenges,
            sent.y,
            mo,
            before_check,
        );
        assert(sent.polys[0].len() == pow2(pp.num_vars as nat));
    }
    match BrakedownPcs::<F, H>::batch_open(&pp.pcs, &polys, &comms, &points, &evals, transcript) {
        Err(e) => {
            return Err(e);
        },
        Ok(()) => {},
    }
    run_shifts::<F, H, T>(&pp.pcs, &polys, &comms, shifts, pp.num_vars, transcript)
}

/// The phases of the witness as the verifier sees them: the commitments, the challenges and
/// the transcript after them.
pub open spec fn read_phases<F: PrimeField, H: HashFunction>(
    vp: BrakedownVerifierParam<F>,
    num_witness_polys: Seq<usize>,
    num_challenges: Seq<usize>,
    mo: Model<[u8; 32]>,
    st: State<[u8; 32]>,
) -> Result<(Seq<BrakedownCommitment>, Seq<int>, State<[u8; 32]>), Halt<[u8; 32]>>
    decreases num_challenges.len(),
{
    if num_challenges.len() == 0 {
        Ok((Seq::empty(), Seq::empty(), st))
    } else {
        match read_phases::<F, H>(
            vp,
            num_witness_polys.drop_last(),
            num_challenges.drop_last(),
            mo,
            st,
        ) {
            Err(e) => Err(e),
            Ok((comms, challenges, s)) => match BrakedownPcs::<F, H>::read_commitments_spec(
                vp,
                num_witness_polys.last() as nat,
                mo,
                s,
            ) {
                Err(e) => Err(e),
                Ok((more, t)) => {
                    let (cs, u) = transcript::squeeze_many(mo, t, num_challenges.last() as nat);
                    Ok((comms + more, challenges + cs, u))
                },
            },
        }
    }
}

/// An early error stops the whole.
proof fn lemma_read_phases_prefix<F: PrimeField, H: HashFunction>(
    vp: BrakedownVerifierParam<F>,
    num_witness_polys: Seq<usize>,
    num_challenges: Seq<usize>,
    k: int,
    mo: Model<[u8; 32]>,
    st: State<[u8; 32]>,
)
    requires
        num_witness_polys.len() == num_challenges.len(),
        0 <= k <= num_challenges.len(),
        read_phases::<F, H>(vp, num_witness_polys.take(k), num_challenges.take(k), mo, st) is Err,
    ensures
        read_phases::<F, H>(vp, num_witness_polys, num_challenges, mo, st) == read_phases::<F, H>(
            vp,
            num_witness_polys.take(k),
            num_challenges.take(k),
            mo,
            st,
        ),
    decreases num_challenges.len() - k,
{
    if k == num_challenges.len() {
        assert(num_challenges.take(k) =~= num_challenges);
        assert(num_witness_polys.take(k) =~= num_witness_polys);
    } else {
        assert(num_challenges.take(k + 1).drop_last() =~= num_challenges.take(k));
        assert(num_witness_polys.take(k + 1).drop_last() =~= num_witness_polys.take(k));
        lemma_read_phases_prefix::<F, H>(vp, num_witness_polys, num_challenges, k + 1, mo, st);
    }
}

/// Reads the phases of the witness.
fn follow_phases<F: PrimeField, H: HashFunction, T: TranscriptRead<[u8; 32], F>>(
    vp: &BrakedownVerifierParam<F>,
    num_witness_polys: &Vec<usize>,
    num_challenges: &Vec<usize>,
    transcript: &mut T,
) -> (r: Result<(Vec<BrakedownCommitment>, Vec<F>), Error>)
    requires
        num_witness_polys@.len() == num_challenges@.len(),
    ensures
        match read_phases::<F, H>(
            *vp,
            num_witness_polys@,
            num_challenges@,
            T::model(),
            old(transcript).state(),
        ) {
            Ok((comms, challenges, s)) => {
                &&& r is Ok
                &&& r->Ok_0.0@ == comms
                &&& field::vals(r->Ok_0.1@) == challenges
                &&& final(transcript).state() == s
            },
            Err(h) => transcript::halted(r, final(transcript).state(), h),
        },
{
    let ghost mo = T::model();
    let ghost st = transcript.state();
    let mut comms: Vec<BrakedownCommitment> = Vec::new();
    let mut challenges: Vec<F> = Vec::new();
    let mut round: usize = 0;
    proof {
        assert(num_challenges@.take(0) =~= Seq::empty());
        assert(comms@ =~= Seq::empty());
        assert(field::vals(challenges@) =~= Seq::empty());
    }
    while round < num_challenges.len()
        invariant
            round <= num_challenges.len(),
            num_witness_polys@.len() == num_challenges@.len(),
            mo == T::model(),
            st == old(transcript).state(),
            read_phases::<F, H>(
                *vp,
                num_witness_polys@.take(round as int),
                num_challenges@.take(round as int),
                mo,
                st,
            ) == Ok::<(Seq<BrakedownCommitment>, Seq<int>, State<[u8; 32]>), Halt<[u8; 32]>>(
                (comms@, field::vals(challenges@), transcript.state()),
            ),
        decreases num_challenges.len() - round,
    {
        let ghost cv = field::vals(challenges@);
        proof {
            assert(num_challenges@.take(round + 1).drop_last() =~= num_challenges@.take(
                round as int,
            ));
            assert(num_witness_polys@.take(round + 1).drop_last() =~= num_witness_polys@.take(
                round as int,
            ));
        }
        let mut more = match BrakedownPcs::<F, H>::read_commitments(
            vp,
            num_witness_polys[round],
            transcript,
        ) {
            Err(e) => {
                proof {
                    lemma_read_phases_prefix::<F, H>(
                        *vp,
                        num_witness_polys@,
                        num_challenges@,
                        round + 1,
                        mo,
                        st,
                    );
                }
                return Err(e);
            },
            Ok(more) => more,
        };
        comms.append(&mut more);
        let mut drawn: Vec<F> = transcript::squeeze_challenges(transcript, num_challenges[round]);
        let ghost dv = field::vals(drawn@);
        challenges.append(&mut drawn);
        assert(field::vals(challenges@) =~= cv + dv);
        round = round + 1;
    }
    assert(num_challenges@.take(num_challenges@.len() as int) =~= num_challenges@);
    assert(num_witness_polys@.take(num_witness_polys@.len() as int) =~= num_witness_polys@);
    Ok((comms, challenges))
}

/// What the verifier has heard before the zero-check.
#[verifier::ext_equal]
pub struct Heard {
    pub comms: Seq<BrakedownCommitment>,
    pub challenges: Seq<int>,
    pub y: Seq<int>,
    pub state: State<[u8; 32]>,
}

/// The commitments of the permutation, without their indices.
pub open spec fn unindexed(comms: Seq<(usize, BrakedownCommitment)>) -> Seq<BrakedownCommitment> {
    Seq::new(comms.len(), |i: int| comms[i].1)
}

/// All rounds before the zero-check, as the verifier sees them.
pub open spec fn read_rounds<F: PrimeField, H: HashFunction>(
    vp: HyperPlonkVerifierParam<F, BrakedownPcs<F, H>>,
    instances: Seq<Seq<int>>,
    mo: Model<[u8; 32]>,
    st: State<[u8; 32]>,
) -> Result<Heard, Halt<[u8; 32]>> {
    match absorb_instances(mo, st, instances) {
        Err(e) => Err(e),
        Ok(s1) => match read_phases::<F, H>(
            vp.pcs,
            vp.num_witness_polys@,
            vp.num_challenges@,
            mo,
            s1,
        ) {
            Err(e) => Err(e),
            Ok((witness, challenges, s2)) => {
                let (beta, s3) = transcript::squeeze(mo, s2);
                match BrakedownPcs::<F, H>::read_commitments_spec(
                    vp.pcs,
                    vp.num_lookups as nat,
                    mo,
                    s3,
                ) {
                    Err(e) => Err(e),
                    Ok((ms, s4)) => {
                        let (gamma, s5) = transcript::squeeze(mo, s4);
                        match BrakedownPcs::<F, H>::read_commitments_spec(
                            vp.pcs,
                            (vp.num_lookups + vp.num_permutation_z_polys) as nat,
                            mo,
                            s5,
                        ) {
                            Err(e) => Err(e),
                            Ok((hzs, s6)) => {
                                let (alpha, s7) = transcript::squeeze(mo, s6);
                                let (y, s8) = transcript::squeeze_many(mo, s7, vp.num_vars as nat);
                                Ok(
                                    Heard {
                                        comms: placeholders(vp.num_instances@.len())
                                            + vp.preprocess_comms@ + witness + unindexed(
                                            vp.permutation_comms@,
                                        ) + ms + hzs,
                                        challenges: challenges + seq![beta, gamma, alpha],
                                        y,
                                        state: s8,
                                    },
                                )
                            },
                        }
                    },
                }
            },
        },
    }
}

/// The state after a shift-open proof is read and accepted for each of the shifts.
pub open spec fn verify_shifts<F: PrimeField, H: HashFunction>(
    vp: BrakedownVerifierParam<F>,
    comms: Seq<BrakedownCommitment>,
    shifts: Seq<ShiftConstraint>,
    num_vars: nat,
    mo: Model<[u8; 32]>,
    st: State<[u8; 32]>,
) -> Result<State<[u8; 32]>, Halt<[u8; 32]>>
    decreases shifts.len(),
{
    if shifts.len() == 0 {
        Ok(st)
    } else {
        match verify_shifts::<F, H>(vp, comms, shifts.drop_last(), num_vars, mo, st) {
            Err(e) => Err(e),
            Ok(s) => {
                let i = shifts.last().poly_idx as int;
                if i < comms.len() {
                    match shift_open::verify_shift_open_spec::<F, BrakedownPcs<F, H>>(
                        vp,
                        comms[i],
                        num_vars,
                        shifts.last().k as int,
                        mo,
                        s,
                    ) {
                        Err(e) => Err(e),
                        Ok((_, _, t)) => Ok(t),
                    }
                } else {
                    Ok(s)
                }
            },
        }
    }
}

/// The transcript after the whole proof is read and accepted, with a shift-open proof for
/// each of `shifts`.
pub open spec fn verify_spec<F: PrimeField, H: HashFunction, A: Steps<F, [u8; 32]>>(
    steps: A,
    vp: HyperPlonkVerifierParam<F, BrakedownPcs<F, H>>,
    instances: Seq<Seq<int>>,
    shifts: Seq<ShiftConstraint>,
    mo: Model<[u8; 32]>,
    st: State<[u8; 32]>,
) -> Result<State<[u8; 32]>, Halt<[u8; 32]>> {
    match read_rounds::<F, H>(vp, instances, mo, st) {
        Err(e) => Err(e),
        Ok(heard) => match steps.verify_zero_check_spec(
            vp.num_vars as nat,
            vp.expression@,
            instances,
            heard.challenges,
            heard.y,
            mo,
            heard.state,
        ) {
            Err(e) => Err(e),
            Ok((points, evals, s)) => match BrakedownPcs::<F, H>::batch_verify_spec(
                vp.pcs,
                heard.comms,
                points,
                evals,
                mo,
                s,
            ) {
                Err(e) => Err(e),
                Ok(t) => verify_shifts::<F, H>(
                    vp.pcs,
                    heard.comms,
                    shifts,
                    vp.num_vars as nat,
                    mo,
                    t,
                ),
            },
        },
    }
}

/// Whether proofs for the given instances can be verified.
pub open spec fn can_verify<F: PrimeField, H: HashFunction>(
    vp: HyperPlonkVerifierParam<F, BrakedownPcs<F, H>>,
    instances: Seq<Seq<int>>,
) -> bool {
    &&& pow2(vp.num_vars as nat) <= usize::MAX
    &&& brakedown::can_verify_evals(
        vp.pcs.param.code@,
        vp.pcs.param.num_vars as nat,
        vp.num_vars as nat,
    )
    &&& vp.num_witness_polys@.len() == vp.num_challenges@.len()
    &&& vp.num_lookups + vp.num_permutation_z_polys <= usize::MAX
    &&& instances_match(vp.num_instances@, instances)
}

/// References to commitments that come with indices.
fn indexed_comm_refs(comms: &Vec<(usize, BrakedownCommitment)>) -> (r: Vec<&BrakedownCommitment>)
    ensures
        pcs::pointees(r@) == unindexed(comms@),
{
    let mut r: Vec<&BrakedownCommitment> = Vec::new();
    let mut i: usize = 0;
    while i < comms.len()
        invariant
            i <= comms.len(),
            r@.len() == i,
            forall|j: int| 0 <= j < i ==> *(#[trigger] r@[j]) == comms@[j].1,
        decreases comms.len() - i,
    {
        r.push(&comms[i].1);
        i = i + 1;
    }
    assert(pcs::pointees(r@) =~= unindexed(comms@));
    r
}

/// An early error stops the whole.
proof fn lemma_verify_shifts_prefix<F: PrimeField, H: HashFunction>(
    vp: BrakedownVerifierParam<F>,
    comms: Seq<BrakedownCommitment>,
    shifts: Seq<ShiftConstraint>,
    k: int,
    num_vars: nat,
    mo: Model<[u8; 32]>,
    st: State<[u8; 32]>,
)
    requires
        0 <= k <= shifts.len(),
        verify_shifts::<F, H>(vp, comms, shifts.take(k), num_vars, mo, st) is Err,
    ensures
        verify_shifts::<F, H>(vp, comms, shifts, num_vars, mo, st) == verify_shifts::<F, H>(
            vp,
            comms,
            shifts.take(k),
            num_vars,
            mo,
            st,
        ),
    decreases shifts.len() - k,
{
    if k == shifts.len() {
        assert(shifts.take(k) =~= shifts);
    } else {
        assert(shifts.take(k + 1).drop_last() =~= shifts.take(k));
        lemma_verify_shifts_prefix::<F, H>(vp, comms, shifts, k + 1, num_vars, mo, st);
    }
}

/// Reads and checks a shift-open proof for each of the shifts.
fn check_shifts<F: PrimeField, H: HashFunction, T: TranscriptRead<[u8; 32], F>>(
    vp: &BrakedownVerifierParam<F>,
    comms: &Vec<&BrakedownCommitment>,
    shifts: &Vec<ShiftConstraint>,
    num_vars: usize,
    transcript: &mut T,
) -> (r: Result<(), Error>)
    requires
        pow2(num_vars as nat) <= usize::MAX,
        brakedown::can_verify_evals(vp.param.code@, vp.param.num_vars as nat, num_vars as nat),
    ensures
        transcript::moved_to(
            r,
            final(transcript).state(),
            verify_shifts::<F, H>(
                *vp,
                pcs::pointees(comms@),
                shifts@,
                num_vars as nat,
                T::model(),
                old(transcript).state(),
            ),
        ),
{
    let ghost mo = T::model();
    let ghost st = transcript.state();
    let ghost cv = pcs::pointees(comms@);
    let mut i: usize = 0;
    assert(shifts@.take(0) =~= Seq::empty());
    while i < shifts.len()
        invariant
            i <= shifts.len(),
            mo == T::model(),
            st == old(transcript).state(),
            cv == pcs::pointees(comms@),
            pow2(num_vars as nat) <= usize::MAX,
            brakedown::can_verify_evals(vp.param.code@, vp.param.num_vars as nat, num_vars as nat),
            verify_shifts::<F, H>(*vp, cv, shifts@.take(i as int), num_vars as nat, mo, st) == Ok::<
                State<[u8; 32]>,
                Halt<[u8; 32]>,
            >(transcript.state()),
        decreases shifts.len() - i,
    {
        let shift = shifts[i];
        assert(shifts@.take(i + 1).drop_last() =~= shifts@.take(i as int));
        assert(shifts@.take(i + 1).last() == shift);
        if shift.poly_idx < comms.len() {
            let comm = comms[shift.poly_idx];
            assert(cv[shift.poly_idx as int] == *comm);
            match shift_open::verify_shift_open::<F, BrakedownPcs<F, H>, T>(
                vp,
                comm,
                shift.k,
                num_vars,
                transcript,
            ) {
                Err(e) => {
                    proof {
                        lemma_verify_shifts_prefix::<F, H>(
                            *vp,
                            cv,
                            shifts@,
                            i + 1,
                            num_vars as nat,
                            mo,
                            st,
                        );
                    }
                    return Err(e);
                },
                Ok(_) => {},
            }
        }
        i = i + 1;
    }
    assert(shifts@.take(shifts@.len() as int) =~= shifts@);
    Ok(())
}

/// Verifies a proof for the circuit, with a shift-open proof for each of `shifts`.
pub(crate) fn verify_circuit<
    F: PrimeField,
    H: HashFunction,
    A: Steps<F, [u8; 32]>,
    T: TranscriptRead<[u8; 32], F>,
>(
    steps: &A,
    vp: &HyperPlonkVerifierParam<F, BrakedownPcs<F, H>>,
    instances: &[Vec<F>],
    shifts: &Vec<ShiftConstraint>,
    transcript: &mut T,
) -> (r: Result<(), Error>)
    requires
        can_verify::<F, H>(*vp, pcs::points_vals(instances@)),
    ensures
        transcript::moved_to(
            r,
            final(transcript).state(),
            verify_spec::<F, H, A>(
                *steps,
                *vp,
                pcs::points_vals(instances@),
                shifts@,
                T::model(),
                old(transcript).state(),
            ),
        ),
{
    let ghost mo = T::model();
    let ghost st = transcript.state();
    let ghost iv = pcs::points_vals(instances@);
    match absorb_all::<[u8; 32], F, T>(instances, transcript) {
        Err(e) => {
            return Err(e);
        },
        Ok(()) => {},
    }
    let (witness_comms, mut challenges) = match follow_phases::<F, H, T>(
        &vp.pcs,
        &vp.num_witness_polys,
        &vp.num_challenges,
        transcript,
    ) {
        Err(e) => {
            return Err(e);
        },
        Ok(out) => out,
    };
    let ghost cv = field::vals(challenges@);
    let beta = transcript.squeeze_challenge();
    let lookup_m_comms = match BrakedownPcs::<F, H>::read_commitments(
        &vp.pcs,
        vp.num_lookups,
        transcript,
    ) {
        Err(e) => {
            return Err(e);
        },
        Ok(comms) => comms,
    };
    let gamma = transcript.squeeze_challenge();
    let hz_comms = match BrakedownPcs::<F, H>::read_commitments(
        &vp.pcs,
        vp.num_lookups + vp.num_permutation_z_polys,
        transcript,
    ) {
        Err(e) => {
            return Err(e);
        },
        Ok(comms) => comms,
    };
    let alpha = transcript.squeeze_challenge();
    let ghost before_y = transcript.state();
    let y: Vec<F> = transcript::squeeze_challenges(transcript, vp.num_vars);
    challenges.push(beta);
    challenges.push(gamma);
    challenges.push(alpha);
    let dummy = BrakedownCommitment::default();
    let with_preprocess = chain_comms(
        repeat_comm(&dummy, vp.num_instances.len()),
        &vp.preprocess_comms,
    );
    let mut with_perms = chain_comms(with_preprocess, &witness_comms);
    let mut perm_refs = indexed_comm_refs(&vp.permutation_comms);
    let ghost front = with_perms@;
    let ghost perms = perm_refs@;
    with_perms.append(&mut perm_refs);
    assert(pcs::pointees(with_perms@) =~= pcs::pointees(front) + pcs::pointees(perms));
    let comms = chain_comms(chain_comms(with_perms, &lookup_m_comms), &hz_comms);
    let ghost heard = read_rounds::<F, H>(*vp, iv, mo, st)->Ok_0;
    proof {
        assert(field::vals(challenges@) =~= cv + seq![beta.val(), gamma.val(), alpha.val()]);
        assert(pcs::pointees(comms@) =~= heard.comms);
        transcript::lemma_squeeze_many_len(mo, before_y, vp.num_vars as nat);
        assert(y@.len() == field::vals(y@).len());
    }
    let ghost before_check = transcript.state();
    let (points, evals) = match steps.verify_zero_check(
        vp.num_vars,
        &vp.expression,
        instances,
        &challenges,
        &y,
        transcript,
    ) {
        Err(e) => {
            return Err(e);
        },
        Ok(out) => out,
    };
    proof {
        steps.zero_check_can_be_opened(
            0,
            vp.expression@,
            Seq::empty(),
            iv,
            heard.challenges,
            heard.y,
            mo,
            before_check,
        );
    }
    match BrakedownPcs::<F, H>::batch_verify(&vp.pcs, &comms, &points, &evals, transcript) {
        Err(e) => {
            return Err(e);
        },
        Ok(()) => {},
    }
    check_shifts::<F, H, T>(&vp.pcs, &comms, shifts, vp.num_vars, transcript)
}

} // verus!
