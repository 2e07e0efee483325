//! HyperPlonk over Brakedown, from setup to verification.

use plonkish_backend::backend::hyperplonk::unconstrained::Unconstrained;
use plonkish_backend::backend::hyperplonk::util::shift_open_base_circuit;
use plonkish_backend::backend::hyperplonk::{HyperPlonkProverParam, HyperPlonkVerifierParam};
use plonkish_backend::backend::hyperplonk_brakedown::HyperPlonkBrakedown;
use plonkish_backend::backend::mock::MockCircuit;
use plonkish_backend::backend::{PlonkishCircuit, PlonkishCircuitInfo};
use plonkish_backend::pcs::multilinear::BrakedownPcs;
use plonkish_backend::poly::multilinear::MultilinearPolynomial;
use plonkish_backend::util::bn256::Fr;
use plonkish_backend::util::code::BrakedownCode;
use plonkish_backend::util::expression::{Expression, Lexical, Query, Rotation};
use plonkish_backend::util::field::PrimeField;
use plonkish_backend::util::hash::Keccak256;
use plonkish_backend::util::transcript::Keccak256Transcript;
use plonkish_backend::Error;
use rand::rngs::StdRng;
use rand::{Rng, SeedableRng};

type Backend = HyperPlonkBrakedown<Fr, Keccak256>;
type Pcs = BrakedownPcs<Fr, Keccak256>;
type Transcript = Keccak256Transcript<Fr>;

fn rng(seed: u64) -> StdRng {
    StdRng::seed_from_u64(seed)
}

fn sparse_code(num_vars: usize) -> BrakedownCode<Fr> {
    let mut rng = rng(7);
    let row_len = 1usize << (num_vars / 2);
    let parity = (0..row_len + 2)
        .map(|i| (0..3).map(|_| (rng.gen_range(0..row_len + i), Fr::random(&mut rng))).collect())
        .collect();
    BrakedownCode::new(row_len, 5, parity).unwrap()
}

fn query(poly: usize, rotation: i32) -> Expression<Fr> {
    Expression::Polynomial(Query::new(poly, Rotation(rotation)))
}

fn sum(a: Expression<Fr>, b: Expression<Fr>) -> Expression<Fr> {
    Expression::Sum(Box::new(a), Box::new(b))
}

/// A circuit with one instance, one preprocessed and one witness polynomial.
fn base(num_vars: usize, constraint: Expression<Fr>) -> (PlonkishCircuitInfo<Fr>, MockCircuit<Fr>) {
    let (mut info, circuit, _) =
        shift_open_base_circuit::<Fr, Lexical>(num_vars, 3, &mut rng(0), &mut rng(1));
    info.constraints = vec![constraint];
    (info, circuit)
}

fn parameters(
    info: &PlonkishCircuitInfo<Fr>,
) -> (HyperPlonkProverParam<Fr, Pcs>, HyperPlonkVerifierParam<Fr, Pcs>) {
    assert!(info.is_well_formed());
    let steps = Unconstrained { num_polys: 3 };
    let param = Backend::setup(&steps, info, |num_vars, _| sparse_code(num_vars)).unwrap();
    Backend::preprocess(&steps, &param, info).ok().unwrap()
}

fn prove(pp: &HyperPlonkProverParam<Fr, Pcs>, circuit: &MockCircuit<Fr>, shifts: bool) -> Vec<u8> {
    let steps = Unconstrained { num_polys: 3 };
    let mut transcript = Transcript::new(());
    if shifts {
        Backend::prove_with_shift(&steps, pp, circuit, &mut transcript).unwrap();
    } else {
        Backend::prove(&steps, pp, circuit, &mut transcript).unwrap();
    }
    transcript.into_proof()
}

fn verify(
    vp: &HyperPlonkVerifierParam<Fr, Pcs>,
    instances: &[Vec<Fr>],
    shifts: bool,
    proof: &[u8],
) -> Result<(), Error> {
    let steps = Unconstrained { num_polys: 3 };
    let mut transcript = Transcript::from_proof((), proof);
    if shifts {
        Backend::verify_with_shift(&steps, vp, instances, &mut transcript)
    } else {
        Backend::verify(&steps, vp, instances, &mut transcript)
    }
}

#[test]
fn honest_proofs_are_accepted() {
    for num_vars in 2..7 {
        let (info, circuit) = base(num_vars, Expression::Constant(Fr::zero()));
        let (pp, vp) = parameters(&info);
        let proof = prove(&pp, &circuit, false);
        assert_eq!(verify(&vp, circuit.instances(), false, &proof), Ok(()));
    }
}

#[test]
fn preprocessing_commits_to_fixed_polynomials() {
    let (info, _) = base(4, Expression::Constant(Fr::zero()));
    let (pp, vp) = parameters(&info);
    assert_eq!(pp.num_vars, 4);
    assert_eq!(vp.num_vars, 4);
    assert_eq!(pp.num_instances, vec![1]);
    assert_eq!(vp.num_witness_polys, vec![1]);
    assert_eq!(pp.preprocess_comms, vp.preprocess_comms);
    assert_eq!(pp.preprocess_polys[0].evals(), &info.preprocess_polys[0]);
    assert!(vp.permutation_comms.is_empty());
    assert_eq!(vp.num_lookups, 0);
    assert_eq!(pp.pcs.num_vars(), 4);
    assert_eq!(pp.pcs.param.n_0, 8);
    assert_eq!(vp.pcs.param.n_0, 8);
}

#[test]
fn parameters_can_be_too_small() {
    let (small, _) = base(3, Expression::Constant(Fr::zero()));
    let (large, _) = base(5, Expression::Constant(Fr::zero()));
    let steps = Unconstrained { num_polys: 3 };
    let param = Backend::setup(&steps, &small, |num_vars, _| sparse_code(num_vars)).unwrap();
    assert_eq!(
        Backend::preprocess(&steps, &param, &large).err(),
        Some(Error::InvalidPcsParam("Requested 5 vars but param only supports 3".to_string())),
    );
}

#[test]
fn rotated_queries_get_shift_proofs() {
    let (info, circuit) = base(4, sum(query(2, 1), sum(query(1, -2), query(2, 0))));
    let (pp, vp) = parameters(&info);
    let plain = prove(&pp, &circuit, false);
    let shifted = prove(&pp, &circuit, true);
    assert_eq!(plain[..], shifted[..plain.len()]);
    assert!(shifted.len() > plain.len());
    assert_eq!(verify(&vp, circuit.instances(), true, &shifted), Ok(()));
    // Without its shift proofs the proof ends too early.
    assert_eq!(
        verify(&vp, circuit.instances(), true, &plain),
        Err(Error::Transcript(
            std::io::ErrorKind::UnexpectedEof,
            "Proof is too short".to_string(),
        )),
    );
    assert_eq!(verify(&vp, circuit.instances(), false, &plain), Ok(()));
}

#[test]
fn a_tampered_shift_proof_is_refused() {
    let (info, circuit) = base(4, query(2, 1));
    let (pp, vp) = parameters(&info);
    let plain = prove(&pp, &circuit, false);
    let mut proof = prove(&pp, &circuit, true);
    proof[plain.len() + 32] ^= 0xFF;
    assert!(verify(&vp, circuit.instances(), true, &proof).is_err());
}

#[test]
fn instances_are_bound_to_the_proof() {
    let (info, circuit) = base(4, Expression::Constant(Fr::zero()));
    let (pp, vp) = parameters(&info);
    let proof = prove(&pp, &circuit, false);
    assert!(verify(&vp, &[vec![Fr::from_u64(4)]], false, &proof).is_err());
}

#[test]
fn instances_have_no_commitment_to_shift() {
    let (info, circuit) = base(4, query(0, 1));
    let (pp, vp) = parameters(&info);
    let proof = prove(&pp, &circuit, true);
    assert_eq!(
        verify(&vp, circuit.instances(), true, &proof),
        Err(Error::InvalidPcsOpen("Merkle path verification failed".to_string())),
    );
}

#[test]
fn queries_of_unknown_polynomials_are_skipped() {
    let (mut info, circuit) = base(4, Expression::Constant(Fr::zero()));
    info.constraints = vec![query(2, 1)];
    let (mut pp, mut vp) = parameters(&info);
    pp.expression = query(9, 1);
    vp.expression = query(9, 1);
    let proof = prove(&pp, &circuit, true);
    assert_eq!(proof, prove(&pp, &circuit, false));
    assert_eq!(verify(&vp, circuit.instances(), true, &proof), Ok(()));
}

#[test]
fn something_must_be_opened() {
    let (info, circuit) = base(2, Expression::Constant(Fr::zero()));
    let (pp, vp) = parameters(&info);
    let proof = prove(&pp, &circuit, false);
    let mut transcript = Transcript::from_proof((), &proof);
    let none = Unconstrained { num_polys: 0 };
    assert_eq!(
        Backend::verify(&none, &vp, circuit.instances(), &mut transcript),
        Err(Error::InvalidSnark("No polynomial to open".to_string())),
    );
}

#[test]
fn shift_constraints_are_found_everywhere() {
    let one = Fr::one();
    let e = sum(
        Expression::Negated(Box::new(query(0, -3))),
        Expression::Product(
            Box::new(Expression::Scaled(Box::new(query(1, 2)), one)),
            Box::new(Expression::DistributePowers(
                vec![query(2, 0), query(3, 5), Expression::Constant(one)],
                Box::new(sum(Expression::Challenge(0), query(4, 1))),
            )),
        ),
    );
    let found: Vec<(usize, usize, i32)> = Backend::extract_shift_constraints(&e)
        .iter()
        .map(|s| (s.poly_idx, s.k, s.rotation.0))
        .collect();
    assert_eq!(found, vec![(0, 3, -3), (1, 2, 2), (3, 5, 5), (4, 1, 1)]);
    let mut shifts = Backend::extract_shift_constraints(&query(7, 1));
    Backend::collect_rotations(&query(8, i32::MIN), &mut shifts);
    assert_eq!(shifts.len(), 2);
    assert_eq!(shifts[1].k, 1usize << 31);
}

#[test]
fn shifts_can_be_replaced_by_polynomials() {
    let values: Vec<Fr> = (0..8).map(Fr::from_u64).collect();
    let poly = MultilinearPolynomial::new(values);
    let e = sum(query(0, 3), sum(query(0, 0), query(0, 10)));
    let (replaced, aux) = Backend::replace_shifts_with_aux(&e, &[&poly], 3);
    assert!(Backend::extract_shift_constraints(&replaced).is_empty());
    assert_eq!(
        format!("{:?}", replaced),
        format!("{:?}", sum(query(1, 0), sum(query(0, 0), query(2, 0)))),
    );
    assert_eq!(aux.len(), 2);
    let expected = |k: u64| (0..8).map(|x| Fr::from_u64((x + k) % 8)).collect::<Vec<Fr>>();
    assert_eq!(aux[0].evals(), &expected(3));
    assert_eq!(aux[1].evals(), &expected(2));
    let (same, none) = Backend::replace_shifts_with_aux(&query(0, 0), &[&poly], usize::MAX);
    assert_eq!(format!("{:?}", same), format!("{:?}", query(0, 0)));
    assert!(none.is_empty());
}

#[test]
fn repeated_rotations_share_a_polynomial() {
    let poly = MultilinearPolynomial::new([1, 2, 3, 5].map(Fr::from_u64).to_vec());
    let e = sum(query(0, 1), query(0, 1));
    let (replaced, aux) = Backend::replace_shifts_with_aux(&e, &[&poly], 2);
    assert_eq!(
        format!("{:?}", replaced),
        format!("{:?}", sum(query(1, 0), query(1, 0))),
    );
    assert_eq!(aux.len(), 1);
    assert_eq!(aux[0].evals(), &[2, 3, 5, 1].map(Fr::from_u64).to_vec());
    // Rotations in opposite directions are told apart.
    let nested = Expression::DistributePowers(
        vec![query(0, -1), Expression::Scaled(Box::new(query(0, 1)), Fr::one())],
        Box::new(Expression::Negated(Box::new(query(0, -1)))),
    );
    let (replaced, aux) = Backend::replace_shifts_with_aux(&nested, &[&poly], 2);
    assert_eq!(
        format!("{:?}", replaced),
        format!(
            "{:?}",
            Expression::DistributePowers(
                vec![query(1, 0), Expression::Scaled(Box::new(query(2, 0)), Fr::one())],
                Box::new(Expression::Negated(Box::new(query(1, 0)))),
            )
        ),
    );
    assert_eq!(aux.len(), 2);
}

#[test]
fn circuits_must_use_what_exists() {
    let (mut info, _) = base(4, Expression::Constant(Fr::zero()));
    assert!(info.is_well_formed());
    info.constraints = vec![query(3, 0)];
    assert!(!info.is_well_formed());
    info.constraints = vec![Expression::Challenge(0)];
    assert!(!info.is_well_formed());
    info.constraints = vec![Expression::Product(Box::new(query(1, 0)), Box::new(query(2, 0)))];
    assert!(!info.is_well_formed());
    info.max_degree = Some(2);
    assert!(info.is_well_formed());
    info.max_degree = None;
    info.permutations = vec![vec![(3, 0)]];
    assert!(!info.is_well_formed());
    info.permutations = Vec::new();
    info.lookups = vec![vec![(query(1, 0), query(5, 0))]];
    assert!(!info.is_well_formed());
    info.lookups = Vec::new();
    info.num_witness_polys = vec![1, 0];
    info.num_challenges = vec![1, 0];
    assert!(!info.is_well_formed());
    info.num_witness_polys = vec![1, 1];
    assert!(info.is_well_formed());
    info.num_challenges = vec![0, 1];
    assert!(!info.is_well_formed());
    info.num_challenges = vec![1];
    assert!(!info.is_well_formed());
}

#[test]
fn the_base_circuit_selects_usable_rows() {
    let (info, circuit, poly) =
        shift_open_base_circuit::<Fr, Lexical>(3, 5, &mut rng(0), &mut rng(1));
    assert_eq!(info.k, 3);
    assert_eq!(info.preprocess_polys.len(), 1);
    assert_eq!(info.preprocess_polys[0].len(), 8);
    assert!(info.preprocess_polys[0].iter().all(|x| *x == Fr::zero() || *x == Fr::one()));
    assert_eq!(circuit.instances(), &vec![vec![Fr::from_u64(5)]]);
    assert_eq!(circuit.synthesize(0, &[]).unwrap(), vec![poly.evals().clone()]);
}
