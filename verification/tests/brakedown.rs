//! Brakedown commitments, their Merkle trees and their codes.

use plonkish_backend::pcs::multilinear::brakedown::{
    get_column_indices, BrakedownCommitment, BrakedownParam, BrakedownProverParam,
    BrakedownVerifierParam,
};
use plonkish_backend::pcs::multilinear::{BrakedownPcs, MerkleNode, MerkleTree};
use plonkish_backend::pcs::{Additive, Evaluation, PolynomialCommitmentScheme};
use plonkish_backend::piop::shift_open::{prove_shift_open, verify_shift_open};
use plonkish_backend::poly::multilinear::{compute_tensor_product, MultilinearPolynomial};
use plonkish_backend::util::bn256::Fr;
use plonkish_backend::util::code::BrakedownCode;
use plonkish_backend::util::expression::Rotation;
use plonkish_backend::util::field::PrimeField;
use plonkish_backend::util::hash::{HashFunction, Keccak256};
use plonkish_backend::util::transcript::{squeeze_challenges, Keccak256Transcript, Transcript as Absorb};
use plonkish_backend::Error;
use rand::rngs::StdRng;
use rand::{Rng, SeedableRng};

type TestPcs = BrakedownPcs<Fr, Keccak256>;
type Transcript = Keccak256Transcript<Fr>;

fn seeded_std_rng() -> StdRng {
    StdRng::seed_from_u64(0)
}

fn rand_vec(n: usize, rng: &mut StdRng) -> Vec<Fr> {
    (0..n).map(|_| Fr::random(rng)).collect()
}

/// A code for messages of half the variables, each combination over three earlier symbols.
fn sparse_code(num_vars: usize, rng: &mut StdRng) -> BrakedownCode<Fr> {
    let row_len = 1usize << (num_vars / 2);
    let parity = (0..row_len / 2 + 3)
        .map(|i| (0..3).map(|_| (rng.gen_range(0..row_len + i), Fr::random(rng))).collect())
        .collect();
    BrakedownCode::new(row_len, 12, parity).unwrap()
}

fn setup(num_vars: usize, rng: &mut StdRng) -> BrakedownParam<Fr> {
    TestPcs::setup(1 << num_vars, 1, |n, _n_0| sparse_code(n, rng)).unwrap()
}

fn open(
    pp: &BrakedownProverParam<Fr>,
    poly: &MultilinearPolynomial<Fr>,
    comm: &BrakedownCommitment,
    point: &Vec<Fr>,
    eval: &Fr,
) -> Vec<u8> {
    let mut transcript = Transcript::new(());
    TestPcs::open(pp, poly, comm, point, eval, &mut transcript).unwrap();
    transcript.into_proof()
}

fn verify(
    vp: &BrakedownVerifierParam<Fr>,
    comm: &BrakedownCommitment,
    point: &Vec<Fr>,
    eval: &Fr,
    proof: &[u8],
) -> Result<(), Error> {
    let mut transcript = Transcript::from_proof((), proof);
    TestPcs::verify(vp, comm, point, eval, &mut transcript)
}

fn hex(bytes: &[u8]) -> String {
    bytes.iter().map(|b| format!("{:02x}", b)).collect()
}

#[test]
fn test_brakedown_commit() {
    let mut rng = seeded_std_rng();
    let num_vars = 8;
    let poly_size = 1 << num_vars;
    let param = setup(num_vars, &mut rng);
    let (pp, _vp) = TestPcs::trim(&param, poly_size, 1).unwrap();
    let poly = MultilinearPolynomial::new(rand_vec(poly_size, &mut rng));
    let comm = TestPcs::commit(&pp, &poly);
    assert!(comm.is_ok());
    let comm = comm.unwrap();
    assert_ne!(comm.root, MerkleNode::default());
}

#[test]
fn test_brakedown_open_verify() {
    let mut rng = seeded_std_rng();
    let num_vars = 12;
    let poly_size = 1 << num_vars;
    println!("Testing with num_vars={}, poly_size={}", num_vars, poly_size);
    let param = setup(num_vars, &mut rng);
    println!(
        "Setup: row_len={}, codeword_len={}, num_column_opening={}",
        param.code.row_len(),
        param.code.codeword_len(),
        param.code.num_column_opening()
    );
    let (pp, vp) = TestPcs::trim(&param, poly_size, 1).unwrap();
    let poly = MultilinearPolynomial::new(rand_vec(poly_size, &mut rng));
    let comm = TestPcs::commit(&pp, &poly).unwrap();
    let point: Vec<Fr> = rand_vec(num_vars, &mut rng);
    let eval = poly.evaluate(&point);
    let proof = open(&pp, &poly, &comm, &point, &eval);
    let result = verify(&vp, &comm, &point, &eval, &proof);
    assert!(result.is_ok(), "Verification failed: {:?}", result);
}

#[test]
fn test_brakedown_wrong_eval_fails() {
    let mut rng = seeded_std_rng();
    let num_vars = 12;
    let poly_size = 1 << num_vars;
    let param = setup(num_vars, &mut rng);
    let (pp, vp) = TestPcs::trim(&param, poly_size, 1).unwrap();
    let poly = MultilinearPolynomial::new(rand_vec(poly_size, &mut rng));
    let comm = TestPcs::commit(&pp, &poly).unwrap();
    let point: Vec<Fr> = rand_vec(num_vars, &mut rng);
    let eval = poly.evaluate(&point);
    let wrong_eval = eval.add(Fr::one());
    let proof = open(&pp, &poly, &comm, &point, &eval);
    let result = verify(&vp, &comm, &point, &wrong_eval, &proof);
    assert!(result.is_err(), "Verification should fail with wrong eval");
}

#[test]
fn test_tensor_product() {
    let point = vec![Fr::from_u64(2), Fr::from_u64(3)];
    let tensor = compute_tensor_product(&point);
    let one = Fr::one();
    let two = Fr::from_u64(2);
    let three = Fr::from_u64(3);
    assert_eq!(tensor.len(), 4);
    assert_eq!(tensor[0], one.sub(two).mul(one.sub(three)));
    assert_eq!(tensor[1], two.mul(one.sub(three)));
    assert_eq!(tensor[2], one.sub(two).mul(three));
    assert_eq!(tensor[3], two.mul(three));
}

#[test]
fn test_merkle_tree() {
    let columns: Vec<Vec<Fr>> = vec![
        vec![Fr::from_u64(1), Fr::from_u64(2)],
        vec![Fr::from_u64(3), Fr::from_u64(4)],
        vec![Fr::from_u64(5), Fr::from_u64(6)],
        vec![Fr::from_u64(7), Fr::from_u64(8)],
    ];
    let tree = MerkleTree::<Keccak256>::new(&columns);
    let num_leaves = columns.len().next_power_of_two();
    for (i, col) in columns.iter().enumerate() {
        let path = tree.auth_path(i);
        assert!(
            MerkleTree::<Keccak256>::verify_path(tree.root(), i, col, &path, num_leaves),
            "Path verification failed for leaf {}",
            i
        );
    }
}

#[test]
fn test_brakedown_shift_open() {
    let mut rng = seeded_std_rng();
    let num_vars = 8;
    let poly_size = 1 << num_vars;
    let param = setup(num_vars, &mut rng);
    let (pp, vp) = TestPcs::trim(&param, poly_size, 1).unwrap();
    let poly = MultilinearPolynomial::new(rand_vec(poly_size, &mut rng));
    let comm = TestPcs::commit(&pp, &poly).unwrap();
    let k = 42 % poly_size;
    println!("Testing shift_open with Brakedown PCS:");
    println!("  num_vars = {}, poly_size = {}", num_vars, poly_size);
    println!("  shift amount k = {}", k);
    println!("  commitment root = {:?}", comm.root);
    let proof = {
        let mut transcript = Transcript::new(());
        prove_shift_open::<Fr, TestPcs, Transcript>(&pp, &poly, &comm, k, &mut transcript).unwrap();
        transcript.into_proof()
    };
    let result = {
        let mut transcript = Transcript::from_proof((), proof.as_slice());
        verify_shift_open::<Fr, TestPcs, Transcript>(&vp, &comm, k, num_vars, &mut transcript)
    };
    match result {
        Ok((y, y_prime)) => {
            println!("✓ Shift-open verification succeeded!");
            println!("  y = F(r) = {:?}", y);
            println!("  y' = G(r) = {:?}", y_prime);
            let mut transcript = Transcript::new(());
            transcript.common_field_element(&Fr::from_u64(k as u64)).unwrap();
            transcript.common_field_element(&Fr::from_u64(num_vars as u64)).unwrap();
            let r = squeeze_challenges(&mut transcript, num_vars);
            let shifted = (0..poly_size).map(|x| poly.evals()[(x + k) % poly_size]).collect();
            assert_eq!(y, poly.evaluate(&r));
            assert_eq!(y_prime, MultilinearPolynomial::new(shifted).evaluate(&r));
        }
        Err(e) => {
            panic!("Shift-open verification failed: {:?}", e);
        }
    }
}

#[test]
fn a_changed_shift_value_is_refused() {
    let mut rng = seeded_std_rng();
    let param = setup(6, &mut rng);
    let (pp, vp) = TestPcs::trim(&param, 64, 1).unwrap();
    let poly = MultilinearPolynomial::new(rand_vec(64, &mut rng));
    let comm = TestPcs::commit(&pp, &poly).unwrap();
    let mut transcript = Transcript::new(());
    prove_shift_open::<Fr, TestPcs, Transcript>(&pp, &poly, &comm, 5, &mut transcript).unwrap();
    let proof = transcript.into_proof();
    for i in 32..64 {
        let mut tampered = proof.clone();
        tampered[i] ^= 1;
        let mut transcript = Transcript::from_proof((), &tampered);
        let result =
            verify_shift_open::<Fr, TestPcs, Transcript>(&vp, &comm, 5, 6, &mut transcript);
        assert_eq!(
            result,
            Err(Error::InvalidSumcheck("Consistency failure at round 0".to_string())),
        );
    }
}

#[test]
fn a_refused_polynomial_leaves_the_transcript_alone() {
    let code = BrakedownCode::new(1, 1, Vec::new()).unwrap();
    let param = TestPcs::setup(1, 1, |_, _| code).unwrap();
    let (pp, vp) = TestPcs::trim(&param, 1, 1).unwrap();
    let poly = MultilinearPolynomial::new(vec![Fr::from_u64(7)]);
    let comm = TestPcs::commit(&pp, &poly).unwrap();
    let refused = Error::InvalidPcsParam("Polynomial must have at least 1 variable".to_string());
    let next = Transcript::new(()).squeeze_challenge();
    let mut transcript = Transcript::new(());
    assert_eq!(
        prove_shift_open::<Fr, TestPcs, Transcript>(&pp, &poly, &comm, 0, &mut transcript),
        Err(refused.clone()),
    );
    assert_eq!(transcript.squeeze_challenge(), next);
    assert!(transcript.into_proof().is_empty());
    let mut transcript = Transcript::from_proof((), &[1, 2, 3]);
    assert_eq!(
        verify_shift_open::<Fr, TestPcs, Transcript>(&vp, &comm, 0, 0, &mut transcript),
        Err(refused),
    );
    assert_eq!(transcript.squeeze_challenge(), next);
    assert_eq!(transcript.into_proof(), vec![1, 2, 3]);
}

#[test]
fn leaves_are_keccak_digests_of_columns() {
    let column = vec![Fr::from_u64(1), Fr::from_u64(2)];
    let tree = MerkleTree::<Keccak256>::new(&[column.clone()]);
    let mut bytes = column[0].to_repr().to_vec();
    bytes.extend(column[1].to_repr());
    assert_eq!(tree.root().0.to_vec(), Keccak256::digest(&bytes));
    assert_eq!(*tree.root(), MerkleNode::hash::<Keccak256>(&bytes));
    assert!(tree.auth_path(0).is_empty());
}

#[test]
fn missing_leaves_are_zero() {
    let columns: Vec<Vec<Fr>> = (1..4).map(|i| vec![Fr::from_u64(i)]).collect();
    let tree = MerkleTree::<Keccak256>::new(&columns);
    let leaf = |i: usize| MerkleNode::hash::<Keccak256>(&columns[i][0].to_repr());
    let left = MerkleNode::hash_two::<Keccak256>(&leaf(0), &leaf(1));
    let right = MerkleNode::hash_two::<Keccak256>(&leaf(2), &MerkleNode::default());
    assert_eq!(*tree.root(), MerkleNode::hash_two::<Keccak256>(&left, &right));
    assert_eq!(tree.auth_path(2), vec![MerkleNode::default(), left]);
    assert_eq!(tree.auth_path(4), vec![leaf(1), right]);
    for (i, column) in columns.iter().enumerate() {
        let path = tree.auth_path(i);
        assert!(MerkleTree::<Keccak256>::verify_path(tree.root(), i, column, &path, 4));
    }
}

#[test]
fn a_path_holds_for_its_column_and_place_only() {
    let columns: Vec<Vec<Fr>> = (1..5).map(|i| vec![Fr::from_u64(i)]).collect();
    let tree = MerkleTree::<Keccak256>::new(&columns);
    let path = tree.auth_path(1);
    assert!(!MerkleTree::<Keccak256>::verify_path(tree.root(), 1, &columns[0], &path, 4));
    assert!(!MerkleTree::<Keccak256>::verify_path(tree.root(), 0, &columns[1], &path, 4));
    assert!(!MerkleTree::<Keccak256>::verify_path(tree.root(), 1, &columns[1], &path[..1], 4));
    assert!(!MerkleTree::<Keccak256>::verify_path(&path[0], 1, &columns[1], &path, 4));
}

#[test]
fn keccak_digest_of_nothing() {
    assert_eq!(
        hex(&Keccak256::digest(&[])),
        "c5d2460186f7233c927e7db2dcc703c0e500b653ca82273b7bfad8045d85a470",
    );
    assert_eq!(
        hex(&Keccak256::digest(b"abc")),
        "4e03657aea45a94fc7d47ba826c8d667c0d1e6e33a64a036ec44f58fa12d6c45",
    );
}

#[test]
fn codewords_begin_with_the_message() {
    let parity = vec![
        vec![(0, Fr::from_u64(2)), (1, Fr::from_u64(3))],
        vec![(2, Fr::from_u64(5))],
        vec![],
    ];
    let code = BrakedownCode::new(2, 1, parity).unwrap();
    assert_eq!(code.row_len(), 2);
    assert_eq!(code.codeword_len(), 5);
    assert_eq!(code.num_column_opening(), 1);
    let mut target: Vec<Fr> = [7, 11, 0, 0, 0].iter().map(|x| Fr::from_u64(*x)).collect();
    code.encode(&mut target);
    let expected: Vec<Fr> = [7, 11, 47, 235, 0].iter().map(|x| Fr::from_u64(*x)).collect();
    assert_eq!(target, expected);
}

#[test]
fn codes_are_linear() {
    let mut rng = seeded_std_rng();
    let code = sparse_code(8, &mut rng);
    let (a, b) = (rand_vec(16, &mut rng), rand_vec(16, &mut rng));
    let (s, t) = (Fr::random(&mut rng), Fr::random(&mut rng));
    let encode = |msg: &Vec<Fr>| {
        let mut target = msg.clone();
        target.resize(code.codeword_len(), Fr::zero());
        code.encode(&mut target);
        target
    };
    let combined: Vec<Fr> = a.iter().zip(&b).map(|(x, y)| s.mul(*x).add(t.mul(*y))).collect();
    let (ca, cb, cc) = (encode(&a), encode(&b), encode(&combined));
    for i in 0..code.codeword_len() {
        assert_eq!(cc[i], s.mul(ca[i]).add(t.mul(cb[i])));
    }
}

#[test]
fn codes_look_back_only() {
    let one = Fr::one();
    assert!(BrakedownCode::new(0, 1, vec![vec![(0, one)]]).is_none());
    assert!(BrakedownCode::new(2, 1, vec![vec![(2, one)]]).is_none());
    assert!(BrakedownCode::new(2, 1, vec![vec![(1, one)], vec![(3, one)]]).is_none());
    assert!(BrakedownCode::new(2, 1, vec![vec![(1, one)], vec![(2, one)]]).is_some());
}

#[test]
fn setup_hands_on_where_the_code_stops() {
    let mut rng = seeded_std_rng();
    let small = setup(8, &mut rng);
    assert_eq!((small.num_vars, small.n_0), (8, 8));
    let large = setup(12, &mut rng);
    assert_eq!((large.num_vars, large.n_0), (12, 16));
    let (pp, vp) = TestPcs::trim(&large, 1 << 12, 1).unwrap();
    assert_eq!((pp.num_vars(), vp.num_vars()), (12, 12));
}

#[test]
fn trimming_cannot_enlarge() {
    let mut rng = seeded_std_rng();
    let param = setup(4, &mut rng);
    assert!(TestPcs::trim(&param, 1 << 4, 1).is_ok());
    let err = TestPcs::trim(&param, 1 << 5, 1).err();
    assert_eq!(
        err,
        Some(Error::InvalidPcsParam(
            "Requested 5 vars but param only supports 4".to_string()
        )),
    );
}

#[test]
fn polynomials_must_fill_whole_rows() {
    let mut rng = seeded_std_rng();
    let param = setup(8, &mut rng);
    let (pp, _) = TestPcs::trim(&param, 1 << 8, 1).unwrap();
    let poly = MultilinearPolynomial::new(rand_vec(8, &mut rng));
    let expected = Error::InvalidPcsParam(
        "Polynomial size 8 doesn't match code parameters (row_len=16, expected multiple)".to_string(),
    );
    assert_eq!(TestPcs::commit(&pp, &poly), Err(expected.clone()));
    assert_eq!(TestPcs::batch_commit(&pp, &[&poly]), Err(expected));
}

#[test]
fn commitments_know_the_size_of_the_matrix() {
    let mut rng = seeded_std_rng();
    let param = setup(5, &mut rng);
    let (pp, _) = TestPcs::trim(&param, 32, 1).unwrap();
    let polys: Vec<_> =
        (0..2).map(|_| MultilinearPolynomial::new(rand_vec(32, &mut rng))).collect();
    let comms = TestPcs::batch_commit(&pp, &[&polys[0], &polys[1]]).unwrap();
    assert_eq!(comms.len(), 2);
    assert_eq!(comms[0], TestPcs::commit(&pp, &polys[0]).unwrap());
    assert_eq!((comms[0].num_rows, comms[0].num_cols), (8, 9));
    assert_ne!(comms[0].root, comms[1].root);
    assert_eq!(comms[0].as_ref().to_vec(), vec![comms[0].root.0]);
    assert_eq!(TestPcs::default_commitment(), BrakedownCommitment::default());
    assert_eq!(BrakedownCommitment::default().root.0, [0u8; 32]);
}

#[test]
fn a_wrong_value_is_named() {
    let mut rng = seeded_std_rng();
    let param = setup(6, &mut rng);
    let (pp, vp) = TestPcs::trim(&param, 64, 1).unwrap();
    let poly = MultilinearPolynomial::new(rand_vec(64, &mut rng));
    let comm = TestPcs::commit(&pp, &poly).unwrap();
    let point = rand_vec(6, &mut rng);
    let eval = poly.evaluate(&point);
    let wrong = eval.add(Fr::one());
    let proof = open(&pp, &poly, &comm, &point, &eval);
    assert_eq!(
        verify(&vp, &comm, &point, &wrong, &proof),
        Err(Error::InvalidPcsOpen(format!(
            "Evaluation mismatch: expected {}, got {}",
            wrong.debug_string(),
            eval.debug_string(),
        ))),
    );
}

#[test]
fn the_column_tensor_is_the_points() {
    let mut rng = seeded_std_rng();
    let param = setup(6, &mut rng);
    let (pp, vp) = TestPcs::trim(&param, 64, 1).unwrap();
    let poly = MultilinearPolynomial::new(rand_vec(64, &mut rng));
    let comm = TestPcs::commit(&pp, &poly).unwrap();
    let point = rand_vec(6, &mut rng);
    let eval = poly.evaluate(&point);
    let mut proof = open(&pp, &poly, &comm, &point, &eval);
    // Any value could be had from another tensor.
    let entry = proof.len() - 32;
    let wrong = eval.add(Fr::one());
    for value in [eval, wrong] {
        proof[entry..].copy_from_slice(&Fr::from_u64(3).to_repr());
        assert_eq!(
            verify(&vp, &comm, &point, &value, &proof),
            Err(Error::InvalidPcsOpen("Column tensor check failed".to_string())),
        );
    }
}

#[test]
fn one_symbol_opens_to_one_value() {
    let code = BrakedownCode::new(1, 1, Vec::new()).unwrap();
    let param = TestPcs::setup(1, 1, |_, _| code).unwrap();
    let (pp, vp) = TestPcs::trim(&param, 1, 1).unwrap();
    let comm = TestPcs::commit(&pp, &MultilinearPolynomial::new(vec![Fr::one()])).unwrap();
    let bytes = |values: [u64; 3]| -> Vec<u8> {
        values.iter().flat_map(|v| Fr::from_u64(*v).to_repr()).collect()
    };
    assert_eq!(verify(&vp, &comm, &Vec::new(), &Fr::one(), &bytes([1, 1, 1])), Ok(()));
    assert_eq!(
        verify(&vp, &comm, &Vec::new(), &Fr::from_u64(2), &bytes([1, 1, 2])),
        Err(Error::InvalidPcsOpen("Column tensor check failed".to_string())),
    );
}

#[test]
fn another_polynomial_has_other_paths() {
    let mut rng = seeded_std_rng();
    let param = setup(6, &mut rng);
    let (pp, vp) = TestPcs::trim(&param, 64, 1).unwrap();
    let poly = MultilinearPolynomial::new(rand_vec(64, &mut rng));
    let other = MultilinearPolynomial::new(rand_vec(64, &mut rng));
    let comm = TestPcs::commit(&pp, &poly).unwrap();
    let point = rand_vec(6, &mut rng);
    let eval = other.evaluate(&point);
    let proof = open(&pp, &other, &comm, &point, &eval);
    assert_eq!(
        verify(&vp, &comm, &point, &eval, &proof),
        Err(Error::InvalidPcsOpen("Merkle path verification failed".to_string())),
    );
}

#[test]
fn the_combined_row_must_match_the_columns() {
    let mut rng = seeded_std_rng();
    // All columns are opened, so that every entry of the row is compared.
    let param = TestPcs::setup(64, 1, |_, _| {
        BrakedownCode::new(8, 100, vec![vec![(0, Fr::one())]]).unwrap()
    })
    .unwrap();
    let (pp, vp) = TestPcs::trim(&param, 64, 1).unwrap();
    let poly = MultilinearPolynomial::new(rand_vec(64, &mut rng));
    let comm = TestPcs::commit(&pp, &poly).unwrap();
    let point = rand_vec(6, &mut rng);
    let eval = poly.evaluate(&point);
    let mut proof = open(&pp, &poly, &comm, &point, &eval);
    proof[0] ^= 1;
    assert_eq!(
        verify(&vp, &comm, &point, &eval, &proof),
        Err(Error::InvalidPcsOpen("Column consistency check failed".to_string())),
    );
}

#[test]
fn points_must_select_columns() {
    let mut rng = seeded_std_rng();
    let param = setup(6, &mut rng);
    let (pp, vp) = TestPcs::trim(&param, 64, 1).unwrap();
    let poly = MultilinearPolynomial::new(rand_vec(64, &mut rng));
    let comm = TestPcs::commit(&pp, &poly).unwrap();
    let point = rand_vec(6, &mut rng);
    let eval = poly.evaluate(&point);
    let proof = open(&pp, &poly, &comm, &point, &eval);
    let short = point[..5].to_vec();
    assert_eq!(
        verify(&vp, &comm, &short, &eval, &proof),
        Err(Error::InvalidPcsOpen("col_tensor length 4 != row_len 8 (num_col_vars=2)".to_string())),
    );
}

fn claims(polys: &[MultilinearPolynomial<Fr>], point: &[Fr]) -> Vec<Evaluation<Fr>> {
    polys.iter().enumerate().map(|(i, p)| Evaluation::new(i, 0, p.evaluate(point))).collect()
}

#[test]
fn several_polynomials_open_together() {
    let mut rng = seeded_std_rng();
    let param = setup(6, &mut rng);
    let (pp, vp) = TestPcs::trim(&param, 64, 1).unwrap();
    let polys: Vec<_> =
        (0..3).map(|_| MultilinearPolynomial::new(rand_vec(64, &mut rng))).collect();
    for count in 1..4 {
        let refs: Vec<_> = polys[..count].iter().collect();
        let comms = TestPcs::batch_commit(&pp, &refs).unwrap();
        let comm_refs: Vec<_> = comms.iter().collect();
        let points = vec![rand_vec(6, &mut rng)];
        let evals = claims(&polys[..count], &points[0]);
        let mut transcript = Transcript::new(());
        TestPcs::batch_open(&pp, &refs, &comm_refs, &points, &evals, &mut transcript).unwrap();
        let proof = transcript.into_proof();
        let mut transcript = Transcript::from_proof((), &proof);
        assert_eq!(TestPcs::batch_verify(&vp, &comm_refs, &points, &evals, &mut transcript), Ok(()));
        let mut wrong = evals.clone();
        wrong[count - 1].value = wrong[count - 1].value.add(Fr::one());
        let mut transcript = Transcript::from_proof((), &proof);
        let refused = TestPcs::batch_verify(&vp, &comm_refs, &points, &wrong, &mut transcript);
        let text = match refused {
            Err(Error::InvalidPcsOpen(text)) => text,
            other => panic!("{:?}", other),
        };
        let head = if count == 1 { "Evaluation mismatch" } else { "Batch evaluation mismatch" };
        assert!(text.starts_with(head), "{}", text);
        let mut tampered = proof.clone();
        tampered[proof.len() - 32..].copy_from_slice(&Fr::from_u64(3).to_repr());
        let mut transcript = Transcript::from_proof((), &tampered);
        let refused = TestPcs::batch_verify(&vp, &comm_refs, &points, &evals, &mut transcript);
        let text = if count == 1 {
            "Column tensor check failed"
        } else {
            "Batch column tensor check failed"
        };
        assert_eq!(refused, Err(Error::InvalidPcsOpen(text.to_string())));
    }
}

#[test]
fn rotated_polynomials_are_not_opened_directly() {
    let mut rng = seeded_std_rng();
    let param = setup(4, &mut rng);
    let (pp, vp) = TestPcs::trim(&param, 16, 1).unwrap();
    let poly = MultilinearPolynomial::new(rand_vec(16, &mut rng));
    let comm = TestPcs::commit(&pp, &poly).unwrap();
    let point = rand_vec(4, &mut rng);
    let eval = poly.evaluate(&point);
    let expected = Err(Error::NotImplemented(
        "Brakedown opens shifts through the shift-open protocol".to_string(),
    ));
    let mut transcript = Transcript::new(());
    assert_eq!(
        TestPcs::open_shift(&pp, &poly, &comm, &point, &eval, &Rotation(1), &mut transcript),
        expected,
    );
    assert_eq!(
        TestPcs::verify_shifted_evaluation(&vp, &comm, &point, &eval, &Rotation(1), &mut transcript),
        expected,
    );
}

#[test]
fn commitments_are_read_by_their_roots() {
    let mut rng = seeded_std_rng();
    let param = setup(4, &mut rng);
    let (_, vp) = TestPcs::trim(&param, 16, 1).unwrap();
    let bytes: Vec<u8> = (0..64).collect();
    let mut transcript = Transcript::from_proof((), &bytes);
    let comms = TestPcs::read_commitments(&vp, 2, &mut transcript).unwrap();
    assert_eq!(comms[0].root.0.to_vec(), bytes[..32].to_vec());
    assert_eq!(comms[1].root.0.to_vec(), bytes[32..].to_vec());
    let mut transcript = Transcript::from_proof((), &bytes);
    assert_eq!(
        TestPcs::read_commitments(&vp, 3, &mut transcript).err(),
        Some(Error::Transcript(
            std::io::ErrorKind::UnexpectedEof,
            "Proof is too short".to_string(),
        )),
    );
}

#[test]
fn brakedown_commitments_do_not_combine() {
    let comm = BrakedownCommitment { root: MerkleNode([1; 32]), num_rows: 2, num_cols: 3 };
    let combined = BrakedownCommitment::msm(&[Fr::from_u64(5)], &[&comm]);
    assert_eq!(combined, BrakedownCommitment::default());
}

#[test]
fn columns_are_drawn_once_each_in_order() {
    let mut transcript = Transcript::new(());
    transcript.common_field_element(&Fr::from_u64(3)).unwrap();
    let columns = get_column_indices::<[u8; 32], Fr, Transcript>(&mut transcript, 50, 20);
    assert_eq!(columns.len(), 20);
    assert!(columns.windows(2).all(|w| w[0] < w[1]));
    assert!(columns.iter().all(|c| *c < 50));
    let mut transcript = Transcript::new(());
    let all = get_column_indices::<[u8; 32], Fr, Transcript>(&mut transcript, 7, 20);
    assert_eq!(all, (0..7).collect::<Vec<usize>>());
}

#[test]
fn columns_come_from_the_low_bytes_of_challenges() {
    let mut transcript = Transcript::new(());
    let first: Vec<Fr> = squeeze_challenges(&mut transcript, 1);
    let mut low = [0u8; 8];
    low.copy_from_slice(&first[0].to_repr()[..8]);
    let expected = (u64::from_le_bytes(low) % 1000) as usize;
    let mut transcript = Transcript::new(());
    let columns = get_column_indices::<[u8; 32], Fr, Transcript>(&mut transcript, 1000, 1);
    assert_eq!(columns, vec![expected]);
}

#[test]
fn no_more_challenges_are_drawn_than_needed() {
    for (num_cols, num_openings) in [(50, 20), (7, 20), (9, 9), (1, 3), (4, 0), (0, 5)] {
        let mut transcript = Transcript::new(());
        let columns =
            get_column_indices::<[u8; 32], Fr, Transcript>(&mut transcript, num_cols, num_openings);
        let next = transcript.squeeze_challenge();
        let mut plain = Transcript::new(());
        let mut found = std::collections::BTreeSet::new();
        while found.len() < num_openings.min(num_cols) {
            let mut low = [0u8; 8];
            low.copy_from_slice(&plain.squeeze_challenge().to_repr()[..8]);
            found.insert((u64::from_le_bytes(low) % num_cols as u64) as usize);
        }
        assert_eq!(columns, found.into_iter().collect::<Vec<usize>>());
        assert_eq!(next, plain.squeeze_challenge());
    }
}
