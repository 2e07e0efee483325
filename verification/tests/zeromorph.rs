//! The shift-open protocol over Zeromorph, a commitment scheme for multilinear polynomials
//! on top of univariate KZG commitments.

use halo2curves::bn256::{pairing, Fr as Scalar, G1Affine, G1, G2Affine, G2};
use halo2curves::ff::Field;
use halo2curves::group::{Curve, Group, GroupEncoding};
use halo2curves::msm::best_multiexp;
use plonkish_backend::backend::hyperplonk::util::{
    brute_force_shifted_eval, prove_shift_claim, shift_open_base_circuit, verify_shift_claim,
    ShiftOpenClaim,
};
use plonkish_backend::backend::PlonkishCircuit;
use plonkish_backend::pcs::multilinear::quotients;
use plonkish_backend::pcs::{Evaluation, PolynomialCommitmentScheme};
use plonkish_backend::piop::shift_open::{
    compute_weight_at_point, compute_weight_evals, eq_eval_bool_field, idx_to_bits,
    prove_shift_open, verify_shift_open,
};
use plonkish_backend::poly::multilinear::MultilinearPolynomial;
use plonkish_backend::util::bn256::Fr;
use plonkish_backend::util::expression::{Lexical, Rotation};
use plonkish_backend::util::field::PrimeField;
use plonkish_backend::util::transcript::{
    squeeze_challenges, Keccak256Transcript, Transcript as Absorb, TranscriptRead, TranscriptWrite,
};
use plonkish_backend::Error;
use rand::rngs::StdRng;
use rand::{Rng, SeedableRng};

type Transcript = Keccak256Transcript<Fr>;
type Pcs = Zeromorph;

struct Zeromorph;

#[derive(Clone)]
struct KzgParam {
    powers: Vec<G1Affine>,
    g2: G2Affine,
    s_g2: G2Affine,
}

#[derive(Clone, Copy)]
struct KzgCommitment {
    point: G1Affine,
    bytes: [[u8; 32]; 1],
}

fn scalar(x: Fr) -> Scalar {
    Scalar::from_bytes(&x.to_repr()).unwrap()
}

fn scalars(xs: &[Fr]) -> Vec<Scalar> {
    xs.iter().map(|x| scalar(*x)).collect()
}

fn commitment(point: G1) -> KzgCommitment {
    let point = point.to_affine();
    let mut bytes = [0u8; 32];
    bytes.copy_from_slice(point.to_bytes().as_ref());
    KzgCommitment { point, bytes: [bytes] }
}

fn commit_coefficients(param: &KzgParam, coefficients: &[Scalar]) -> KzgCommitment {
    commitment(best_multiexp(coefficients, &param.powers[..coefficients.len()]))
}

fn parse(bytes: [u8; 32]) -> Result<G1Affine, Error> {
    let mut repr = <G1Affine as GroupEncoding>::Repr::default();
    repr.as_mut().copy_from_slice(&bytes);
    let point: Option<G1Affine> = G1Affine::from_bytes(&repr).into();
    point.ok_or(Error::InvalidPcsOpen("Not a point".to_string()))
}

/// The factors of the claimed value and of the quotients.
fn eval_and_quotient_scalars(y: Scalar, x: Scalar, z: Scalar, u: &[Scalar]) -> (Scalar, Vec<Scalar>) {
    let n = u.len();
    let mut squares = vec![x];
    for i in 0..n {
        squares.push(squares[i].square());
    }
    let top = squares[n] - Scalar::ONE;
    let vs: Vec<Scalar> =
        squares.iter().map(|s| top * (*s - Scalar::ONE).invert().unwrap()).collect();
    let mut offsets = vec![Scalar::ONE; n];
    let mut state = Scalar::ONE;
    for i in (0..n).rev() {
        state *= squares[i];
        offsets[i] = state;
    }
    let mut power = Scalar::ONE;
    let mut qs = Vec::new();
    for i in 0..n {
        qs.push(-(power * offsets[i] + z * (squares[i] * vs[i + 1] - u[i] * vs[i])));
        power *= y;
    }
    (-vs[0] * z, qs)
}

fn setup(size: usize, rng: &mut StdRng) -> KzgParam {
    let s = Scalar::random(rng);
    let mut power = Scalar::ONE;
    let mut powers = Vec::new();
    for _ in 0..size {
        powers.push((G1::generator() * power).to_affine());
        power *= s;
    }
    KzgParam {
        powers,
        g2: G2::generator().to_affine(),
        s_g2: (G2::generator() * s).to_affine(),
    }
}

impl PolynomialCommitmentScheme<Fr> for Zeromorph {
    type Param = KzgParam;
    type ProverParam = KzgParam;
    type VerifierParam = KzgParam;
    type Commitment = KzgCommitment;
    type CommitmentChunk = [u8; 32];

    fn default_commitment() -> KzgCommitment {
        commitment(G1::identity())
    }

    fn chunks(comm: &KzgCommitment) -> &[[u8; 32]] {
        &comm.bytes
    }

    fn trim(param: &KzgParam, _poly_size: usize, _batch_size: usize) -> Result<(KzgParam, KzgParam), Error> {
        Ok((param.clone(), param.clone()))
    }

    fn commit(pp: &KzgParam, poly: &MultilinearPolynomial<Fr>) -> Result<KzgCommitment, Error> {
        Ok(commit_coefficients(pp, &scalars(poly.evals())))
    }

    fn batch_commit(pp: &KzgParam, polys: &[&MultilinearPolynomial<Fr>]) -> Result<Vec<KzgCommitment>, Error> {
        polys.iter().map(|poly| Self::commit(pp, poly)).collect()
    }

    fn open<T: TranscriptWrite<[u8; 32], Fr>>(
        pp: &KzgParam,
        poly: &MultilinearPolynomial<Fr>,
        _comm: &KzgCommitment,
        point: &Vec<Fr>,
        eval: &Fr,
        transcript: &mut T,
    ) -> Result<(), Error> {
        let n = point.len();
        let size = 1usize << n;
        let (qs, remainder) = quotients(poly, point, |_: usize, q: Vec<Fr>| scalars(&q));
        assert_eq!(remainder, *eval);
        for q in &qs {
            transcript.write_commitment(&commit_coefficients(pp, q).bytes[0])?;
        }
        let y = scalar(transcript.squeeze_challenge());
        let mut q_hat = vec![Scalar::ZERO; size];
        let mut power = Scalar::ONE;
        for (i, q) in qs.iter().enumerate() {
            let offset = size - (1 << i);
            for (j, c) in q.iter().enumerate() {
                q_hat[offset + j] += power * c;
            }
            power *= y;
        }
        transcript.write_commitment(&commit_coefficients(pp, &q_hat).bytes[0])?;
        let x = scalar(transcript.squeeze_challenge());
        let z = scalar(transcript.squeeze_challenge());
        let (eval_scalar, q_scalars) = eval_and_quotient_scalars(y, x, z, &scalars(point));
        let mut f: Vec<Scalar> = scalars(poly.evals()).iter().map(|c| *c * z).collect();
        for (a, b) in f.iter_mut().zip(&q_hat) {
            *a += b;
        }
        f[0] += eval_scalar * scalar(*eval);
        for (q, s) in qs.iter().zip(&q_scalars) {
            for (a, c) in f.iter_mut().zip(q) {
                *a += *s * c;
            }
        }
        let mut quotient = vec![Scalar::ZERO; size];
        let mut carry = Scalar::ZERO;
        for i in (0..size).rev() {
            let current = f[i] + carry * x;
            if i > 0 {
                quotient[i - 1] = current;
            } else {
                assert_eq!(current, Scalar::ZERO);
            }
            carry = current;
        }
        transcript.write_commitment(&commit_coefficients(pp, &quotient).bytes[0])
    }

    fn batch_open<T: TranscriptWrite<[u8; 32], Fr>>(
        _pp: &KzgParam,
        _polys: &[&MultilinearPolynomial<Fr>],
        _comms: &[&KzgCommitment],
        _points: &[Vec<Fr>],
        _evals: &[Evaluation<Fr>],
        _transcript: &mut T,
    ) -> Result<(), Error> {
        Err(Error::NotImplemented("batch_open".to_string()))
    }

    fn read_commitments<T: TranscriptRead<[u8; 32], Fr>>(
        _vp: &KzgParam,
        num_polys: usize,
        transcript: &mut T,
    ) -> Result<Vec<KzgCommitment>, Error> {
        let mut comms = Vec::new();
        for _ in 0..num_polys {
            comms.push(commitment(parse(transcript.read_commitment()?)?.into()));
        }
        Ok(comms)
    }

    fn verify<T: TranscriptRead<[u8; 32], Fr>>(
        vp: &KzgParam,
        comm: &KzgCommitment,
        point: &Vec<Fr>,
        eval: &Fr,
        transcript: &mut T,
    ) -> Result<(), Error> {
        let n = point.len();
        let mut q_comms = Vec::new();
        for _ in 0..n {
            q_comms.push(parse(transcript.read_commitment()?)?);
        }
        let y = scalar(transcript.squeeze_challenge());
        let q_hat = parse(transcript.read_commitment()?)?;
        let x = scalar(transcript.squeeze_challenge());
        let z = scalar(transcript.squeeze_challenge());
        let (eval_scalar, q_scalars) = eval_and_quotient_scalars(y, x, z, &scalars(point));
        let pi = parse(transcript.read_commitment()?)?;
        let mut c = G1::from(q_hat)
            + G1::from(comm.point) * z
            + G1::generator() * (eval_scalar * scalar(*eval));
        for (q, s) in q_comms.iter().zip(&q_scalars) {
            c += G1::from(*q) * *s;
        }
        let right = G2::from(vp.s_g2) - G2::from(vp.g2) * x;
        if pairing(&c.to_affine(), &vp.g2) == pairing(&pi, &right.to_affine()) {
            Ok(())
        } else {
            Err(Error::InvalidPcsOpen("Pairing mismatch".to_string()))
        }
    }

    fn batch_verify<T: TranscriptRead<[u8; 32], Fr>>(
        _vp: &KzgParam,
        _comms: &[&KzgCommitment],
        _points: &[Vec<Fr>],
        _evals: &[Evaluation<Fr>],
        _transcript: &mut T,
    ) -> Result<(), Error> {
        Err(Error::NotImplemented("batch_verify".to_string()))
    }

    fn open_shift<T: TranscriptWrite<[u8; 32], Fr>>(
        _pp: &KzgParam,
        _poly: &MultilinearPolynomial<Fr>,
        _comm: &KzgCommitment,
        _point: &Vec<Fr>,
        _eval: &Fr,
        _rotation: &Rotation,
        _transcript: &mut T,
    ) -> Result<(), Error> {
        Err(Error::NotImplemented("open_shift".to_string()))
    }

    fn verify_shifted_evaluation<T: TranscriptRead<[u8; 32], Fr>>(
        _vp: &KzgParam,
        _comm: &KzgCommitment,
        _point: &Vec<Fr>,
        _eval: &Fr,
        _rotation: &Rotation,
        _transcript: &mut T,
    ) -> Result<(), Error> {
        Err(Error::NotImplemented("verify_shifted_evaluation".to_string()))
    }
}

fn seeded_std_rng() -> StdRng {
    StdRng::seed_from_u64(0)
}

fn rand_vec(n: usize, rng: &mut StdRng) -> Vec<Fr> {
    (0..n).map(|_| Fr::random(rng)).collect()
}

/// The point that a proof for the shift by `k` draws at its start.
fn drawn_point(k: usize, num_vars: usize) -> Vec<Fr> {
    let mut transcript = Transcript::new(());
    transcript.common_field_element(&Fr::from_u64(k as u64)).unwrap();
    transcript.common_field_element(&Fr::from_u64(num_vars as u64)).unwrap();
    squeeze_challenges(&mut transcript, num_vars)
}

/// The value at `r` of the extension of `x -> f((x + k) mod 2^n)`.
fn shifted_value(poly: &MultilinearPolynomial<Fr>, k: usize, r: &[Fr]) -> Fr {
    let n = 1usize << poly.num_vars();
    let shifted: Vec<Fr> = (0..n).map(|x| poly.evals()[(x + (k % n)) % n]).collect();
    MultilinearPolynomial::new(shifted).evaluate(r)
}

fn prove(pp: &KzgParam, poly: &MultilinearPolynomial<Fr>, comm: &KzgCommitment, k: usize) -> Vec<u8> {
    let mut transcript = Transcript::new(());
    prove_shift_open::<Fr, Pcs, Transcript>(pp, poly, comm, k, &mut transcript).unwrap();
    transcript.into_proof()
}

fn verify(vp: &KzgParam, comm: &KzgCommitment, k: usize, num_vars: usize, proof: &[u8]) -> Result<(Fr, Fr), Error> {
    let mut transcript = Transcript::from_proof((), proof);
    verify_shift_open::<Fr, Pcs, Transcript>(vp, comm, k, num_vars, &mut transcript)
}

fn prove_claim(pp: &KzgParam, poly: &MultilinearPolynomial<Fr>, comm: &KzgCommitment, k: usize) -> Vec<u8> {
    let mut transcript = Transcript::new(());
    prove_shift_claim::<Fr, Pcs, Transcript>(pp, poly, comm, k, &mut transcript).unwrap();
    transcript.into_proof()
}

fn verify_claim(vp: &KzgParam, comm: &KzgCommitment, k: usize, num_vars: usize, proof: &[u8]) -> Result<(Fr, Fr), Error> {
    let mut transcript = Transcript::from_proof((), proof);
    verify_shift_claim::<Fr, Pcs, Transcript>(vp, comm, k, num_vars, &mut transcript)
}

#[test]
fn test_shift_open_basic() {
    let mut rng = seeded_std_rng();
    for num_vars in 2..8 {
        let n = 1usize << num_vars;
        let param = setup(n, &mut rng);
        let (pp, vp) = Pcs::trim(&param, n, 1).unwrap();
        let poly = MultilinearPolynomial::new(rand_vec(n, &mut rng));
        let comm = Pcs::commit(&pp, &poly).unwrap();
        let k: usize = rng.gen_range(0..n);
        let proof = prove(&pp, &poly, &comm, k);
        let result = verify(&vp, &comm, k, num_vars, &proof);
        assert!(result.is_ok(), "Verification failed for num_vars={num_vars}, k={k}");
        let (y, y_prime) = result.unwrap();
        let r = drawn_point(k, num_vars);
        assert_eq!(y, poly.evaluate(&r), "y != F(r)");
        assert_eq!(y_prime, shifted_value(&poly, k, &r), "y' != brute-force G(r)");
    }
}

#[test]
fn test_shift_open_k_zero() {
    let mut rng = seeded_std_rng();
    let num_vars = 4;
    let n = 1usize << num_vars;
    let param = setup(n, &mut rng);
    let (pp, vp) = Pcs::trim(&param, n, 1).unwrap();
    let poly = MultilinearPolynomial::new(rand_vec(n, &mut rng));
    let comm = Pcs::commit(&pp, &poly).unwrap();
    let k = 0;
    let proof = prove(&pp, &poly, &comm, k);
    let (y, y_prime) = verify(&vp, &comm, k, num_vars, &proof).unwrap();
    assert_eq!(y, y_prime, "When k=0, y should equal y'");
}

#[test]
fn test_shift_open_full_rotation() {
    let mut rng = seeded_std_rng();
    let num_vars = 4;
    let n = 1usize << num_vars;
    let param = setup(n, &mut rng);
    let (pp, vp) = Pcs::trim(&param, n, 1).unwrap();
    let poly = MultilinearPolynomial::new(rand_vec(n, &mut rng));
    let comm = Pcs::commit(&pp, &poly).unwrap();
    let k = n;
    let proof = prove(&pp, &poly, &comm, k);
    let (y, y_prime) = verify(&vp, &comm, k, num_vars, &proof).unwrap();
    assert_eq!(y, y_prime, "When k=n, y should equal y'");
}

#[test]
fn test_shift_open_tampered_y_prime_fails() {
    let mut rng = seeded_std_rng();
    let num_vars = 4;
    let n = 1usize << num_vars;
    let param = setup(n, &mut rng);
    let (pp, vp) = Pcs::trim(&param, n, 1).unwrap();
    let poly = MultilinearPolynomial::new(rand_vec(n, &mut rng));
    let comm = Pcs::commit(&pp, &poly).unwrap();
    let k: usize = rng.gen_range(1..n);
    let mut proof = prove(&pp, &poly, &comm, k);
    let field_elem_size = 32;
    let y_prime_offset = field_elem_size;
    if proof.len() > y_prime_offset + field_elem_size {
        proof[y_prime_offset] ^= 0xFF;
    }
    let result = verify(&vp, &comm, k, num_vars, &proof);
    assert!(result.is_err(), "Verification should fail with tampered y'");
}

#[test]
fn test_shift_open_wrong_k_fails() {
    let mut rng = seeded_std_rng();
    let num_vars = 4;
    let n = 1usize << num_vars;
    let param = setup(n, &mut rng);
    let (pp, vp) = Pcs::trim(&param, n, 1).unwrap();
    let poly = MultilinearPolynomial::new(rand_vec(n, &mut rng));
    let comm = Pcs::commit(&pp, &poly).unwrap();
    let k: usize = rng.gen_range(1..n / 2);
    let wrong_k = k + 1;
    let proof = prove(&pp, &poly, &comm, k);
    let result = verify(&vp, &comm, wrong_k, num_vars, &proof);
    assert!(result.is_err(), "Verification should fail with wrong k");
}

#[test]
fn test_helper_functions() {
    assert_eq!(idx_to_bits(0, 3), vec![false, false, false]);
    assert_eq!(idx_to_bits(1, 3), vec![true, false, false]);
    assert_eq!(idx_to_bits(5, 3), vec![true, false, true]);
    assert_eq!(idx_to_bits(7, 3), vec![true, true, true]);
    let one = Fr::one();
    let zero = Fr::zero();
    assert_eq!(eq_eval_bool_field(&[false, false], &[zero, zero]), Fr::one());
    assert_eq!(eq_eval_bool_field(&[true, true], &[one, one]), Fr::one());
    assert_eq!(eq_eval_bool_field(&[false, true], &[one, zero]), Fr::zero());
}

#[test]
fn test_weight_computation() {
    let num_vars = 3;
    let n = 1usize << num_vars;
    let mut rng = seeded_std_rng();
    let r: Vec<Fr> = rand_vec(num_vars, &mut rng);
    let k = 2;
    let u = vec![Fr::zero(), Fr::one(), Fr::zero()];
    let w_u = compute_weight_at_point(num_vars, k, &r, &u);
    let u_idx = 2;
    let shifted_idx = (u_idx + n - k) % n;
    let expected = eq_eval_bool_field(&idx_to_bits(shifted_idx, num_vars), &r);
    assert_eq!(w_u, expected, "Weight at boolean point mismatch");
}

#[test]
fn test_shift_open_gadget_e2e() {
    let mut rng = seeded_std_rng();
    for num_vars in 3..7 {
        let n = 1usize << num_vars;
        let k: usize = rng.gen_range(1..n);
        println!("Testing shift_open gadget: num_vars={}, k={}", num_vars, k);
        let param = setup(n, &mut rng);
        let (pp, vp) = Pcs::trim(&param, n, 1).unwrap();
        let poly = MultilinearPolynomial::new(rand_vec(n, &mut rng));
        let comm = Pcs::commit(&pp, &poly).unwrap();
        let proof = prove_claim(&pp, &poly, &comm, k);
        let result = verify_claim(&vp, &comm, k, num_vars, &proof);
        assert!(result.is_ok(), "Verification failed for num_vars={}, k={}", num_vars, k);
        let (y, y_prime) = result.unwrap();
        let r = drawn_point(k, num_vars);
        let expected_y = poly.evaluate(&r);
        let expected_y_prime = brute_force_shifted_eval(&poly, k, &r);
        assert_eq!(y, expected_y, "y mismatch");
        assert_eq!(y_prime, expected_y_prime, "y' mismatch with brute force");
        println!("  ✓ Passed: y={:?}, y'={:?}", y, y_prime);
    }
}

#[test]
fn test_shift_open_gadget_k_zero() {
    let mut rng = seeded_std_rng();
    let num_vars = 4;
    let n = 1usize << num_vars;
    let k = 0;
    let param = setup(n, &mut rng);
    let (pp, vp) = Pcs::trim(&param, n, 1).unwrap();
    let poly = MultilinearPolynomial::new(rand_vec(n, &mut rng));
    let comm = Pcs::commit(&pp, &poly).unwrap();
    let proof = prove_claim(&pp, &poly, &comm, k);
    let (y, y_prime) = verify_claim(&vp, &comm, k, num_vars, &proof).unwrap();
    assert_eq!(y, y_prime, "When k=0, y should equal y'");
}

#[test]
fn test_shift_open_gadget_full_rotation() {
    let mut rng = seeded_std_rng();
    let num_vars = 4;
    let n = 1usize << num_vars;
    let k = n;
    let param = setup(n, &mut rng);
    let (pp, vp) = Pcs::trim(&param, n, 1).unwrap();
    let poly = MultilinearPolynomial::new(rand_vec(n, &mut rng));
    let comm = Pcs::commit(&pp, &poly).unwrap();
    let proof = prove_claim(&pp, &poly, &comm, k);
    let (y, y_prime) = verify_claim(&vp, &comm, k, num_vars, &proof).unwrap();
    assert_eq!(y, y_prime, "When k=n, y should equal y'");
}

#[test]
fn test_shift_open_gadget_wrong_k_fails() {
    let mut rng = seeded_std_rng();
    let num_vars = 4;
    let n = 1usize << num_vars;
    let k: usize = rng.gen_range(1..n / 2);
    let wrong_k = k + 1;
    let param = setup(n, &mut rng);
    let (pp, vp) = Pcs::trim(&param, n, 1).unwrap();
    let poly = MultilinearPolynomial::new(rand_vec(n, &mut rng));
    let comm = Pcs::commit(&pp, &poly).unwrap();
    let proof = prove_claim(&pp, &poly, &comm, k);
    let result = verify_claim(&vp, &comm, wrong_k, num_vars, &proof);
    assert!(result.is_err(), "Verification should fail with wrong k");
}

#[test]
fn test_shift_open_base_circuit() {
    let num_vars = 4;
    let k = 3;
    let (circuit_info, circuit, poly) = shift_open_base_circuit::<Fr, Lexical>(
        num_vars,
        k,
        &mut seeded_std_rng(),
        &mut seeded_std_rng(),
    );
    assert!(circuit_info.is_well_formed());
    assert_eq!(circuit.instances()[0][0], Fr::from_u64(k as u64));
    assert_eq!(poly.num_vars(), num_vars);
}

#[test]
fn test_full_integration() {
    let mut rng = seeded_std_rng();
    let num_vars = 4;
    let n = 1usize << num_vars;
    let k: usize = rng.gen_range(1..n);
    let (_circuit_info, circuit, poly) = shift_open_base_circuit::<Fr, Lexical>(
        num_vars,
        k,
        &mut seeded_std_rng(),
        &mut seeded_std_rng(),
    );
    let k_from_instance = circuit.instances()[0][0];
    assert_eq!(k_from_instance, Fr::from_u64(k as u64));
    let param = setup(n, &mut rng);
    let (pp, vp) = Pcs::trim(&param, n, 1).unwrap();
    let comm = Pcs::commit(&pp, &poly).unwrap();
    let proof = prove_claim(&pp, &poly, &comm, k);
    let result = verify_claim(&vp, &comm, k, num_vars, &proof);
    assert!(result.is_ok(), "Full integration test failed");
    let (y, y_prime) = result.unwrap();
    let expected_y_prime = brute_force_shifted_eval(&poly, k, &drawn_point(k, num_vars));
    let expected_y = poly.evaluate(&drawn_point(k, num_vars));
    assert_eq!(y, expected_y, "Integration test: y mismatch");
    assert_eq!(y_prime, expected_y_prime, "Integration test: y' mismatch");
    println!("Integration test passed: k={}, y={:?}, y'={:?}", k, y, y_prime);
}

#[test]
fn test_shift_open_with_zeromorph() {
    let mut rng = seeded_std_rng();
    let num_vars = 5;
    let n = 1usize << num_vars;
    let k = 3;
    let param = setup(n, &mut rng);
    let (pp, vp) = Pcs::trim(&param, n, 1).unwrap();
    let poly = MultilinearPolynomial::new(rand_vec(n, &mut rng));
    let comm = Pcs::commit(&pp, &poly).unwrap();
    let proof = prove(&pp, &poly, &comm, k);
    let result = verify(&vp, &comm, k, num_vars, &proof);
    assert!(result.is_ok(), "shift_open should work with any PCS");
}

#[test]
fn test_shift_open_timing() {
    let num_vars = 10;
    let n = 1usize << num_vars;
    let k = 8;
    let mut rng = seeded_std_rng();
    let param = setup(n, &mut rng);
    let (pp, vp) = Pcs::trim(&param, n, 1).unwrap();
    let poly = MultilinearPolynomial::new(rand_vec(n, &mut rng));
    let comm = Pcs::commit(&pp, &poly).unwrap();
    let start = std::time::Instant::now();
    let proof = prove_claim(&pp, &poly, &comm, k);
    let prove_time = start.elapsed();
    let start = std::time::Instant::now();
    let result = verify_claim(&vp, &comm, k, num_vars, &proof);
    let verify_time = start.elapsed();
    assert!(result.is_ok());
    println!("\n[shift_open timing] num_vars={}, k={}", num_vars, k);
    println!("  Prove:  {:?}", prove_time);
    println!("  Verify: {:?}", verify_time);
    println!("  Proof size: {} bytes\n", proof.len());
}

#[test]
fn a_constant_cannot_be_shifted() {
    let mut rng = seeded_std_rng();
    let pp = setup(1, &mut rng);
    let poly = MultilinearPolynomial::new(vec![Fr::from_u64(7)]);
    let comm = Pcs::commit(&pp, &poly).unwrap();
    let mut transcript = Transcript::new(());
    let expected = Error::InvalidPcsParam("Polynomial must have at least 1 variable".to_string());
    assert_eq!(
        prove_shift_open::<Fr, Pcs, Transcript>(&pp, &poly, &comm, 1, &mut transcript),
        Err(expected.clone()),
    );
    assert_eq!(verify(&pp, &comm, 1, 0, &[]), Err(expected));
}

#[test]
fn a_shift_proof_that_ends_early_is_refused() {
    let mut rng = seeded_std_rng();
    let n = 8;
    let pp = setup(n, &mut rng);
    let poly = MultilinearPolynomial::new(rand_vec(n, &mut rng));
    let comm = Pcs::commit(&pp, &poly).unwrap();
    let proof = prove(&pp, &poly, &comm, 5);
    let cut = verify(&pp, &comm, 5, 3, &proof[..proof.len() - 1]);
    assert_eq!(
        cut,
        Err(Error::Transcript(
            std::io::ErrorKind::UnexpectedEof,
            "Proof is too short".to_string(),
        )),
    );
}

#[test]
fn a_wrong_weight_is_named() {
    let mut rng = seeded_std_rng();
    let n = 8;
    let pp = setup(n, &mut rng);
    let poly = MultilinearPolynomial::new(rand_vec(n, &mut rng));
    let comm = Pcs::commit(&pp, &poly).unwrap();
    let mut proof = prove(&pp, &poly, &comm, 5);
    // Two values, three rounds of three elements, then `F(u)` and `W(u)`.
    let f_u = (2 + 9) * 32;
    proof[f_u] ^= 1;
    assert_eq!(
        verify(&pp, &comm, 5, 3, &proof),
        Err(Error::InvalidSumcheck(
            "Final evaluation check failed: f(u) * w(u) != claimed".to_string(),
        )),
    );
}

#[test]
fn weights_move_against_the_shift() {
    let r = vec![Fr::from_u64(2), Fr::from_u64(5)];
    let straight = compute_weight_evals(2, 0, &r);
    let shifted = compute_weight_evals(2, 3, &r);
    for i in 0..4 {
        assert_eq!(shifted[i], straight[(i + 1) % 4]);
    }
    // (1 - 2) * (1 - 5), 2 * (1 - 5), (1 - 2) * 5, 2 * 5
    let zero = Fr::zero();
    assert_eq!(straight[0], Fr::from_u64(4));
    assert_eq!(straight[1], zero.sub(Fr::from_u64(8)));
    assert_eq!(straight[2], zero.sub(Fr::from_u64(5)));
    assert_eq!(straight[3], Fr::from_u64(10));
}

#[test]
fn claims_are_copied_whole() {
    let claim = ShiftOpenClaim {
        k: 3,
        poly: MultilinearPolynomial::new(vec![Fr::from_u64(1), Fr::from_u64(2)]),
        expected_y_prime: Some(Fr::from_u64(9)),
    };
    let copy = claim.clone();
    assert_eq!(copy.k, 3);
    assert_eq!(copy.poly.evals(), claim.poly.evals());
    assert_eq!(copy.expected_y_prime, Some(Fr::from_u64(9)));
}

#[test]
fn quotients_divide_the_polynomial() {
    // f = 1 + 2x + 4y + 8xy at (3, 5): f(x, 5) = 21 + 42x.
    let poly = MultilinearPolynomial::new(vec![
        Fr::from_u64(1),
        Fr::from_u64(3),
        Fr::from_u64(5),
        Fr::from_u64(15),
    ]);
    let point = vec![Fr::from_u64(3), Fr::from_u64(5)];
    let (qs, value) = quotients(&poly, &point, |i: usize, q: Vec<Fr>| (i, q));
    assert_eq!(value, Fr::from_u64(147));
    assert_eq!(qs[0], (0, vec![Fr::from_u64(42)]));
    assert_eq!(qs[1], (1, vec![Fr::from_u64(4), Fr::from_u64(12)]));
}
