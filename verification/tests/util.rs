//! Fields, transcripts, polynomials and sum-checks.

use plonkish_backend::piop::sum_check;
use plonkish_backend::piop::sum_check::{Form, Product};
use plonkish_backend::poly::multilinear::{fix_first_var, MultilinearPolynomial};
use plonkish_backend::transform::circuit::row_mapping;
use plonkish_backend::util::bn256::Fr;
use plonkish_backend::util::expression::{Expression, Lexical, Query, Rotatable, Rotation};
use plonkish_backend::util::field::{fe_mod_from_le_bytes, inner_product, PrimeField};
use plonkish_backend::util::hash::{HashFunction, Keccak256};
use plonkish_backend::util::integer::{ceil_log2_usize, floor_log2_usize, isqrt_usize, pow2_usize};
use plonkish_backend::util::transcript::{
    read_field_elements, squeeze_challenges, write_field_elements, Keccak256Transcript, Transcript as Absorb,
    TranscriptRead, TranscriptWrite,
};
use plonkish_backend::Error;
use rand::rngs::StdRng;
use rand::SeedableRng;

type Transcript = Keccak256Transcript<Fr>;

fn fr(x: u64) -> Fr {
    Fr::from_u64(x)
}

/// The order of the field, least significant byte first.
fn modulus_bytes() -> [u8; 32] {
    let hex = "30644e72e131a029b85045b68181585d2833e84879b9709143e1f593f0000001";
    let mut bytes = [0u8; 32];
    for i in 0..32 {
        bytes[31 - i] = u8::from_str_radix(&hex[2 * i..2 * i + 2], 16).unwrap();
    }
    bytes
}

#[test]
fn elements_add_and_multiply_modulo_the_order() {
    assert_eq!(fr(7).add(fr(5)), fr(12));
    assert_eq!(fr(7).mul(fr(5)), fr(35));
    assert_eq!(fr(7).sub(fr(5)), fr(2));
    let minus_one = Fr::zero().sub(Fr::one());
    let mut largest = modulus_bytes();
    largest[0] -= 1;
    assert_eq!(minus_one.to_repr(), largest);
    assert_eq!(minus_one.add(Fr::one()), Fr::zero());
    assert_eq!(minus_one.mul(minus_one), Fr::one());
    assert_eq!(Fr::two_inv().add(Fr::two_inv()), Fr::one());
    assert!(fr(3).equals(fr(3)) && !fr(3).equals(fr(4)));
}

#[test]
fn elements_are_spelled_canonically() {
    let mut bytes = [0u8; 32];
    bytes[0] = 0x34;
    bytes[1] = 0x12;
    assert_eq!(fr(0x1234).to_repr(), bytes);
    assert_eq!(Fr::from_repr(bytes), Some(fr(0x1234)));
    assert_eq!(Fr::from_repr(modulus_bytes()), None);
    assert_eq!(
        fr(0x1234).debug_string(),
        "0x0000000000000000000000000000000000000000000000000000000000001234",
    );
}

#[test]
fn bytes_are_reduced() {
    assert_eq!(fe_mod_from_le_bytes::<Fr>(&[1, 2, 3]), fr(0x030201));
    assert_eq!(fe_mod_from_le_bytes::<Fr>(&modulus_bytes()), Fr::zero());
    let mut more = modulus_bytes().to_vec();
    more[0] += 4;
    assert_eq!(fe_mod_from_le_bytes::<Fr>(&more), fr(4));
    assert_eq!(fe_mod_from_le_bytes::<Fr>(&[]), Fr::zero());
}

#[test]
fn random_elements_differ() {
    let mut rng = StdRng::seed_from_u64(0);
    assert_ne!(Fr::random(&mut rng), Fr::random(&mut rng));
}

#[test]
fn inner_products() {
    assert_eq!(inner_product(&[fr(1), fr(2), fr(3)], &[fr(4), fr(5), fr(6)]), fr(32));
    assert_eq!(inner_product::<Fr>(&[], &[]), Fr::zero());
}

#[test]
fn what_is_written_is_read_back() {
    let mut writer = Transcript::new(());
    writer.common_field_element(&fr(9)).unwrap();
    writer.write_field_element(&fr(1)).unwrap();
    writer.write_commitment(&[7u8; 32]).unwrap();
    let first: Fr = writer.squeeze_challenge();
    write_field_elements(&mut writer, &[fr(2), fr(3)]).unwrap();
    let second: Vec<Fr> = squeeze_challenges(&mut writer, 2);
    let proof = writer.into_proof();
    assert_eq!(proof.len(), 4 * 32);
    let mut reader = Transcript::from_proof((), &proof);
    reader.common_field_element(&fr(9)).unwrap();
    assert_eq!(reader.read_field_element(), Ok(fr(1)));
    assert_eq!(reader.read_commitment(), Ok([7u8; 32]));
    assert_eq!(reader.squeeze_challenge(), first);
    let read = read_field_elements::<[u8; 32], Fr, Transcript>(&mut reader, 2);
    assert_eq!(read, Ok(vec![fr(2), fr(3)]));
    let again: Vec<Fr> = squeeze_challenges(&mut reader, 2);
    assert_eq!(again, second);
    let short = Err(Error::Transcript(
        std::io::ErrorKind::UnexpectedEof,
        "Proof is too short".to_string(),
    ));
    assert_eq!(reader.read_field_element(), short);
}

#[test]
fn unreduced_elements_are_refused() {
    let mut reader = Transcript::from_proof((), &modulus_bytes());
    assert_eq!(
        reader.read_field_element(),
        Err(Error::Transcript(
            std::io::ErrorKind::Other,
            "Invalid field element encoding in proof".to_string(),
        )),
    );
}

#[test]
fn challenges_are_digests_of_what_was_absorbed() {
    let mut transcript = Transcript::new(());
    transcript.common_field_element(&fr(5)).unwrap();
    let digest = Keccak256::digest(&fr(5).to_repr());
    let drawn: Fr = transcript.squeeze_challenge();
    assert_eq!(drawn, fe_mod_from_le_bytes::<Fr>(&digest));
    let next: Fr = transcript.squeeze_challenge();
    assert_eq!(next, fe_mod_from_le_bytes::<Fr>(&Keccak256::digest(&digest)));
}

#[test]
fn polynomials_extend_their_values() {
    let poly = MultilinearPolynomial::new(vec![fr(1), fr(3), fr(5), fr(15)]);
    assert_eq!(poly.num_vars(), 2);
    assert_eq!(poly.evaluate(&[fr(0), fr(0)]), fr(1));
    assert_eq!(poly.evaluate(&[fr(1), fr(0)]), fr(3));
    assert_eq!(poly.evaluate(&[fr(0), fr(1)]), fr(5));
    assert_eq!(poly.evaluate(&[fr(3), fr(5)]), fr(147));
    assert_eq!(fix_first_var(poly.evals(), fr(3)), vec![fr(7), fr(35)]);
    let eq = MultilinearPolynomial::eq_xy(&[fr(3), fr(5)]);
    assert_eq!(inner_product(eq.evals(), poly.evals()), fr(147));
}

#[test]
fn sum_checks_reduce_sums_to_a_point() {
    for form in [Form::Evaluations, Form::Coefficients] {
        let products = vec![
            Product {
                scalar: fr(2),
                lhs: vec![fr(1), fr(2), fr(3), fr(4)],
                rhs: vec![fr(5), fr(6), fr(7), fr(8)],
            },
            Product {
                scalar: fr(3),
                lhs: vec![fr(1), fr(0), fr(0), fr(1)],
                rhs: vec![fr(9), fr(1), fr(1), fr(9)],
            },
        ];
        // 2 * 70 + 3 * 18
        let total = fr(194);
        let mut writer = Transcript::new(());
        let (left, point) =
            sum_check::prove::<[u8; 32], Fr, Transcript>(form, 2, products.clone(), total, &mut writer).unwrap();
        let mut value = Fr::zero();
        for p in &products {
            let l = MultilinearPolynomial::new(p.lhs.clone()).evaluate(&point);
            let r = MultilinearPolynomial::new(p.rhs.clone()).evaluate(&point);
            value = value.add(p.scalar.mul(l.mul(r)));
        }
        assert_eq!(left, value);
        let proof = writer.into_proof();
        assert_eq!(proof.len(), 2 * 3 * 32);
        let mut reader = Transcript::from_proof((), &proof);
        let verified = sum_check::verify::<[u8; 32], Fr, Transcript>(form, 2, total, &mut reader);
        assert_eq!(verified, Ok((left, point)));
        let mut reader = Transcript::from_proof((), &proof);
        let wrong = sum_check::verify::<[u8; 32], Fr, Transcript>(form, 2, fr(195), &mut reader);
        assert_eq!(
            wrong,
            Err(Error::InvalidSumcheck("Consistency failure at round 0".to_string())),
        );
    }
}

#[test]
fn logarithms_and_roots() {
    assert_eq!(pow2_usize(10), 1024);
    assert_eq!((floor_log2_usize(1), floor_log2_usize(7), floor_log2_usize(8)), (0, 2, 3));
    assert_eq!((ceil_log2_usize(1), ceil_log2_usize(7), ceil_log2_usize(9)), (0, 3, 4));
    assert_eq!((isqrt_usize(0), isqrt_usize(15), isqrt_usize(16)), (0, 3, 4));
}

#[test]
fn expressions_know_what_they_use() {
    let query = |poly: usize| Expression::<Fr>::Polynomial(Query::new(poly, Rotation::cur()));
    let product = Expression::Product(Box::new(query(1)), Box::new(query(2)));
    let e = Expression::Sum(
        Box::new(Expression::Scaled(Box::new(product), fr(2))),
        Box::new(Expression::Negated(Box::new(Expression::Challenge(3)))),
    );
    assert!(e.has_indices_below(3, 4));
    assert!(!e.has_indices_below(2, 4));
    assert!(!e.has_indices_below(3, 3));
    assert_eq!(e.degree_within(2), Some(2));
    assert_eq!(e.degree_within(1), None);
    let powers = Expression::DistributePowers(vec![e.clone(), query(0), query(5)], Box::new(query(4)));
    assert!(powers.has_indices_below(6, 4));
    assert!(!powers.has_indices_below(5, 4));
    assert_eq!(Rotation(-4).distance(), 4);
}

#[test]
fn lexical_rows_are_usable_in_order() {
    let rows = Lexical::from_num_vars(3).usable_indices();
    assert!(rows.iter().all(|r| *r < 8));
    assert!(rows.windows(2).all(|w| w[0] < w[1]));
}

#[test]
fn rows_stay_where_they_are() {
    assert_eq!(row_mapping(0), vec![0]);
    assert_eq!(row_mapping(3), (0..8).collect::<Vec<usize>>());
}
