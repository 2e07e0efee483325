//! Claims about several polynomials, opened together under commitments that combine.

use plonkish_backend::pcs::multilinear::additive::{
    batch_open, batch_open_for_shift, batch_verify, batch_verify_for_shift,
};
use plonkish_backend::pcs::multilinear::{err_too_many_variates, validate_input};
use plonkish_backend::pcs::{
    Additive, Evaluation, Evaluation_for_shift, PolynomialCommitmentScheme,
};
use plonkish_backend::poly::multilinear::MultilinearPolynomial;
use plonkish_backend::util::bn256::Fr;
use plonkish_backend::util::expression::Rotation;
use plonkish_backend::util::field::PrimeField;
use plonkish_backend::util::transcript::{Keccak256Transcript, TranscriptRead, TranscriptWrite};
use plonkish_backend::Error;
use rand::rngs::StdRng;
use rand::SeedableRng;

type Transcript = Keccak256Transcript<Fr>;

/// A scheme whose commitments are the polynomials themselves.
struct Plain;

#[derive(Clone, Debug, PartialEq)]
struct Values {
    values: Vec<Fr>,
    chunks: Vec<[u8; 32]>,
}

fn values(values: Vec<Fr>) -> Values {
    let chunks = values.iter().map(|v| v.to_repr()).collect();
    Values { values, chunks }
}

impl Additive<Fr> for Values {
    fn msm(scalars: &[Fr], bases: &[&Self]) -> Self {
        let size = bases.iter().map(|b| b.values.len()).max().unwrap_or(1);
        let mut sum = vec![Fr::zero(); size];
        for (s, b) in scalars.iter().zip(bases) {
            for (x, y) in sum.iter_mut().zip(&b.values) {
                *x = x.add(s.mul(*y));
            }
        }
        values(sum)
    }
}

fn rotated(values: &[Fr], rotation: i32) -> MultilinearPolynomial<Fr> {
    let n = values.len() as i64;
    let shifted =
        (0..n).map(|x| values[(x + rotation as i64).rem_euclid(n) as usize]).collect();
    MultilinearPolynomial::new(shifted)
}

impl PolynomialCommitmentScheme<Fr> for Plain {
    type Param = ();
    type ProverParam = ();
    type VerifierParam = ();
    type Commitment = Values;
    type CommitmentChunk = [u8; 32];

    fn default_commitment() -> Values {
        values(Vec::new())
    }

    fn chunks(comm: &Values) -> &[[u8; 32]] {
        &comm.chunks
    }

    fn trim(_param: &(), _poly_size: usize, _batch_size: usize) -> Result<((), ()), Error> {
        Ok(((), ()))
    }

    fn commit(_pp: &(), poly: &MultilinearPolynomial<Fr>) -> Result<Values, Error> {
        Ok(values(poly.evals().clone()))
    }

    fn batch_commit(pp: &(), polys: &[&MultilinearPolynomial<Fr>]) -> Result<Vec<Values>, Error> {
        polys.iter().map(|p| Self::commit(pp, p)).collect()
    }

    fn open<T: TranscriptWrite<[u8; 32], Fr>>(
        _pp: &(),
        poly: &MultilinearPolynomial<Fr>,
        comm: &Values,
        point: &Vec<Fr>,
        _eval: &Fr,
        transcript: &mut T,
    ) -> Result<(), Error> {
        assert!(comm.values.is_empty());
        transcript.write_field_element(&poly.evaluate(point))
    }

    fn batch_open<T: TranscriptWrite<[u8; 32], Fr>>(
        pp: &(),
        polys: &[&MultilinearPolynomial<Fr>],
        comms: &[&Values],
        points: &[Vec<Fr>],
        evals: &[Evaluation<Fr>],
        transcript: &mut T,
    ) -> Result<(), Error> {
        let num_vars = polys[0].num_vars();
        batch_open::<Fr, Self, T>(pp, num_vars, polys.to_vec(), comms.to_vec(), points, evals, transcript)
    }

    fn read_commitments<T: TranscriptRead<[u8; 32], Fr>>(
        _vp: &(),
        _num_polys: usize,
        _transcript: &mut T,
    ) -> Result<Vec<Values>, Error> {
        Err(Error::NotImplemented("read_commitments".to_string()))
    }

    fn verify<T: TranscriptRead<[u8; 32], Fr>>(
        _vp: &(),
        comm: &Values,
        point: &Vec<Fr>,
        eval: &Fr,
        transcript: &mut T,
    ) -> Result<(), Error> {
        let opened = transcript.read_field_element()?;
        let value = MultilinearPolynomial::new(comm.values.clone()).evaluate(point);
        if value == *eval && opened == *eval {
            Ok(())
        } else {
            Err(Error::InvalidPcsOpen("value".to_string()))
        }
    }

    fn batch_verify<T: TranscriptRead<[u8; 32], Fr>>(
        vp: &(),
        comms: &[&Values],
        points: &[Vec<Fr>],
        evals: &[Evaluation<Fr>],
        transcript: &mut T,
    ) -> Result<(), Error> {
        batch_verify::<Fr, Self, T>(vp, points[0].len(), comms.to_vec(), points, evals, transcript)
    }

    fn open_shift<T: TranscriptWrite<[u8; 32], Fr>>(
        _pp: &(),
        poly: &MultilinearPolynomial<Fr>,
        _comm: &Values,
        point: &Vec<Fr>,
        eval: &Fr,
        rotation: &Rotation,
        transcript: &mut T,
    ) -> Result<(), Error> {
        assert_eq!(rotated(poly.evals(), rotation.0).evaluate(point), *eval);
        transcript.write_field_element(eval)
    }

    fn verify_shifted_evaluation<T: TranscriptRead<[u8; 32], Fr>>(
        _vp: &(),
        comm: &Values,
        point: &Vec<Fr>,
        eval: &Fr,
        rotation: &Rotation,
        transcript: &mut T,
    ) -> Result<(), Error> {
        let opened = transcript.read_field_element()?;
        let value = rotated(&comm.values, rotation.0).evaluate(point);
        if value == *eval && opened == *eval {
            Ok(())
        } else {
            Err(Error::InvalidRotation("value".to_string()))
        }
    }
}

fn rand_vec(n: usize, rng: &mut StdRng) -> Vec<Fr> {
    (0..n).map(|_| Fr::random(rng)).collect()
}

struct Scene {
    polys: Vec<MultilinearPolynomial<Fr>>,
    comms: Vec<Values>,
    points: Vec<Vec<Fr>>,
}

fn scene(num_vars: usize, num_polys: usize, num_points: usize) -> Scene {
    let mut rng = StdRng::seed_from_u64(5);
    let polys: Vec<_> = (0..num_polys)
        .map(|_| MultilinearPolynomial::new(rand_vec(1 << num_vars, &mut rng)))
        .collect();
    let comms = polys.iter().map(|p| values(p.evals().clone())).collect();
    let points = (0..num_points).map(|_| rand_vec(num_vars, &mut rng)).collect();
    Scene { polys, comms, points }
}

fn claim(s: &Scene, poly: usize, point: usize) -> Evaluation<Fr> {
    Evaluation::new(poly, point, s.polys[poly].evaluate(&s.points[point]))
}

fn run(s: &Scene, num_vars: usize, opened: &[Evaluation<Fr>], checked: &[Evaluation<Fr>]) -> Result<(), Error> {
    let mut transcript = Transcript::new(());
    batch_open::<Fr, Plain, Transcript>(
        &(),
        num_vars,
        s.polys.iter().collect(),
        s.comms.iter().collect(),
        &s.points,
        opened,
        &mut transcript,
    )?;
    let proof = transcript.into_proof();
    let mut transcript = Transcript::from_proof((), &proof);
    batch_verify::<Fr, Plain, Transcript>(
        &(),
        num_vars,
        s.comms.iter().collect(),
        &s.points,
        checked,
        &mut transcript,
    )
}

#[test]
fn true_claims_are_accepted_together() {
    for num_vars in 1..5 {
        let s = scene(num_vars, 3, 2);
        let evals = vec![claim(&s, 0, 0), claim(&s, 2, 1), claim(&s, 1, 0), claim(&s, 2, 0), claim(&s, 0, 1)];
        for count in 1..6 {
            assert_eq!(run(&s, num_vars, &evals[..count], &evals[..count]), Ok(()));
        }
    }
}

#[test]
fn a_false_claim_spoils_the_first_round() {
    let s = scene(3, 2, 2);
    let evals = vec![claim(&s, 0, 0), claim(&s, 1, 1)];
    let mut wrong = evals.clone();
    wrong[1].value = wrong[1].value.add(Fr::one());
    assert_eq!(
        run(&s, 3, &evals, &wrong),
        Err(Error::InvalidSumcheck("Consistency failure at round 0".to_string())),
    );
}

#[test]
fn claims_about_another_commitment_are_refused() {
    let mut s = scene(3, 2, 2);
    let evals = vec![claim(&s, 0, 0), claim(&s, 1, 1)];
    s.comms[1] = values(s.comms[1].values.iter().map(|v| v.add(Fr::one())).collect());
    assert_eq!(run(&s, 3, &evals, &evals), Err(Error::InvalidPcsOpen("value".to_string())));
}

#[test]
fn claims_must_fit_the_scheme() {
    let s = scene(3, 1, 1);
    let evals = vec![claim(&s, 0, 0)];
    assert_eq!(
        run(&s, 2, &evals, &evals),
        Err(Error::InvalidPcsParam(
            "Too many variates of poly to batch open (param supports variates up to 2 but got 3)".to_string(),
        )),
    );
    let mut t = Transcript::from_proof((), &[]);
    let points = vec![s.points[0].clone(), s.points[0][..2].to_vec()];
    assert_eq!(
        batch_verify::<Fr, Plain, Transcript>(&(), 3, vec![&s.comms[0]], &points, &evals, &mut t),
        Err(Error::InvalidPcsParam(
            "Invalid point (expect point to have 3 variates but got 2)".to_string(),
        )),
    );
}

#[test]
fn input_is_checked_in_order() {
    let s = scene(3, 1, 1);
    assert_eq!(validate_input("open", 3, &[&s.polys[0]], &s.points), Ok(()));
    assert_eq!(
        validate_input("open", 1, &[&s.polys[0]], &[vec![Fr::one()]]),
        Err(err_too_many_variates("open", 1, 3)),
    );
    assert_eq!(
        err_too_many_variates("trim", 4, 10),
        Error::InvalidPcsParam(
            "Too many variates to trim (param supports variates up to 4 but got 10)".to_string(),
        ),
    );
}

fn shift_claim(s: &Scene, poly: usize, rotation: i32) -> Evaluation_for_shift<Fr> {
    let value = rotated(s.polys[poly].evals(), rotation).evaluate(&s.points[0]);
    Evaluation_for_shift::new(poly, Rotation(rotation), value)
}

fn open_shifts(s: &Scene, num_vars: usize, evals: &[Evaluation_for_shift<Fr>]) -> Vec<u8> {
    let mut transcript = Transcript::new(());
    batch_open_for_shift::<Fr, Plain, Transcript>(
        &(),
        num_vars,
        s.polys.iter().collect(),
        s.comms.iter().collect(),
        &s.points,
        evals,
        &mut transcript,
    )
    .unwrap();
    transcript.into_proof()
}

fn verify_shifts(
    s: &Scene,
    num_vars: usize,
    evals: &[Evaluation_for_shift<Fr>],
    proof: &[u8],
) -> Result<(), Error> {
    let mut transcript = Transcript::from_proof((), proof);
    batch_verify_for_shift::<Fr, Plain, Transcript>(
        &(),
        num_vars,
        s.comms.iter().collect(),
        &s.points,
        evals,
        &mut transcript,
    )
}

#[test]
fn rotated_claims_are_grouped_by_rotation() {
    let s = scene(3, 3, 1);
    let evals = vec![
        shift_claim(&s, 0, 2),
        shift_claim(&s, 0, 0),
        shift_claim(&s, 1, -1),
        shift_claim(&s, 2, 2),
        shift_claim(&s, 1, 0),
    ];
    let proof = open_shifts(&s, 3, &evals);
    // One element for the claims without a rotation, one for each of two rotations.
    assert_eq!(proof.len(), 3 * 32);
    assert_eq!(verify_shifts(&s, 3, &evals, &proof), Ok(()));
    for i in [0, 2, 3] {
        let mut wrong = evals.clone();
        wrong[i].value = wrong[i].value.add(Fr::one());
        assert_eq!(
            verify_shifts(&s, 3, &wrong, &proof),
            Err(Error::InvalidRotation("value".to_string())),
        );
    }
}

#[test]
fn a_single_claim_without_rotation_is_opened_as_it_is() {
    let s = scene(2, 1, 1);
    let evals = vec![shift_claim(&s, 0, 0)];
    let proof = open_shifts(&s, 2, &evals);
    assert_eq!(proof, s.polys[0].evaluate(&s.points[0]).to_repr().to_vec());
}

#[test]
fn no_claims_need_no_opening() {
    let s = scene(2, 1, 1);
    assert!(open_shifts(&s, 2, &[]).is_empty());
}

#[test]
fn shift_claims_must_fit_the_scheme() {
    let s = scene(3, 1, 1);
    let mut transcript = Transcript::new(());
    assert_eq!(
        batch_open_for_shift::<Fr, Plain, Transcript>(
            &(),
            2,
            vec![&s.polys[0]],
            vec![&s.comms[0]],
            &s.points,
            &[],
            &mut transcript,
        ),
        Err(err_too_many_variates("batch open", 2, 3)),
    );
    let points = vec![s.points[0].clone(), Vec::new()];
    assert_eq!(
        batch_verify_for_shift::<Fr, Plain, Transcript>(
            &(),
            3,
            vec![&s.comms[0]],
            &points,
            &[],
            &mut transcript,
        ),
        Err(Error::InvalidPcsParam(
            "Invalid point (expect point to have 3 variates but got 0)".to_string(),
        )),
    );
}
