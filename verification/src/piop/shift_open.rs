//! The shift-open protocol.
//!
//! Given a commitment to the extension `F` of a function `f` on the hypercube and a
//! public shift `k`, it proves the value at a random point `r` of the extension `G` of
//! `g(x) = f((x + k) mod 2^n)`, without a commitment to `G`:
//!
//! 1. `r` is drawn from the transcript.
//! 2. The prover sends `y = F(r)` and `y' = G(r)`.
//! 3. A sum-check proves `y' = sum over i of f(i) * w(i)`, where
//!    `w(i) = eq((i - k) mod 2^n, r)`, and reduces it to a random point `u`.
//! 4. The prover sends `F(u)` and `W(u)` and opens `F` at `u`.
//! 5. The verifier computes `W(u)` and compares.
//!
//! What is proved is `y' = G(r)`. The value `y` is the prover's claim: it is absorbed, but
//! `F` is not opened at `r`.

pub mod acceptance;

use crate::pcs;
use crate::pcs::PolynomialCommitmentScheme;
use crate::piop::sum_check;
use crate::piop::sum_check::{Form, Product, ProductView};
use crate::poly::hypercube;
use crate::poly::multilinear;
use crate::poly::multilinear::MultilinearPolynomial;
use crate::util::field;
use crate::util::field::PrimeField;
use crate::util::integer;
use crate::util::modular;
use crate::util::sum;
use crate::util::transcript;
use crate::util::transcript::{Halt, Item, Model, State, TranscriptRead, TranscriptWrite};
use crate::{Error, ErrorView};
use vstd::arithmetic::div_mod::*;
use vstd::arithmetic::power2;
use vstd::arithmetic::power2::pow2;
use vstd::prelude::*;

verus! {

/// The bits of `idx`, least significant first.
pub fn idx_to_bits(idx: usize, num_vars: usize) -> (r: Vec<bool>)
    requires
        num_vars <= usize::BITS,
    ensures
        r@ == hypercube::bits_of(idx as int, num_vars as nat),
{
    let mut r: Vec<bool> = Vec::new();
    let mut rest = idx;
    let mut i: usize = 0;
    proof {
        power2::lemma2_to64();
    }
    while i < num_vars
        invariant
            i <= num_vars,
            rest == idx as int / pow2(i as nat) as int,
            r@.len() == i,
            forall|j: int| 0 <= j < i ==> r@[j] == hypercube::bit(idx as int, j as nat),
        decreases num_vars - i,
    {
        r.push(rest % 2 == 1);
        proof {
            hypercube::lemma_pow2_step(i as nat);
            lemma_div_denominator(idx as int, pow2(i as nat) as int, 2);
        }
        rest = rest / 2;
        i = i + 1;
    }
    assert(r@ =~= hypercube::bits_of(idx as int, num_vars as nat));
    r
}

/// `eq(bits, point)`: the product of `b * y + (1 - b) * (1 - y)` over all coordinates.
pub fn eq_eval_bool_field<F: PrimeField>(bits: &[bool], point: &[F]) -> (r: F)
    requires
        bits@.len() == point@.len(),
    ensures
        r.val() == hypercube::eq_bits(bits@, field::vals(point@)) % F::modulus(),
{
    let ghost m = F::modulus();
    let ghost p = field::vals(point@);
    let one = F::one();
    let mut acc = F::one();
    let mut i: usize = 0;
    proof {
        F::modulus_is_odd();
        modular::lemma_small(1, m);
    }
    while i < bits.len()
        invariant
            i <= bits.len(),
            bits@.len() == point@.len(),
            m == F::modulus(),
            m > 2,
            p == field::vals(point@),
            one.val() == 1,
            acc.val() == hypercube::eq_bits(bits@.take(i as int), p.take(i as int)) % m,
        decreases bits.len() - i,
    {
        let factor = if bits[i] {
            point[i]
        } else {
            one.sub(point[i])
        };
        let ghost before = hypercube::eq_bits(bits@.take(i as int), p.take(i as int));
        let ghost exact = hypercube::eq_factor(bits@[i as int], p[i as int]);
        proof {
            assert(bits@.take(i + 1).drop_last() =~= bits@.take(i as int));
            assert(p.take(i + 1).drop_last() =~= p.take(i as int));
            modular::lemma_cong_reduced(before, m);
            modular::lemma_cong_reduced(exact, m);
            modular::lemma_cong_mul(acc.val(), before, factor.val(), exact, m);
        }
        acc = acc.mul(factor);
        i = i + 1;
    }
    assert(bits@.take(bits@.len() as int) =~= bits@);
    assert(p.take(p.len() as int) =~= p);
    acc
}

/// `(i - k) mod n`.
fn shift_back(i: usize, k: usize, n: usize) -> (r: usize)
    requires
        i < n,
    ensures
        r == (i - k) % (n as int),
        r < n,
{
    let kk = k % n;
    proof {
        lemma_sub_mod_noop(i as int, k as int, n as int);
        lemma_sub_mod_noop(i as int, kk as int, n as int);
        modular::lemma_cong_reduced(k as int, n as int);
    }
    if i >= kk {
        proof {
            modular::lemma_small(i - kk, n as int);
        }
        i - kk
    } else {
        proof {
            lemma_mod_add_multiples_vanish(i - kk, n as int);
            modular::lemma_small(n + (i - kk), n as int);
        }
        n - (kk - i)
    }
}

/// `(i + k) mod n`.
fn shift_forward(i: usize, k: usize, n: usize) -> (r: usize)
    requires
        i < n,
    ensures
        r == (i + k) % (n as int),
        r < n,
{
    let kk = k % n;
    proof {
        lemma_add_mod_noop(i as int, k as int, n as int);
        lemma_add_mod_noop(i as int, kk as int, n as int);
        modular::lemma_cong_reduced(k as int, n as int);
    }
    if kk < n - i {
        proof {
            modular::lemma_small(i + kk, n as int);
        }
        i + kk
    } else {
        proof {
            lemma_mod_add_multiples_vanish(i - (n - kk), n as int);
            modular::lemma_small(i - (n - kk), n as int);
        }
        i - (n - kk)
    }
}

/// `eq(idx, point)`, where `idx` stands for its bits.
fn eq_eval_index<F: PrimeField>(idx: usize, point: &[F]) -> (r: F)
    requires
        point@.len() <= usize::BITS,
    ensures
        r.val() == hypercube::eq_at(idx as int, field::vals(point@)) % F::modulus(),
{
    let bits = idx_to_bits(idx, point.len());
    proof {
        hypercube::lemma_eq_bits_of(idx as int, field::vals(point@));
    }
    eq_eval_bool_field(&bits, point)
}

/// A hypercube that fits in memory has few variables.
proof fn lemma_few_variables(num_vars: nat)
    requires
        pow2(num_vars) <= usize::MAX,
    ensures
        num_vars <= usize::BITS,
{
    power2::lemma2_to64();
    if num_vars > usize::BITS {
        integer::lemma_pow2_monotone(usize::BITS as nat, num_vars);
        assert(usize::BITS == 32 || usize::BITS == 64);
        power2::lemma2_to64_rest();
    }
}

/// The weights `w(i) = eq((i - k) mod 2^n, r)` for all `i` in `{0, 1}^n`.
pub fn compute_weight_evals<F: PrimeField>(num_vars: usize, k: usize, r: &[F]) -> (w: Vec<F>)
    requires
        r@.len() == num_vars,
        pow2(num_vars as nat) <= usize::MAX,
    ensures
        field::vals(w@) == modular::reduce_seq(
            hypercube::weights(k as int, field::vals(r@)),
            F::modulus(),
        ),
{
    let ghost rv = field::vals(r@);
    let n = integer::pow2_usize(num_vars);
    proof {
        lemma_few_variables(num_vars as nat);
    }
    let mut w: Vec<F> = Vec::new();
    let mut i: usize = 0;
    while i < n
        invariant
            i <= n,
            n == pow2(num_vars as nat),
            r@.len() == num_vars,
            num_vars <= usize::BITS,
            rv == field::vals(r@),
            w@.len() == i,
            forall|j: int|
                0 <= j < i ==> (#[trigger] w@[j]).val() == hypercube::weights(k as int, rv)[j]
                    % F::modulus(),
        decreases n - i,
    {
        let shifted_idx = shift_back(i, k, n);
        let e = eq_eval_index(shifted_idx, r);
        w.push(e);
        i = i + 1;
    }
    assert(field::vals(w@) =~= modular::reduce_seq(hypercube::weights(k as int, rv), F::modulus()));
    w
}

/// The extension of the weights at `u`:
/// `W(u) = sum over i of eq(i, u) * eq((i - k) mod 2^n, r)`.
pub fn compute_weight_at_point<F: PrimeField>(num_vars: usize, k: usize, r: &[F], u: &[F]) -> (w: F)
    requires
        r@.len() == num_vars,
        u@.len() == num_vars,
        pow2(num_vars as nat) <= usize::MAX,
    ensures
        w.val() == hypercube::mle(hypercube::weights(k as int, field::vals(r@)), field::vals(u@))
            % F::modulus(),
{
    let ghost m = F::modulus();
    let ghost rv = field::vals(r@);
    let ghost uv = field::vals(u@);
    let ghost ws = hypercube::weights(k as int, rv);
    let ghost f = |i: int| ws[i] * hypercube::eq_at(i, uv);
    let n = integer::pow2_usize(num_vars);
    proof {
        F::modulus_is_odd();
        modular::lemma_small(0, m);
        lemma_few_variables(num_vars as nat);
    }
    let mut acc = F::zero();
    let mut i: usize = 0;
    while i < n
        invariant
            i <= n,
            n == pow2(num_vars as nat),
            r@.len() == num_vars,
            u@.len() == num_vars,
            num_vars <= usize::BITS,
            m == F::modulus(),
            m > 2,
            rv == field::vals(r@),
            uv == field::vals(u@),
            ws == hypercube::weights(k as int, rv),
            f == (|i: int| ws[i] * hypercube::eq_at(i, uv)),
            acc.val() == sum::sum_to(f, i as nat) % m,
        decreases n - i,
    {
        let eq_i_u = eq_eval_index(i, u);
        let shifted_idx = shift_back(i, k, n);
        let eq_shifted_r = eq_eval_index(shifted_idx, r);
        let t = eq_i_u.mul(eq_shifted_r);
        proof {
            let a = hypercube::eq_at(i as int, uv);
            let b = ws[i as int];
            lemma_mul_mod_noop(a, b, m);
            assert(a * b == b * a) by (nonlinear_arith);
            lemma_add_mod_noop(sum::sum_to(f, i as nat), f(i as int), m);
        }
        acc = acc.add(t);
        i = i + 1;
    }
    acc
}

/// The first `n` values of `evals`, shifted cyclically by `k` places.
pub(crate) fn shift_values<F: PrimeField>(evals: &Vec<F>, k: usize, n: usize) -> (r: Vec<F>)
    requires
        n <= evals@.len(),
    ensures
        field::vals(r@) == hypercube::shift(field::vals(evals@).take(n as int), k as int),
{
    let ghost v = field::vals(evals@).take(n as int);
    let mut r: Vec<F> = Vec::new();
    let mut x: usize = 0;
    while x < n
        invariant
            x <= n,
            n <= evals@.len(),
            v == field::vals(evals@).take(n as int),
            r@.len() == x,
            forall|j: int| 0 <= j < x ==> (#[trigger] r@[j]).val() == hypercube::shift(v, k as int)[j],
        decreases n - x,
    {
        let idx = shift_forward(x, k, n);
        r.push(evals[idx]);
        x = x + 1;
    }
    assert(field::vals(r@) =~= hypercube::shift(v, k as int));
    r
}

/// The values of `x -> f((x + k) mod 2^n)`.
pub(crate) fn shifted_evals<F: PrimeField>(poly: &MultilinearPolynomial<F>, k: usize) -> (r: Vec<F>)
    ensures
        r@.len() == poly@.len(),
        field::vals(r@) == hypercube::shift(poly.vals(), k as int),
{
    let evals = poly.evals();
    proof {
        assert(poly.vals().take(poly@.len() as int) =~= poly.vals());
        assert(poly.vals().len() == poly@.len());
    }
    let r = shift_values(evals, k, evals.len());
    assert(field::vals(r@).len() == r@.len());
    r
}

/// The state after `k` and the number of variables are absorbed.
pub open spec fn absorb_header<C>(mo: Model<C>, st: State<C>, k: int, num_vars: int, m: int) -> Result<
    State<C>,
    Halt<C>,
> {
    match transcript::absorb(mo, st, Item::Field(k % m)) {
        Err(e) => Err(e),
        Ok(s) => transcript::absorb(mo, s, Item::Field(num_vars % m)),
    }
}

/// The error for a polynomial without variables.
pub open spec fn no_variables() -> ErrorView {
    ErrorView::InvalidPcsParam("Polynomial must have at least 1 variable"@)
}

/// The sum that the sum-check is run on.
pub open spec fn shift_products(evals: Seq<int>, k: int, r: Seq<int>, m: int) -> Seq<ProductView> {
    seq![
        ProductView {
            scalar: 1,
            lhs: evals,
            rhs: modular::reduce_seq(hypercube::weights(k, r), m),
        },
    ]
}

/// What the prover sends before the sum-check: `F(r)` and `G(r)`.
pub open spec fn claimed_values(evals: Seq<int>, k: int, r: Seq<int>, m: int) -> Seq<int> {
    seq![
        hypercube::mle(evals, r) % m,
        hypercube::mle(hypercube::shift(evals, k), r) % m,
    ]
}

/// What the prover sends after the sum-check: `F(u)` and `W(u)`.
pub open spec fn final_values(
    evals: Seq<int>,
    k: int,
    r: Seq<int>,
    u: Seq<int>,
    m: int,
) -> Seq<int> {
    seq![hypercube::mle(evals, u) % m, hypercube::mle(hypercube::weights(k, r), u) % m]
}

/// The random point `r`, and the state after it is drawn.
pub open spec fn draw_point<C>(mo: Model<C>, st: State<C>, k: int, num_vars: nat, m: int) -> Result<
    (Seq<int>, State<C>),
    Halt<C>,
> {
    match absorb_header(mo, st, k, num_vars as int, m) {
        Err(e) => Err(e),
        Ok(s) => Ok(transcript::squeeze_many(mo, s, num_vars)),
    }
}

/// The sum-check's outcome, run after `F(r)` and `G(r)` are sent.
pub open spec fn prove_sum<C>(
    evals: Seq<int>,
    num_vars: nat,
    k: int,
    r: Seq<int>,
    mo: Model<C>,
    st: State<C>,
    m: int,
) -> Result<sum_check::Progress<C>, Halt<C>> {
    let ys = claimed_values(evals, k, r, m);
    match transcript::write_fields(mo, st, ys) {
        Err(e) => Err(e),
        Ok(s) => sum_check::prove_rounds(
            Form::Evaluations,
            mo,
            s,
            shift_products(evals, k, r, m),
            ys[1],
            num_vars,
            m,
        ),
    }
}

/// The transcript after the whole proof is written.
pub open spec fn prove_shift_open_spec<F: PrimeField, Pcs: PolynomialCommitmentScheme<F>>(
    pp: Pcs::ProverParam,
    evals: Seq<int>,
    comm: Pcs::Commitment,
    num_vars: nat,
    k: int,
    mo: Model<Pcs::CommitmentChunk>,
    st: State<Pcs::CommitmentChunk>,
) -> Result<State<Pcs::CommitmentChunk>, Halt<Pcs::CommitmentChunk>> {
    let m = F::modulus();
    if num_vars == 0 {
        Err(Halt { error: no_variables(), state: st })
    } else {
        match draw_point(mo, st, k, num_vars, m) {
            Err(e) => Err(e),
            Ok((r, drawn)) => match prove_sum(evals, num_vars, k, r, mo, drawn, m) {
                Err(e) => Err(e),
                Ok(p) => {
                    let ends = final_values(evals, k, r, p.challenges, m);
                    match transcript::write_fields(mo, p.state, ends) {
                        Err(e) => Err(e),
                        Ok(s) => Pcs::open_spec(pp, evals, comm, p.challenges, ends[0], mo, s),
                    }
                },
            },
        }
    }
}

/// What the verifier makes of a proof: `(y, y')` and the transcript after it.
pub open spec fn verify_shift_open_spec<F: PrimeField, Pcs: PolynomialCommitmentScheme<F>>(
    vp: Pcs::VerifierParam,
    comm: Pcs::Commitment,
    num_vars: nat,
    k: int,
    mo: Model<Pcs::CommitmentChunk>,
    st: State<Pcs::CommitmentChunk>,
) -> Result<(int, int, State<Pcs::CommitmentChunk>), Halt<Pcs::CommitmentChunk>> {
    let m = F::modulus();
    if num_vars == 0 {
        Err(Halt { error: no_variables(), state: st })
    } else {
        match draw_point(mo, st, k, num_vars, m) {
            Err(e) => Err(e),
            Ok((r, drawn)) => match transcript::read_fields(mo, drawn, 2) {
                Err(e) => Err(e),
                Ok((ys, s)) => match sum_check::verify_rounds(
                    Form::Evaluations,
                    mo,
                    s,
                    ys[1],
                    num_vars,
                    m,
                ) {
                    Err(e) => Err(e),
                    Ok((t, left, u)) => match transcript::read_fields(mo, t, 2) {
                        Err(e) => Err(e),
                        Ok((ends, v)) => if (ends[0] * ends[1]) % m != left {
                            Err(
                                Halt {
                                    error: ErrorView::InvalidSumcheck(
                                        "Final evaluation check failed: f(u) * w(u) != claimed"@,
                                    ),
                                    state: v,
                                },
                            )
                        } else if ends[1] != hypercube::mle(hypercube::weights(k, r), u) % m {
                            Err(
                                Halt {
                                    error: ErrorView::InvalidSumcheck(
                                        "Weight evaluation mismatch: claimed w(u) != computed w(u)"@,
                                    ),
                                    state: v,
                                },
                            )
                        } else {
                            match Pcs::verify_spec(vp, comm, u, ends[0], mo, v) {
                                Err(e) => Err(e),
                                Ok(x) => Ok((ys[0], ys[1], x)),
                            }
                        },
                    },
                },
            },
        }
    }
}

/// Absorbs `k` and the number of variables, and draws the random point.
fn squeeze_point<C, F: PrimeField, T: transcript::Transcript<C, F>>(
    k: usize,
    num_vars: usize,
    transcript: &mut T,
) -> (r: Result<Vec<F>, Error>)
    ensures
        transcript::read_to(
            r,
            final(transcript).state(),
            draw_point(
                T::model(),
                old(transcript).state(),
                k as int,
                num_vars as nat,
                F::modulus(),
            ),
        ),
{
    match transcript.common_field_element(&F::from_u64(k as u64)) {
        Err(e) => {
            return Err(e);
        },
        Ok(()) => {},
    }
    match transcript.common_field_element(&F::from_u64(num_vars as u64)) {
        Err(e) => {
            return Err(e);
        },
        Ok(()) => {},
    }
    Ok(transcript::squeeze_challenges(transcript, num_vars))
}

/// Proves `G(r) = y'` for the shift by `k` of `poly`, to which `comm` is a commitment.
pub fn prove_shift_open<
    F: PrimeField,
    Pcs: PolynomialCommitmentScheme<F>,
    T: TranscriptWrite<Pcs::CommitmentChunk, F>,
>(
    pp: &Pcs::ProverParam,
    poly: &MultilinearPolynomial<F>,
    comm: &Pcs::Commitment,
    k: usize,
    transcript: &mut T,
) -> (res: Result<(), Error>)
    requires
        poly@.len() > 1 ==> Pcs::can_open(*pp, poly@.len(), integer::floor_log2(poly@.len())),
    ensures
        transcript::moved_to(
            res,
            final(transcript).state(),
            prove_shift_open_spec::<F, Pcs>(
                *pp,
                poly.vals(),
                *comm,
                integer::floor_log2(poly@.len()),
                k as int,
                T::model(),
                old(transcript).state(),
            ),
        ),
        res is Ok ==> exists|r: Seq<int>, u: Seq<int>| #[trigger]
            acceptance::says::<F, Pcs>(
                *pp,
                poly.vals(),
                *comm,
                integer::floor_log2(poly@.len()),
                k as int,
                T::model(),
                old(transcript).state(),
                r,
                u,
                final(transcript).state(),
            ),
{
    let ghost m = F::modulus();
    let ghost evals = poly.vals();
    let num_vars = poly.num_vars();
    let n = poly.evals().len();
    proof {
        F::modulus_is_odd();
        assert(pow2(num_vars as nat) == n);
        acceptance::law_written_proof_says::<F, Pcs>(
            *pp,
            evals,
            *comm,
            num_vars as nat,
            k as int,
            T::model(),
            transcript.state(),
        );
    }
    if num_vars == 0 {
        return Err(
            Error::InvalidPcsParam("Polynomial must have at least 1 variable".to_string()),
        );
    }
    proof {
        hypercube::lemma_pow2_step((num_vars - 1) as nat);
    }
    let r = match squeeze_point(k, num_vars, transcript) {
        Err(e) => {
            return Err(e);
        },
        Ok(r) => r,
    };
    let ghost rv = field::vals(r@);
    proof {
        transcript::lemma_squeeze_many_len(
            T::model(),
            absorb_header(T::model(), old(transcript).state(), k as int, num_vars as int, m)->Ok_0,
            num_vars as nat,
        );
        assert(rv.len() == r@.len());
    }
    let y = poly.evaluate(&r);
    let shifted = shifted_evals(poly, k);
    proof {
        assert(pow2(num_vars as nat) == shifted@.len());
    }
    let shifted_poly = MultilinearPolynomial::new(shifted);
    let y_prime = shifted_poly.evaluate(&r);
    let claimed: Vec<F> = vec![y, y_prime];
    proof {
        assert(field::vals(claimed@) =~= claimed_values(evals, k as int, rv, m));
    }
    match transcript::write_field_elements(transcript, &claimed) {
        Err(e) => {
            return Err(e);
        },
        Ok(()) => {},
    }
    let weight_evals = compute_weight_evals(num_vars, k, &r);
    let product = Product {
        scalar: F::one(),
        lhs: multilinear::clone_elements(poly.evals()),
        rhs: multilinear::clone_elements(&weight_evals),
    };
    let products: Vec<Product<F>> = vec![product];
    proof {
        assert(weight_evals@.len() == field::vals(weight_evals@).len());
        assert(sum_check::products_vals(products@) =~= shift_products(evals, k as int, rv, m));
    }
    let (_, u) = match sum_check::prove(Form::Evaluations, num_vars, products, y_prime, transcript) {
        Err(e) => {
            return Err(e);
        },
        Ok(out) => out,
    };
    let ghost uv = field::vals(u@);
    proof {
        sum_check::lemma_challenges_len(
            Form::Evaluations,
            T::model(),
            transcript::write_fields(
                T::model(),
                draw_point(T::model(), old(transcript).state(), k as int, num_vars as nat, m)->Ok_0.1,
                claimed_values(evals, k as int, rv, m),
            )->Ok_0,
            shift_products(evals, k as int, rv, m),
            y_prime.val(),
            num_vars as nat,
            m,
        );
        assert(uv.len() == u@.len());
    }
    let f_u = poly.evaluate(&u);
    let weight_poly = MultilinearPolynomial::new(weight_evals);
    let w_u = weight_poly.evaluate(&u);
    let ends: Vec<F> = vec![f_u, w_u];
    proof {
        let ws = hypercube::weights(k as int, rv);
        sum_check::lemma_reduced_cong(ws, m);
        hypercube::lemma_mle_cong(modular::reduce_seq(ws, m), ws, uv, uv, m);
        assert(field::vals(ends@) =~= final_values(evals, k as int, rv, uv, m));
    }
    match transcript::write_field_elements(transcript, &ends) {
        Err(e) => {
            return Err(e);
        },
        Ok(()) => {},
    }
    Pcs::open(pp, poly, comm, &u, &f_u, transcript)
}

/// Verifies a shift-open proof for the polynomial in `num_vars` variables that `comm`
/// is a commitment to. Returns `(y, y')`: the value `y' = G(r)` that was proved, and the
/// value `y` that the prover claims for `F(r)`, which is sent and bound to the transcript
/// but not opened.
pub fn verify_shift_open<
    F: PrimeField,
    Pcs: PolynomialCommitmentScheme<F>,
    T: TranscriptRead<Pcs::CommitmentChunk, F>,
>(
    vp: &Pcs::VerifierParam,
    comm: &Pcs::Commitment,
    k: usize,
    num_vars: usize,
    transcript: &mut T,
) -> (res: Result<(F, F), Error>)
    requires
        pow2(num_vars as nat) <= usize::MAX,
        num_vars > 0 ==> Pcs::can_verify(*vp, num_vars as nat),
    ensures
        match verify_shift_open_spec::<F, Pcs>(
            *vp,
            *comm,
            num_vars as nat,
            k as int,
            T::model(),
            old(transcript).state(),
        ) {
            Ok((y, y_prime, s)) => res is Ok && res->Ok_0.0.val() == y && res->Ok_0.1.val()
                == y_prime && final(transcript).state() == s,
            Err(h) => transcript::halted(res, final(transcript).state(), h),
        },
        res matches Ok((y, y_prime)) ==> exists|r: Seq<int>, u: Seq<int>, f_u: int, w_u: int| #[trigger]
            acceptance::shows::<F, Pcs>(
                *vp,
                *comm,
                num_vars as nat,
                k as int,
                T::model(),
                old(transcript).state(),
                y.val(),
                y_prime.val(),
                r,
                u,
                f_u,
                w_u,
                final(transcript).state(),
            ),
{
    let ghost m = F::modulus();
    proof {
        acceptance::law_accepted_proof_shows::<F, Pcs>(
            *vp,
            *comm,
            num_vars as nat,
            k as int,
            T::model(),
            transcript.state(),
        );
    }
    if num_vars == 0 {
        return Err(
            Error::InvalidPcsParam("Polynomial must have at least 1 variable".to_string()),
        );
    }
    let r = match squeeze_point(k, num_vars, transcript) {
        Err(e) => {
            return Err(e);
        },
        Ok(r) => r,
    };
    let ghost rv = field::vals(r@);
    let ghost drawn = transcript.state();
    proof {
        transcript::lemma_squeeze_many_len(
            T::model(),
            absorb_header(T::model(), old(transcript).state(), k as int, num_vars as int, m)->Ok_0,
            num_vars as nat,
        );
        transcript::lemma_read_fields_len(T::model(), drawn, 2);
        assert(rv.len() == r@.len());
    }
    let ys = match transcript::read_field_elements::<Pcs::CommitmentChunk, F, T>(transcript, 2) {
        Err(e) => {
            return Err(e);
        },
        Ok(ys) => ys,
    };
    assert(ys@.len() == field::vals(ys@).len());
    let ghost before_sum = transcript.state();
    let (final_eval, u) = match sum_check::verify::<Pcs::CommitmentChunk, F, T>(
        Form::Evaluations,
        num_vars,
        ys[1],
        transcript,
    ) {
        Err(e) => {
            return Err(e);
        },
        Ok(out) => out,
    };
    let ghost uv = field::vals(u@);
    proof {
        sum_check::lemma_read_challenges_len(T::model(), before_sum, num_vars as nat);
        transcript::lemma_read_fields_len(T::model(), transcript.state(), 2);
        assert(uv.len() == u@.len());
    }
    let ends = match transcript::read_field_elements::<Pcs::CommitmentChunk, F, T>(transcript, 2) {
        Err(e) => {
            return Err(e);
        },
        Ok(ends) => ends,
    };
    assert(ends@.len() == field::vals(ends@).len());
    let f_u = ends[0];
    let w_u = ends[1];
    if !f_u.mul(w_u).equals(final_eval) {
        return Err(
            Error::InvalidSumcheck(
                "Final evaluation check failed: f(u) * w(u) != claimed".to_string(),
            ),
        );
    }
    let computed_w_u = compute_weight_at_point(num_vars, k, &r, &u);
    if !w_u.equals(computed_w_u) {
        return Err(
            Error::InvalidSumcheck(
                "Weight evaluation mismatch: claimed w(u) != computed w(u)".to_string(),
            ),
        );
    }
    match Pcs::verify(vp, comm, &u, &f_u, transcript) {
        Err(e) => Err(e),
        Ok(()) => Ok((ys[0], ys[1])),
    }
}

/// Drawing the point keeps reader and writer together.
proof fn lemma_draw_point_mirrors<C>(
    mo: Model<C>,
    w: State<C>,
    r: State<C>,
    k: int,
    num_vars: nat,
    m: int,
    whole: Seq<u8>,
)
    requires
        transcript::mirrors(w, r, whole),
        draw_point(mo, w, k, num_vars, m) is Ok,
    ensures
        ({
            let (point, drawn) = draw_point(mo, w, k, num_vars, m)->Ok_0;
            &&& point.len() == num_vars
            &&& drawn.proof == w.proof
            &&& draw_point(mo, r, k, num_vars, m) matches Ok((p, s)) && p == point
                && transcript::mirrors(drawn, s, whole)
        }),
{
    let a = absorb_header(mo, w, k, num_vars as int, m)->Ok_0;
    let b = absorb_header(mo, r, k, num_vars as int, m)->Ok_0;
    assert(a.events == b.events);
    transcript::lemma_squeeze_many_mirrors(mo, a, b, num_vars, whole);
    transcript::lemma_squeeze_many_len(mo, a, num_vars);
}

/// The claimed value of the shifted extension is what the sum-check's products sum to.
proof fn lemma_claim_is_shifted_value(evals: Seq<int>, k: int, r: Seq<int>, m: int)
    requires
        m > 0,
        evals.len() == pow2(r.len()),
    ensures
        sum_check::claim(shift_products(evals, k, r, m)) % m == claimed_values(evals, k, r, m)[1],
{
    let ts = shift_products(evals, k, r, m);
    let ws = hypercube::weights(k, r);
    let reduced = modular::reduce_seq(ws, m);
    reveal_with_fuel(sum_check::claim, 2);
    assert(sum_check::claim(ts.drop_last()) == 0);
    let d = sum::dot(evals, reduced);
    assert(1 * d == d);
    assert(ts.last().scalar == 1 && ts.last().lhs == evals && ts.last().rhs == reduced);
    assert(sum_check::claim(ts) == sum_check::claim(ts.drop_last()) + ts.last().scalar * d);
    assert(sum_check::claim(ts) == d);
    sum_check::lemma_reduced_cong(ws, m);
    assert(modular::cong_seq(evals, evals, m));
    sum::lemma_dot_cong(evals, reduced, evals, ws, m);
    hypercube::law_shift_is_weighted_sum(evals, k, r);
}

/// The product of the values sent last is the products' value at the challenges.
proof fn lemma_final_product(evals: Seq<int>, k: int, r: Seq<int>, u: Seq<int>, m: int)
    requires
        m > 0,
    ensures
        ({
            let ends = final_values(evals, k, r, u, m);
            (ends[0] * ends[1]) % m == sum_check::value_at(shift_products(evals, k, r, m), u) % m
        }),
{
    let ts = shift_products(evals, k, r, m);
    let ws = hypercube::weights(k, r);
    let reduced = modular::reduce_seq(ws, m);
    let ends = final_values(evals, k, r, u, m);
    reveal_with_fuel(sum_check::value_at, 2);
    assert(ts.drop_last().len() == 0);
    let a = hypercube::mle(evals, u);
    let b = hypercube::mle(ws, u);
    let c = hypercube::mle(reduced, u);
    sum_check::lemma_reduced_cong(ws, m);
    assert(modular::cong_seq(u, u, m));
    hypercube::lemma_mle_cong(reduced, ws, u, u, m);
    modular::lemma_cong_reduced(a, m);
    modular::lemma_cong_reduced(b, m);
    modular::lemma_cong_mul(ends[0], a, ends[1], b, m);
    modular::lemma_cong_mul(a, a, c, b, m);
    assert(sum_check::value_at(ts.drop_last(), u) == 0);
    let d = a * c;
    assert(1 * d == d);
    assert(ts.last().scalar == 1 && ts.last().lhs == evals && ts.last().rhs == reduced);
    assert(sum_check::value_at(ts, u) == sum_check::value_at(ts.drop_last(), u) + ts.last().scalar * d);
    assert(sum_check::value_at(ts, u) == d);
}

/// The sum-check succeeds on a transcript that refuses nothing.
pub proof fn lemma_prove_sum_succeeds<C>(
    evals: Seq<int>,
    num_vars: nat,
    k: int,
    r: Seq<int>,
    mo: Model<C>,
    st: State<C>,
    m: int,
)
    requires
        transcript::never_refuses(mo),
    ensures
        prove_sum(evals, num_vars, k, r, mo, st, m) is Ok,
{
    let ys = claimed_values(evals, k, r, m);
    transcript::lemma_write_fields_succeeds(mo, st, ys);
    sum_check::lemma_prove_rounds_succeeds(
        Form::Evaluations,
        mo,
        transcript::write_fields(mo, st, ys)->Ok_0,
        shift_products(evals, k, r, m),
        ys[1],
        num_vars,
        m,
    );
}

/// Proving only ever appends.
pub proof fn lemma_shift_open_appends<F: PrimeField, Pcs: PolynomialCommitmentScheme<F>>(
    pp: Pcs::ProverParam,
    vp: Pcs::VerifierParam,
    comm: Pcs::Commitment,
    evals: Seq<int>,
    num_vars: nat,
    k: int,
    mo: Model<Pcs::CommitmentChunk>,
    w: State<Pcs::CommitmentChunk>,
)
    requires
        pcs::opens_honestly::<F, Pcs>(pp, vp, comm, comm, evals, num_vars, mo),
        prove_shift_open_spec::<F, Pcs>(pp, evals, comm, num_vars, k, mo, w) is Ok,
    ensures
        transcript::starts_with(
            prove_shift_open_spec::<F, Pcs>(pp, evals, comm, num_vars, k, mo, w)->Ok_0.proof,
            w,
        ),
{
    let m = F::modulus();
    let done = prove_shift_open_spec::<F, Pcs>(pp, evals, comm, num_vars, k, mo, w)->Ok_0;
    let (point, drawn) = draw_point(mo, w, k, num_vars, m)->Ok_0;
    let head = absorb_header(mo, w, k, num_vars as int, m)->Ok_0;
    transcript::lemma_squeeze_many_mirrors(
        mo,
        head,
        State { events: head.events, proof: Seq::empty() },
        num_vars,
        head.proof + Seq::empty(),
    );
    let ys = claimed_values(evals, k, point, m);
    let s1 = transcript::write_fields(mo, drawn, ys)->Ok_0;
    let ts = shift_products(evals, k, point, m);
    let p = prove_sum(evals, num_vars, k, point, mo, drawn, m)->Ok_0;
    let ends = final_values(evals, k, point, p.challenges, m);
    let s2 = transcript::write_fields(mo, p.state, ends)->Ok_0;
    sum_check::lemma_challenges_len(Form::Evaluations, mo, s1, ts, ys[1], num_vars, m);
    assert(Pcs::open_spec(pp, evals, comm, p.challenges, ends[0], mo, s2) is Ok);
    transcript::lemma_write_fields_appends(mo, p.state, ends);
    sum_check::lemma_prove_rounds_appends(Form::Evaluations, mo, s1, ts, ys[1], num_vars, m);
    transcript::lemma_write_fields_appends(mo, drawn, ys);
    transcript::lemma_starts_trans(done.proof, p.state, s2);
    transcript::lemma_starts_trans(done.proof, s1, p.state);
    transcript::lemma_starts_trans(done.proof, drawn, s1);
}

/// Completeness: whoever reads the proof that `prove_shift_open` writes accepts it, and
/// gets `(F(r), G(r))` for the point `r` drawn at its start, where `G` is the extension
/// of `x -> f((x + k) mod 2^n)`. The two values are the same if `k` is a multiple of `2^n`.
pub proof fn law_shift_open_is_complete<F: PrimeField, Pcs: PolynomialCommitmentScheme<F>>(
    pp: Pcs::ProverParam,
    vp: Pcs::VerifierParam,
    comm: Pcs::Commitment,
    evals: Seq<int>,
    num_vars: nat,
    k: int,
    mo: Model<Pcs::CommitmentChunk>,
    w: State<Pcs::CommitmentChunk>,
    r: State<Pcs::CommitmentChunk>,
    whole: Seq<u8>,
)
    requires
        evals.len() == pow2(num_vars),
        transcript::round_trips(mo, F::modulus()),
        pcs::opens_honestly::<F, Pcs>(pp, vp, comm, comm, evals, num_vars, mo),
        prove_shift_open_spec::<F, Pcs>(pp, evals, comm, num_vars, k, mo, w) is Ok,
        transcript::mirrors(w, r, whole),
        transcript::starts_with(
            whole,
            prove_shift_open_spec::<F, Pcs>(pp, evals, comm, num_vars, k, mo, w)->Ok_0,
        ),
    ensures
        transcript::starts_with(
            prove_shift_open_spec::<F, Pcs>(pp, evals, comm, num_vars, k, mo, w)->Ok_0.proof,
            w,
        ),
        draw_point(mo, w, k, num_vars, F::modulus()) is Ok,
        ({
            let m = F::modulus();
            let done = prove_shift_open_spec::<F, Pcs>(pp, evals, comm, num_vars, k, mo, w)->Ok_0;
            let point = draw_point(mo, w, k, num_vars, m)->Ok_0.0;
            verify_shift_open_spec::<F, Pcs>(vp, comm, num_vars, k, mo, r) matches Ok((y, z, s)) && {
                &&& y == hypercube::mle(evals, point) % m
                &&& z == hypercube::mle(hypercube::shift(evals, k), point) % m
                &&& transcript::mirrors(done, s, whole)
                &&& k % (evals.len() as int) == 0 ==> y == z
            }
        }),
{
    let m = F::modulus();
    F::modulus_is_odd();
    let done = prove_shift_open_spec::<F, Pcs>(pp, evals, comm, num_vars, k, mo, w)->Ok_0;
    let (point, drawn) = draw_point(mo, w, k, num_vars, m)->Ok_0;
    lemma_draw_point_mirrors(mo, w, r, k, num_vars, m, whole);
    let drawn_r = draw_point(mo, r, k, num_vars, m)->Ok_0.1;
    let ys = claimed_values(evals, k, point, m);
    let s1 = transcript::write_fields(mo, drawn, ys)->Ok_0;
    let ts = shift_products(evals, k, point, m);
    let p = prove_sum(evals, num_vars, k, point, mo, drawn, m)->Ok_0;
    let ends = final_values(evals, k, point, p.challenges, m);
    let s2 = transcript::write_fields(mo, p.state, ends)->Ok_0;
    sum_check::lemma_challenges_len(Form::Evaluations, mo, s1, ts, ys[1], num_vars, m);
    assert(Pcs::open_spec(pp, evals, comm, p.challenges, ends[0], mo, s2) is Ok);
    transcript::lemma_starts_trans(whole, s2, done);
    transcript::lemma_write_fields_appends(mo, p.state, ends);
    transcript::lemma_starts_trans(whole, p.state, s2);
    sum_check::lemma_prove_rounds_appends(Form::Evaluations, mo, s1, ts, ys[1], num_vars, m);
    transcript::lemma_starts_trans(whole, s1, p.state);
    transcript::lemma_write_fields_appends(mo, drawn, ys);
    lemma_shift_open_appends::<F, Pcs>(pp, vp, comm, evals, num_vars, k, mo, w);
    transcript::lemma_fields_read_back(mo, m, drawn, drawn_r, ys, whole);
    let r1 = transcript::read_fields(mo, drawn_r, 2)->Ok_0.1;
    lemma_claim_is_shifted_value(evals, k, point, m);
    assert(sum_check::of_size(ts, num_vars));
    sum_check::law_honest_proof_is_accepted(Form::Evaluations, mo, s1, r1, ts, num_vars, m, whole);
    let (r2, left, u) = sum_check::verify_rounds(Form::Evaluations, mo, r1, ys[1], num_vars, m)->Ok_0;
    transcript::lemma_fields_read_back(mo, m, p.state, r2, ends, whole);
    let r3 = transcript::read_fields(mo, r2, 2)->Ok_0.1;
    lemma_final_product(evals, k, point, u, m);
    assert(transcript::mirrors(s2, r3, whole));
    if k % (evals.len() as int) == 0 {
        power2::lemma_pow2_pos(num_vars);
        law_whole_turns_change_nothing(evals, k);
    }
}

/// The proof begins with `F(r)` and `G(r)`.
pub proof fn lemma_values_lead<F: PrimeField, Pcs: PolynomialCommitmentScheme<F>>(
    pp: Pcs::ProverParam,
    vp: Pcs::VerifierParam,
    comm: Pcs::Commitment,
    evals: Seq<int>,
    num_vars: nat,
    k: int,
    mo: Model<Pcs::CommitmentChunk>,
    w: State<Pcs::CommitmentChunk>,
)
    requires
        pcs::opens_honestly::<F, Pcs>(pp, vp, comm, comm, evals, num_vars, mo),
        prove_shift_open_spec::<F, Pcs>(pp, evals, comm, num_vars, k, mo, w) is Ok,
    ensures
        ({
            let m = F::modulus();
            let done = prove_shift_open_spec::<F, Pcs>(pp, evals, comm, num_vars, k, mo, w)->Ok_0;
            let point = draw_point(mo, w, k, num_vars, m)->Ok_0.0;
            let ys = claimed_values(evals, k, point, m);
            (w.proof + (mo.spell)(Item::Field(ys[0])) + (mo.spell)(
                Item::Field(ys[1]),
            )).is_prefix_of(done.proof)
        }),
{
    let m = F::modulus();
    let done = prove_shift_open_spec::<F, Pcs>(pp, evals, comm, num_vars, k, mo, w)->Ok_0;
    let (point, drawn) = draw_point(mo, w, k, num_vars, m)->Ok_0;
    lemma_draw_point_mirrors(mo, w, w, k, num_vars, m, w.proof + w.proof);
    let ys = claimed_values(evals, k, point, m);
    let s1 = transcript::write_fields(mo, drawn, ys)->Ok_0;
    let ts = shift_products(evals, k, point, m);
    let p = prove_sum(evals, num_vars, k, point, mo, drawn, m)->Ok_0;
    let ends = final_values(evals, k, point, p.challenges, m);
    let s2 = transcript::write_fields(mo, p.state, ends)->Ok_0;
    sum_check::lemma_challenges_len(Form::Evaluations, mo, s1, ts, ys[1], num_vars, m);
    assert(Pcs::open_spec(pp, evals, comm, p.challenges, ends[0], mo, s2) is Ok);
    transcript::lemma_write_fields_appends(mo, p.state, ends);
    sum_check::lemma_prove_rounds_appends(Form::Evaluations, mo, s1, ts, ys[1], num_vars, m);
    transcript::lemma_starts_trans(done.proof, p.state, s2);
    transcript::lemma_starts_trans(done.proof, s1, p.state);
    reveal_with_fuel(transcript::write_fields, 3);
    let first = ys.drop_last();
    assert(first.drop_last().len() == 0 && first.last() == ys[0] && ys.last() == ys[1]);
}

/// Whoever reads an honest proof in which `changed` stands in place of `y'` refuses it, unless
/// `changed` reads as `y'` too. What follows `y'` in the proof is `rest`.
pub proof fn law_changed_value_is_refused<F: PrimeField, Pcs: PolynomialCommitmentScheme<F>>(
    pp: Pcs::ProverParam,
    vp: Pcs::VerifierParam,
    comm: Pcs::Commitment,
    evals: Seq<int>,
    num_vars: nat,
    k: int,
    mo: Model<Pcs::CommitmentChunk>,
    w: State<Pcs::CommitmentChunk>,
    r: State<Pcs::CommitmentChunk>,
    changed: Seq<u8>,
    rest: Seq<u8>,
)
    requires
        evals.len() == pow2(num_vars),
        transcript::round_trips(mo, F::modulus()),
        pcs::opens_honestly::<F, Pcs>(pp, vp, comm, comm, evals, num_vars, mo),
        prove_shift_open_spec::<F, Pcs>(pp, evals, comm, num_vars, k, mo, w) is Ok,
        w.events == r.events,
        ({
            let m = F::modulus();
            let done = prove_shift_open_spec::<F, Pcs>(pp, evals, comm, num_vars, k, mo, w)->Ok_0;
            let point = draw_point(mo, w, k, num_vars, m)->Ok_0.0;
            let ys = claimed_values(evals, k, point, m);
            &&& done.proof == w.proof + (mo.spell)(Item::Field(ys[0])) + (mo.spell)(
                Item::Field(ys[1]),
            ) + rest
            &&& r.proof == (mo.spell)(Item::Field(ys[0])) + (changed + rest)
            &&& (mo.parse_field)(changed + rest) matches Ok((z, left)) ==> z != ys[1] && left
                == rest
        }),
    ensures
        verify_shift_open_spec::<F, Pcs>(vp, comm, num_vars, k, mo, r) is Err,
{
    let m = F::modulus();
    F::modulus_is_odd();
    let done = prove_shift_open_spec::<F, Pcs>(pp, evals, comm, num_vars, k, mo, w)->Ok_0;
    let (point, drawn) = draw_point(mo, w, k, num_vars, m)->Ok_0;
    let seen = w.proof + r.proof;
    lemma_draw_point_mirrors(mo, w, r, k, num_vars, m, seen);
    let drawn_r = draw_point(mo, r, k, num_vars, m)->Ok_0.1;
    assert(drawn_r.proof =~= r.proof) by {
        assert((w.proof + drawn_r.proof).len() == seen.len());
        assert forall|i: int| 0 <= i < r.proof.len() implies drawn_r.proof[i] == r.proof[i] by {
            assert((w.proof + drawn_r.proof)[w.proof.len() + i] == seen[w.proof.len() + i]);
        }
    }
    let ys = claimed_values(evals, k, point, m);
    let s1 = transcript::write_fields(mo, drawn, ys)->Ok_0;
    let ts = shift_products(evals, k, point, m);
    let p = prove_sum(evals, num_vars, k, point, mo, drawn, m)->Ok_0;
    let ends = final_values(evals, k, point, p.challenges, m);
    let s2 = transcript::write_fields(mo, p.state, ends)->Ok_0;
    sum_check::lemma_challenges_len(Form::Evaluations, mo, s1, ts, ys[1], num_vars, m);
    assert(Pcs::open_spec(pp, evals, comm, p.challenges, ends[0], mo, s2) is Ok);
    transcript::lemma_write_fields_appends(mo, p.state, ends);
    transcript::lemma_starts_trans(done.proof, p.state, s2);
    reveal_with_fuel(transcript::write_fields, 3);
    reveal_with_fuel(transcript::read_fields, 3);
    let first = ys.drop_last();
    assert(first.drop_last().len() == 0 && first.last() == ys[0] && ys.last() == ys[1]);
    assert(s1.proof == w.proof + (mo.spell)(Item::Field(ys[0])) + (mo.spell)(Item::Field(ys[1])));
    assert((mo.parse_field)((mo.spell)(Item::Field(ys[0])) + (changed + rest)) == Ok::<
        (int, Seq<u8>),
        (ErrorView, Seq<u8>),
    >((ys[0], changed + rest)));
    lemma_claim_is_shifted_value(evals, k, point, m);
    assert(sum_check::of_size(ts, num_vars));
    if transcript::read_fields(mo, drawn_r, 2) is Ok {
        let (zs, r1) = transcript::read_fields(mo, drawn_r, 2)->Ok_0;
        assert(r1.proof == rest && zs[1] != ys[1]);
        sum_check::law_another_sum_is_refused(
            Form::Evaluations,
            mo,
            s1,
            r1,
            ts,
            zs[1],
            num_vars,
            m,
            done.proof,
        );
    }
}

/// Shifting by a multiple of the length changes nothing.
pub proof fn law_whole_turns_change_nothing(f: Seq<int>, k: int)
    requires
        f.len() > 0,
        k % (f.len() as int) == 0,
    ensures
        hypercube::shift(f, k) == f,
{
    let n = f.len() as int;
    assert forall|x: int| 0 <= x < n implies hypercube::shift(f, k)[x] == f[x] by {
        lemma_add_mod_noop(x, k, n);
        modular::lemma_small(x, n);
    }
    assert(hypercube::shift(f, k) =~= f);
}

} // verus!
