//! Commitment schemes for multilinear polynomials.

pub mod additive;
pub mod brakedown;
pub mod merkle;

pub use brakedown::{
    BrakedownCommitment, BrakedownParam, BrakedownPcs, BrakedownProverParam, BrakedownVerifierParam,
};
pub use merkle::{MerkleNode, MerkleTree};

use crate::pcs;
use crate::poly::hypercube;
use crate::poly::multilinear;
use crate::poly::multilinear::MultilinearPolynomial;
use crate::util::field;
use crate::util::field::PrimeField;
use crate::util::integer;
use crate::util::modular;
use crate::util::sum;
use crate::util::text;
use crate::{Error, ErrorView};
use vstd::arithmetic::power2;
use vstd::arithmetic::power2::pow2;
use vstd::prelude::*;

verus! {

/// The message for a polynomial with too many variables.
pub open spec fn too_many_text(function: Seq<char>, upto: nat, got: nat) -> Seq<char> {
    (if function == "trim"@ {
        "Too many variates to "@
    } else {
        "Too many variates of poly to "@
    }) + function + " (param supports variates up to "@ + text::decimal(upto) + " but got "@
        + text::decimal(got) + ")"@
}

/// The message for a point with the wrong number of coordinates.
pub open spec fn invalid_point_text(expected: nat, got: nat) -> Seq<char> {
    "Invalid point (expect point to have "@ + text::decimal(expected) + " variates but got "@
        + text::decimal(got) + ")"@
}

/// The first entry above `upto`.
pub open spec fn first_above(s: Seq<nat>, upto: nat) -> Option<nat>
    decreases s.len(),
{
    if s.len() == 0 {
        None
    } else if s[0] > upto {
        Some(s[0])
    } else {
        first_above(s.drop_first(), upto)
    }
}

/// The first entry other than `expected`.
pub open spec fn first_other(s: Seq<nat>, expected: nat) -> Option<nat>
    decreases s.len(),
{
    if s.len() == 0 {
        None
    } else if s[0] != expected {
        Some(s[0])
    } else {
        first_other(s.drop_first(), expected)
    }
}

/// The error for polynomials and points, given by their numbers of variables, if there is
/// one: a polynomial with more variables than `upto`, or a point that does not have as
/// many coordinates as the first polynomial, or the first point, has variables.
pub open spec fn input_error(
    function: Seq<char>,
    upto: nat,
    polys: Seq<nat>,
    points: Seq<nat>,
) -> Option<ErrorView> {
    let expected = if polys.len() > 0 {
        polys[0]
    } else {
        points[0]
    };
    match first_above(polys, upto) {
        Some(got) => Some(ErrorView::InvalidPcsParam(too_many_text(function, upto, got))),
        None => match first_other(points, expected) {
            Some(got) => Some(ErrorView::InvalidPcsParam(invalid_point_text(expected, got))),
            None => None,
        },
    }
}

/// How many variables functions with the given values have.
pub open spec fn variables(polys: Seq<Seq<int>>) -> Seq<nat> {
    polys.map_values(|p: Seq<int>| integer::floor_log2(p.len()))
}

/// How many coordinates the points have.
pub open spec fn lengths(points: Seq<Seq<int>>) -> Seq<nat> {
    points.map_values(|p: Seq<int>| p.len())
}

/// The error for a polynomial with too many variables.
pub fn err_too_many_variates(function: &str, upto: usize, got: usize) -> (r: Error)
    ensures
        r@ == ErrorView::InvalidPcsParam(too_many_text(function@, upto as nat, got as nat)),
{
    let trim = "trim".to_string();
    let mut s = if function.to_string() == trim {
        "Too many variates to ".to_string()
    } else {
        "Too many variates of poly to ".to_string()
    };
    s.append(function);
    s.append(" (param supports variates up to ");
    text::append_number(&mut s, upto, " but got ");
    text::append_number(&mut s, got, ")");
    assert(s@ =~= too_many_text(function@, upto as nat, got as nat));
    Error::InvalidPcsParam(s)
}

/// Checks that no polynomial has more variables than `param_num_vars`, and that all
/// points have as many coordinates as the first polynomial, or the first point.
pub fn validate_input<F: PrimeField>(
    function: &str,
    param_num_vars: usize,
    polys: &[&MultilinearPolynomial<F>],
    points: &[Vec<F>],
) -> (r: Result<(), Error>)
    requires
        polys@.len() + points@.len() > 0,
    ensures
        match input_error(
            function@,
            param_num_vars as nat,
            variables(pcs::polys_vals(polys@)),
            lengths(pcs::points_vals(points@)),
        ) {
            Some(e) => r is Err && r->Err_0@ == e,
            None => r is Ok,
        },
{
    let ghost pv = variables(pcs::polys_vals(polys@));
    let ghost lv = lengths(pcs::points_vals(points@));
    let mut i: usize = 0;
    assert(pv.skip(0) =~= pv);
    while i < polys.len()
        invariant
            i <= polys.len(),
            pv == variables(pcs::polys_vals(polys@)),
            lv == lengths(pcs::points_vals(points@)),
            first_above(pv, param_num_vars as nat) == first_above(
                pv.skip(i as int),
                param_num_vars as nat,
            ),
        decreases polys.len() - i,
    {
        let n = polys[i].num_vars();
        assert(pcs::polys_vals(polys@)[i as int] == polys@[i as int].vals());
        assert(pv[i as int] == n);
        assert(pv.skip(i as int).drop_first() =~= pv.skip(i + 1));
        if param_num_vars < n {
            return Err(err_too_many_variates(function, param_num_vars, n));
        }
        i = i + 1;
    }
    let expected = if polys.len() > 0 {
        let n = polys[0].num_vars();
        assert(pcs::polys_vals(polys@)[0] == polys@[0].vals());
        n
    } else {
        points[0].len()
    };
    let ghost ev = if pv.len() > 0 {
        pv[0]
    } else {
        lv[0]
    };
    assert(expected == ev);
    let mut j: usize = 0;
    assert(lv.skip(0) =~= lv);
    while j < points.len()
        invariant
            j <= points.len(),
            pv == variables(pcs::polys_vals(polys@)),
            lv == lengths(pcs::points_vals(points@)),
            first_above(pv, param_num_vars as nat) is None,
            expected == ev,
            ev == (if pv.len() > 0 {
                pv[0]
            } else {
                lv[0]
            }),
            first_other(lv, ev) == first_other(lv.skip(j as int), ev),
        decreases points.len() - j,
    {
        let n = points[j].len();
        assert(lv[j as int] == n);
        assert(lv.skip(j as int).drop_first() =~= lv.skip(j + 1));
        if n != expected {
            let mut s = text::with_number(
                "Invalid point (expect point to have ",
                expected,
                " variates but got ",
            );
            text::append_number(&mut s, n, ")");
            assert(s@ =~= invalid_point_text(expected as nat, n as nat));
            return Err(Error::InvalidPcsParam(s));
        }
        j = j + 1;
    }
    Ok(())
}

proof fn lemma_none_above(s: Seq<nat>, upto: nat)
    requires
        first_above(s, upto) is None,
    ensures
        forall|i: int| 0 <= i < s.len() ==> #[trigger] s[i] <= upto,
    decreases s.len(),
{
    if s.len() > 0 {
        lemma_none_above(s.drop_first(), upto);
        assert forall|i: int| 0 <= i < s.len() implies #[trigger] s[i] <= upto by {
            if i > 0 {
                assert(s.drop_first()[i - 1] <= upto);
            }
        }
    }
}

proof fn lemma_none_other(s: Seq<nat>, expected: nat)
    requires
        first_other(s, expected) is None,
    ensures
        forall|i: int| 0 <= i < s.len() ==> #[trigger] s[i] == expected,
    decreases s.len(),
{
    if s.len() > 0 {
        lemma_none_other(s.drop_first(), expected);
        assert forall|i: int| 0 <= i < s.len() implies #[trigger] s[i] == expected by {
            if i > 0 {
                assert(s.drop_first()[i - 1] == expected);
            }
        }
    }
}

/// `evals` with all variables from the `i`th on set to the coordinates of `point`.
pub open spec fn remainder(evals: Seq<int>, point: Seq<int>, i: nat) -> Seq<int>
    decreases point.len() - i,
{
    if i >= point.len() {
        evals
    } else {
        hypercube::fold_last(remainder(evals, point, i + 1), point[i as int])
    }
}

/// The quotient for variable `i`: by how much the values grow with that variable, once
/// all later variables are set.
pub open spec fn quotient(evals: Seq<int>, point: Seq<int>, i: nat) -> Seq<int> {
    let r = remainder(evals, point, i + 1);
    let h = (r.len() / 2) as nat;
    Seq::new(h, |b: int| r[b + h] - r[b])
}

/// The remainder over `i` variables has `2^i` values.
proof fn lemma_remainder_len(evals: Seq<int>, point: Seq<int>, i: nat)
    requires
        evals.len() == pow2(point.len()),
        i <= point.len(),
    ensures
        remainder(evals, point, i).len() == pow2(i),
    decreases point.len() - i,
{
    if i < point.len() {
        lemma_remainder_len(evals, point, i + 1);
        hypercube::lemma_pow2_step(i);
    }
}

/// Setting all variables evaluates the extension.
proof fn lemma_remainder_mle(evals: Seq<int>, point: Seq<int>, i: nat)
    requires
        evals.len() == pow2(point.len()),
        i <= point.len(),
    ensures
        hypercube::mle(remainder(evals, point, i), point.take(i as int)) == hypercube::mle(
            evals,
            point,
        ),
    decreases point.len() - i,
{
    if i == point.len() {
        assert(point.take(i as int) =~= point);
    } else {
        lemma_remainder_mle(evals, point, i + 1);
        lemma_remainder_len(evals, point, i + 1);
        let longer = point.take((i + 1) as int);
        hypercube::lemma_mle_fold_last(remainder(evals, point, i + 1), longer);
        assert(longer.drop_last() =~= point.take(i as int));
        assert(longer.last() == point[i as int]);
    }
}

/// The difference of the values at `z` and at `point` is the sum over all variables `i`
/// of `(z_i - point_i)` times the value of quotient `i` at the first `i` coordinates of `z`.
pub proof fn law_quotients_divide(evals: Seq<int>, point: Seq<int>, z: Seq<int>)
    requires
        evals.len() == pow2(point.len()),
        z.len() == point.len(),
    ensures
        hypercube::mle(evals, z) - hypercube::mle(evals, point) == sum::sum_to(
            |i: int|
                (z[i] - point[i]) * hypercube::mle(quotient(evals, point, i as nat), z.take(i)),
            point.len(),
        ),
{
    lemma_quotients_partial(evals, point, z, point.len());
    assert(z.take(z.len() as int) =~= z);
    lemma_remainder_mle(evals, point, 0);
    lemma_remainder_len(evals, point, 0);
    assert(point.take(0) =~= z.take(0));
}

/// The telescoping sum over the first `n` variables.
proof fn lemma_quotients_partial(evals: Seq<int>, point: Seq<int>, z: Seq<int>, n: nat)
    requires
        evals.len() == pow2(point.len()),
        z.len() == point.len(),
        n <= point.len(),
    ensures
        hypercube::mle(remainder(evals, point, n), z.take(n as int)) - hypercube::mle(
            remainder(evals, point, 0),
            z.take(0),
        ) == sum::sum_to(
            |i: int|
                (z[i] - point[i]) * hypercube::mle(quotient(evals, point, i as nat), z.take(i)),
            n,
        ),
    decreases n,
{
    if n > 0 {
        let p = (n - 1) as nat;
        lemma_quotients_partial(evals, point, z, p);
        let r = remainder(evals, point, n);
        let q = quotient(evals, point, p);
        let rest = remainder(evals, point, p);
        lemma_remainder_len(evals, point, n);
        lemma_remainder_len(evals, point, p);
        hypercube::lemma_pow2_step(p);
        let h = pow2(p);
        let longer = z.take(n as int);
        let shorter = z.take(n - 1);
        hypercube::lemma_mle_fold_last(r, longer);
        assert(longer.drop_last() =~= shorter);
        let x = z[n - 1];
        let u = point[n - 1];
        let folded = hypercube::fold_last(r, x);
        let a = |b: int| rest[b] * hypercube::eq_at(b, shorter);
        let g = |b: int| q[b] * hypercube::eq_at(b, shorter);
        let scaled = |b: int| (x - u) * g(b);
        let whole = |b: int| folded[b] * hypercube::eq_at(b, shorter);
        assert forall|b: int| 0 <= b < h implies #[trigger] whole(b) == a(b) + scaled(b) by {
            let lo = r[b];
            let d = r[b + h] - r[b];
            let e = hypercube::eq_at(b, shorter);
            assert((lo + x * d) * e == (lo + u * d) * e + (x - u) * (d * e)) by (nonlinear_arith);
        }
        sum::lemma_sum_add(a, scaled, whole, h);
        sum::lemma_sum_scale(g, scaled, x - u, h);
    }
}

/// `out` is what `f` can make of elements that represent `quot`, for variable `i`.
pub open spec fn made_from<F: PrimeField, T, G: Fn(usize, Vec<F>) -> T>(
    f: G,
    i: usize,
    quot: Seq<int>,
    out: T,
) -> bool {
    exists|q: Vec<F>| field::represents(q@, quot) && #[trigger] call_ensures(f, (i, q), out)
}

/// The quotients of `poly` by the coordinates of `point`, each handed to `f` with the
/// number of its variable, and the value of `poly` at `point`.
pub fn quotients<F: PrimeField, T, G: Fn(usize, Vec<F>) -> T>(
    poly: &MultilinearPolynomial<F>,
    point: &[F],
    f: G,
) -> (r: (Vec<T>, F))
    requires
        poly@.len() == pow2(point@.len()),
        forall|i: usize, q: Vec<F>|
            i < point@.len() && field::represents(
                q@,
                quotient(poly.vals(), field::vals(point@), i as nat),
            ) ==> call_requires(f, (i, q)),
    ensures
        r.0@.len() == point@.len(),
        forall|i: int|
            0 <= i < point@.len() ==> made_from(
                f,
                i as usize,
                quotient(poly.vals(), field::vals(point@), i as nat),
                #[trigger] r.0@[i],
            ),
        r.1.val() == hypercube::mle(poly.vals(), field::vals(point@)) % F::modulus(),
{
    let ghost m = F::modulus();
    let ghost v = poly.vals();
    let ghost p = field::vals(point@);
    let n = point.len();
    let mut rest = multilinear::clone_elements(poly.evals());
    let mut out: Vec<T> = Vec::new();
    let mut i: usize = n;
    proof {
        F::modulus_is_odd();
        field::lemma_represents_vals(rest@);
    }
    while i > 0
        invariant
            i <= n,
            n == point@.len(),
            m == F::modulus(),
            m > 2,
            v == poly.vals(),
            p == field::vals(point@),
            v.len() == pow2(p.len()),
            field::represents(rest@, remainder(v, p, i as nat)),
            out@.len() == n - i,
            forall|i: usize, q: Vec<F>|
                i < point@.len() && field::represents(q@, quotient(v, p, i as nat))
                    ==> call_requires(f, (i, q)),
            forall|t: int|
                0 <= t < n - i ==> made_from(
                    f,
                    (i + t) as usize,
                    quotient(v, p, (i + t) as nat),
                    #[trigger] out@[t],
                ),
        decreases i,
    {
        let ghost before = remainder(v, p, i as nat);
        proof {
            lemma_remainder_len(v, p, i as nat);
            hypercube::lemma_pow2_step((i - 1) as nat);
            field::lemma_represents_cong(rest@, before);
        }
        let len = rest.len();
        let h = len / 2;
        let x = point[i - 1];
        let mut q: Vec<F> = Vec::new();
        let mut next: Vec<F> = Vec::new();
        let mut b: usize = 0;
        while b < h
            invariant
                0 < i <= n,
                b <= h,
                len == rest@.len(),
                2 * h == len,
                m == F::modulus(),
                m > 2,
                before == remainder(v, p, i as nat),
                before.len() == len,
                field::represents(rest@, before),
                x.val() == p[i - 1],
                i <= p.len(),
                q@.len() == b,
                next@.len() == b,
                forall|t: int|
                    0 <= t < b ==> (#[trigger] q@[t]).val() == quotient(v, p, (i - 1) as nat)[t] % m,
                forall|t: int|
                    0 <= t < b ==> (#[trigger] next@[t]).val() == remainder(
                        v,
                        p,
                        (i - 1) as nat,
                    )[t] % m,
            decreases h - b,
        {
            let lo = rest[b];
            let hi = rest[b + h];
            let d = hi.sub(lo);
            let y = multilinear::interpolate(lo, hi, x);
            proof {
                assert(lo.val() == before[b as int] % m);
                assert(hi.val() == before[b + h] % m);
                modular::lemma_cong_reduced(before[b as int], m);
                modular::lemma_cong_reduced(before[b + h], m);
                modular::lemma_cong_sub(
                    hi.val(),
                    before[b + h],
                    lo.val(),
                    before[b as int],
                    m,
                );
                modular::lemma_cong_mul(
                    x.val(),
                    x.val(),
                    hi.val() - lo.val(),
                    before[b + h] - before[b as int],
                    m,
                );
                modular::lemma_cong_add(
                    lo.val(),
                    before[b as int],
                    x.val() * (hi.val() - lo.val()),
                    x.val() * (before[b + h] - before[b as int]),
                    m,
                );
            }
            q.push(d);
            next.push(y);
            b = b + 1;
        }
        i = i - 1;
        let ghost older = out@;
        assert(field::represents(q@, quotient(v, p, i as nat)));
        let t = f(i, q);
        out.insert(0, t);
        rest = next;
        proof {
            assert(made_from(f, i, quotient(v, p, i as nat), t));
            assert forall|t: int| 0 <= t < n - i implies made_from(
                f,
                (i + t) as usize,
                quotient(v, p, (i + t) as nat),
                #[trigger] out@[t],
            ) by {
                if t > 0 {
                    assert(out@[t] == older[t - 1]);
                }
            }
        }
    }
    proof {
        lemma_remainder_len(v, p, 0);
        lemma_remainder_mle(v, p, 0);
        power2::lemma2_to64();
        hypercube::lemma_mle_single(remainder(v, p, 0), p.take(0));
    }
    (out, rest[0])
}

} // verus!
