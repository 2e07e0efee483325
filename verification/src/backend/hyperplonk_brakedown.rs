//! HyperPlonk over the Brakedown commitment scheme, with shifts proved by the shift-open
//! protocol.
//!
//! Rotated polynomials are not opened by the commitment scheme itself: after the circuit's
//! own proof, one shift-open proof is given for each rotated query of the expression.

pub mod acceptance;
pub mod laws;
pub mod protocol;
pub mod queries;
pub mod rounds;

use crate::backend::hyperplonk;
use crate::backend::hyperplonk::{HyperPlonkProverParam, HyperPlonkVerifierParam, Steps};
use crate::backend::{PlonkishCircuit, PlonkishCircuitInfo};
use crate::pcs;
use crate::pcs::multilinear::brakedown;
use crate::pcs::multilinear::brakedown::{BrakedownCommitment, BrakedownParam, BrakedownPcs};
use crate::pcs::PolynomialCommitmentScheme;
use crate::piop::shift_open;
use crate::poly::hypercube;
use crate::poly::multilinear;
use crate::poly::multilinear::MultilinearPolynomial;
use crate::util::code::BrakedownCode;
use crate::util::expression;
use crate::util::expression::{Expression, ExpressionView, Query, Rotation};
use crate::util::field;
use crate::util::field::PrimeField;
use crate::util::hash::{HashFunction, Keccak256};
use crate::util::integer;
use crate::util::transcript;
use crate::util::transcript::trace;
use crate::util::transcript::{TranscriptRead, TranscriptWrite};
use crate::{Error, ErrorView};
use std::marker::PhantomData;
use vstd::arithmetic::power2::pow2;
use vstd::prelude::*;

verus! {

/// A rotated query of an expression.
#[derive(Clone, Copy, Debug)]
pub struct ShiftConstraint {
    /// The polynomial that is rotated.
    pub poly_idx: usize,
    /// By how many places.
    pub k: usize,
    /// The rotation itself.
    pub rotation: Rotation,
}

/// The constraint for a query, if it is rotated.
pub open spec fn constraint_of(q: Query) -> Seq<ShiftConstraint> {
    if q.rotation == Rotation(0) {
        Seq::empty()
    } else {
        seq![
            ShiftConstraint {
                poly_idx: q.poly,
                k: expression::distance(q.rotation) as usize,
                rotation: q.rotation,
            },
        ]
    }
}

/// The constraints for all rotated queries of an expression, in the order in which they stand.
pub open spec fn shift_constraints(e: ExpressionView) -> Seq<ShiftConstraint>
    decreases e, 0nat,
{
    match e {
        ExpressionView::Constant(_) => Seq::empty(),
        ExpressionView::CommonPolynomial(_) => Seq::empty(),
        ExpressionView::Polynomial(q) => constraint_of(q),
        ExpressionView::Challenge(_) => Seq::empty(),
        ExpressionView::Negated(a) => shift_constraints(*a),
        ExpressionView::Sum(a, b) => shift_constraints(*a) + shift_constraints(*b),
        ExpressionView::Product(a, b) => shift_constraints(*a) + shift_constraints(*b),
        ExpressionView::Scaled(a, _) => shift_constraints(*a),
        ExpressionView::DistributePowers(es, b) => shift_constraints_of_all(es, es.len())
            + shift_constraints(*b),
    }
}

/// The constraints for the first `n` expressions of a list.
pub open spec fn shift_constraints_of_all(es: Seq<ExpressionView>, n: nat) -> Seq<ShiftConstraint>
    decreases es, n,
{
    if n == 0 || n > es.len() {
        Seq::empty()
    } else {
        shift_constraints_of_all(es, (n - 1) as nat) + shift_constraints(es[n - 1])
    }
}

/// Whether `c` is the constraint for the query `q`.
pub open spec fn stems_from(c: ShiftConstraint, q: Query) -> bool {
    c.poly_idx == q.poly && c.rotation == q.rotation
}

/// The first position in `shifts` of the constraint for `q`, or the end if there is none.
pub open spec fn position(shifts: Seq<ShiftConstraint>, q: Query) -> nat
    decreases shifts.len(),
{
    if shifts.len() == 0 {
        0
    } else {
        let before = position(shifts.drop_last(), q);
        if before < shifts.len() - 1 || stems_from(shifts.last(), q) {
            before
        } else {
            shifts.len()
        }
    }
}

/// The query that a constraint is for.
pub open spec fn query_of(c: ShiftConstraint) -> Query {
    Query { poly: c.poly_idx, rotation: c.rotation }
}

/// The first constraint for each query, in order.
pub open spec fn unique(shifts: Seq<ShiftConstraint>) -> Seq<ShiftConstraint>
    decreases shifts.len(),
{
    if shifts.len() == 0 {
        Seq::empty()
    } else {
        let before = unique(shifts.drop_last());
        if position(before, query_of(shifts.last())) < before.len() {
            before
        } else {
            before.push(shifts.last())
        }
    }
}

/// The expression with every rotated query replaced by an unrotated query of the polynomial
/// that stands, after `num_polys` others, where its constraint stands in `shifts`.
pub open spec fn without_rotations(
    e: ExpressionView,
    shifts: Seq<ShiftConstraint>,
    num_polys: nat,
) -> ExpressionView
    decreases e, 0nat,
{
    match e {
        ExpressionView::Constant(_) => e,
        ExpressionView::CommonPolynomial(_) => e,
        ExpressionView::Polynomial(q) => if q.rotation == Rotation(0) {
            e
        } else {
            ExpressionView::Polynomial(
                Query { poly: (num_polys + position(shifts, q)) as usize, rotation: Rotation(0) },
            )
        },
        ExpressionView::Challenge(_) => e,
        ExpressionView::Negated(a) => ExpressionView::Negated(
            Box::new(without_rotations(*a, shifts, num_polys)),
        ),
        ExpressionView::Sum(a, b) => ExpressionView::Sum(
            Box::new(without_rotations(*a, shifts, num_polys)),
            Box::new(without_rotations(*b, shifts, num_polys)),
        ),
        ExpressionView::Product(a, b) => ExpressionView::Product(
            Box::new(without_rotations(*a, shifts, num_polys)),
            Box::new(without_rotations(*b, shifts, num_polys)),
        ),
        ExpressionView::Scaled(a, c) => ExpressionView::Scaled(
            Box::new(without_rotations(*a, shifts, num_polys)),
            c,
        ),
        ExpressionView::DistributePowers(es, b) => ExpressionView::DistributePowers(
            all_without_rotations(es, es.len(), shifts, num_polys),
            Box::new(without_rotations(*b, shifts, num_polys)),
        ),
    }
}

/// As [`without_rotations`], for the first `n` expressions of a list.
pub open spec fn all_without_rotations(
    es: Seq<ExpressionView>,
    n: nat,
    shifts: Seq<ShiftConstraint>,
    num_polys: nat,
) -> Seq<ExpressionView>
    decreases es, n,
{
    if n == 0 || n > es.len() {
        Seq::empty()
    } else {
        all_without_rotations(es, (n - 1) as nat, shifts, num_polys).push(
            without_rotations(es[n - 1], shifts, num_polys),
        )
    }
}

/// A position is one of the list's, or its end. Where it is one of the list's, the constraint
/// for the query stands there; and a longer list does not change it.
proof fn lemma_position(shifts: Seq<ShiftConstraint>, q: Query, n: int)
    requires
        0 <= n <= shifts.len(),
    ensures
        position(shifts, q) <= shifts.len(),
        position(shifts, q) < shifts.len() ==> stems_from(
            shifts[position(shifts, q) as int],
            q,
        ),
        position(shifts.take(n), q) < n ==> position(shifts, q) == position(shifts.take(n), q),
        position(shifts, q) == shifts.len() ==> forall|i: int|
            0 <= i < shifts.len() ==> !stems_from(#[trigger] shifts[i], q),
    decreases shifts.len(),
{
    if shifts.len() > 0 {
        let rest = shifts.drop_last();
        if n < shifts.len() {
            assert(rest.take(n) =~= shifts.take(n));
            lemma_position(rest, q, n);
        } else {
            assert(shifts.take(n) =~= shifts);
            lemma_position(rest, q, n - 1);
        }
        assert forall|i: int| position(shifts, q) == shifts.len() && 0 <= i < shifts.len()
            implies !stems_from(#[trigger] shifts[i], q) by {
            if i < rest.len() {
                assert(rest[i] == shifts[i]);
            }
        }
    }
}

/// The list without repetitions is no longer than the list, and holds only what the list holds.
proof fn lemma_unique(shifts: Seq<ShiftConstraint>)
    ensures
        unique(shifts).len() <= shifts.len(),
        forall|i: int|
            0 <= i < unique(shifts).len() ==> shifts.contains(#[trigger] unique(shifts)[i]),
    decreases shifts.len(),
{
    if shifts.len() > 0 {
        let rest = shifts.drop_last();
        lemma_unique(rest);
        assert forall|i: int| 0 <= i < unique(shifts).len() implies shifts.contains(
            #[trigger] unique(shifts)[i],
        ) by {
            if i < unique(rest).len() {
                let c = unique(rest)[i];
                let j = choose|j: int| 0 <= j < rest.len() && rest[j] == c;
                assert(shifts[j] == c);
            } else {
                assert(shifts[shifts.len() - 1] == shifts.last());
            }
        }
    }
}

/// The constraints of a list's beginning, of which none is rotated, are none.
proof fn lemma_none_rotated(es: Seq<ExpressionView>, n: nat)
    requires
        n <= es.len(),
        forall|i: int| 0 <= i < n ==> shift_constraints(#[trigger] es[i]).len() == 0,
    ensures
        shift_constraints_of_all(es, n).len() == 0,
    decreases n,
{
    if n > 0 {
        lemma_none_rotated(es, (n - 1) as nat);
        assert(shift_constraints(es[n - 1]).len() == 0);
    }
}

/// Once its rotated queries are replaced, an expression has none, and one that has none
/// stays as it is.
pub proof fn law_replaced_expression_has_no_rotations(
    e: ExpressionView,
    shifts: Seq<ShiftConstraint>,
    num_polys: nat,
)
    ensures
        shift_constraints(without_rotations(e, shifts, num_polys)).len() == 0,
        shift_constraints(e).len() == 0 ==> without_rotations(e, shifts, num_polys) == e,
    decreases e, 0nat,
{
    match e {
        ExpressionView::Negated(a) => {
            law_replaced_expression_has_no_rotations(*a, shifts, num_polys);
        },
        ExpressionView::Sum(a, b) => {
            law_replaced_expression_has_no_rotations(*a, shifts, num_polys);
            law_replaced_expression_has_no_rotations(*b, shifts, num_polys);
        },
        ExpressionView::Product(a, b) => {
            law_replaced_expression_has_no_rotations(*a, shifts, num_polys);
            law_replaced_expression_has_no_rotations(*b, shifts, num_polys);
        },
        ExpressionView::Scaled(a, _) => {
            law_replaced_expression_has_no_rotations(*a, shifts, num_polys);
        },
        ExpressionView::DistributePowers(es, b) => {
            lemma_replaced_list(es, es.len(), shifts, num_polys);
            law_replaced_expression_has_no_rotations(*b, shifts, num_polys);
            let replaced = all_without_rotations(es, es.len(), shifts, num_polys);
            lemma_none_rotated(replaced, es.len());
            if shift_constraints(e).len() == 0 {
                assert(es.take(es.len() as int) =~= es);
            }
        },
        _ => {},
    }
}

/// As [`law_replaced_expression_has_no_rotations`], for the first `n` expressions of a list.
proof fn lemma_replaced_list(
    es: Seq<ExpressionView>,
    n: nat,
    shifts: Seq<ShiftConstraint>,
    num_polys: nat,
)
    requires
        n <= es.len(),
    ensures
        all_without_rotations(es, n, shifts, num_polys).len() == n,
        forall|i: int|
            0 <= i < n ==> shift_constraints(
                #[trigger] all_without_rotations(es, n, shifts, num_polys)[i],
            ).len() == 0,
        shift_constraints_of_all(es, n).len() == 0 ==> all_without_rotations(
            es,
            n,
            shifts,
            num_polys,
        ) == es.take(n as int),
    decreases es, n,
{
    if n > 0 {
        lemma_replaced_list(es, (n - 1) as nat, shifts, num_polys);
        law_replaced_expression_has_no_rotations(es[n - 1], shifts, num_polys);
        if shift_constraints_of_all(es, n).len() == 0 {
            assert(all_without_rotations(es, n, shifts, num_polys) =~= es.take(n as int));
        }
    }
}

/// Every constraint of a list is found in it once repetitions are left out.
proof fn lemma_unique_finds_all(shifts: Seq<ShiftConstraint>, i: int)
    requires
        0 <= i < shifts.len(),
    ensures
        position(unique(shifts), query_of(shifts[i])) < unique(shifts).len(),
    decreases shifts.len(),
{
    let rest = shifts.drop_last();
    let before = unique(rest);
    let q = query_of(shifts[i]);
    if i < rest.len() {
        assert(rest[i] == shifts[i]);
        lemma_unique_finds_all(rest, i);
    }
    assert(unique(shifts).take(before.len() as int) =~= before);
    lemma_position(unique(shifts), q, before.len() as int);
    lemma_position(before, q, 0);
}

/// Without repetitions, a list still holds a constraint for every query, and no two for
/// the same one.
pub proof fn law_rotations_are_counted_once(shifts: Seq<ShiftConstraint>)
    ensures
        forall|i: int|
            0 <= i < shifts.len() ==> {
                let at = position(unique(shifts), query_of(#[trigger] shifts[i]));
                at < unique(shifts).len() && stems_from(
                    unique(shifts)[at as int],
                    query_of(shifts[i]),
                )
            },
        forall|i: int, j: int|
            0 <= i < j < unique(shifts).len() ==> query_of(#[trigger] unique(shifts)[i])
                != query_of(#[trigger] unique(shifts)[j]),
    decreases shifts.len(),
{
    assert forall|i: int| 0 <= i < shifts.len() implies {
        let at = position(unique(shifts), query_of(#[trigger] shifts[i]));
        at < unique(shifts).len() && stems_from(unique(shifts)[at as int], query_of(shifts[i]))
    } by {
        lemma_unique_finds_all(shifts, i);
        lemma_position(unique(shifts), query_of(shifts[i]), 0);
    }
    if shifts.len() > 0 {
        let before = unique(shifts.drop_last());
        law_rotations_are_counted_once(shifts.drop_last());
        lemma_position(before, query_of(shifts.last()), 0);
        assert forall|i: int, j: int| 0 <= i < j < unique(shifts).len() implies query_of(
            #[trigger] unique(shifts)[i],
        ) != query_of(#[trigger] unique(shifts)[j]) by {
            assert(unique(shifts)[i] == before[i]);
            if j < before.len() {
                assert(unique(shifts)[j] == before[j]);
            } else {
                assert(!stems_from(before[i], query_of(shifts.last())));
            }
        }
    }
}

/// The first `2^n` values of `f`, shifted cyclically by `k` places.
pub open spec fn aux_values(f: Seq<int>, k: int, n: nat) -> Seq<int> {
    hypercube::shift(f.take(pow2(n) as int), k)
}

/// HyperPlonk over Brakedown.
#[verifier::reject_recursive_types(H)]
#[derive(Debug)]
pub struct HyperPlonkBrakedown<F: PrimeField, H: HashFunction = Keccak256> {
    marker: PhantomData<(F, H)>,
}

impl<F: PrimeField, H: HashFunction> HyperPlonkBrakedown<F, H> {
    /// The rotated queries of `expression`.
    pub fn extract_shift_constraints(expression: &Expression<F>) -> (r: Vec<ShiftConstraint>)
        ensures
            r@ == shift_constraints(expression@),
    {
        let mut shifts: Vec<ShiftConstraint> = Vec::new();
        Self::collect_rotations(expression, &mut shifts);
        assert(shifts@ =~= shift_constraints(expression@));
        shifts
    }

    /// Appends the rotated queries of `expr` to `shifts`.
    pub fn collect_rotations(expr: &Expression<F>, shifts: &mut Vec<ShiftConstraint>)
        ensures
            final(shifts)@ == old(shifts)@ + shift_constraints(expr@),
        decreases expr,
    {
        let ghost before = shifts@;
        match expr {
            Expression::Polynomial(query) => {
                if query.rotation() != Rotation::cur() {
                    let k = query.rotation().distance();
                    shifts.push(
                        ShiftConstraint { poly_idx: query.poly(), k, rotation: query.rotation() },
                    );
                }
                assert(shifts@ =~= before + shift_constraints(expr@));
            },
            Expression::Negated(inner) => {
                Self::collect_rotations(inner, shifts);
            },
            Expression::Sum(a, b) => {
                Self::collect_rotations(a, shifts);
                Self::collect_rotations(b, shifts);
                assert(shifts@ =~= before + shift_constraints(expr@));
            },
            Expression::Product(a, b) => {
                Self::collect_rotations(a, shifts);
                Self::collect_rotations(b, shifts);
                assert(shifts@ =~= before + shift_constraints(expr@));
            },
            Expression::Scaled(inner, _) => {
                Self::collect_rotations(inner, shifts);
            },
            Expression::DistributePowers(exprs, base) => {
                let ghost ev = expression::contents_of_all(exprs@, exprs@.len());
                let n = exprs.len();
                let mut i: usize = 0;
                proof {
                    expression::lemma_contents_of_all(exprs@, exprs@.len());
                }
                assert(shifts@ =~= before + shift_constraints_of_all(ev, 0));
                while i < n
                    invariant
                        i <= n,
                        n == exprs@.len(),
                        *expr == Expression::DistributePowers(*exprs, *base),
                        ev.len() == n,
                        forall|j: int|
                            0 <= j < n ==> #[trigger] ev[j] == expression::contents(exprs@[j]),
                        shifts@ == before + shift_constraints_of_all(ev, i as nat),
                    decreases n - i,
                {
                    assert(decreases_to!(*expr => expr->DistributePowers_0));
                    assert(decreases_to!(*exprs => exprs@));
                    assert(decreases_to!(exprs@ => exprs@[i as int]));
                    Self::collect_rotations(&exprs[i], shifts);
                    assert(ev[i as int] == expression::contents(exprs@[i as int]));
                    i = i + 1;
                    assert(shifts@ =~= before + shift_constraints_of_all(ev, i as nat));
                }
                Self::collect_rotations(base, shifts);
                assert(shifts@ =~= before + shift_constraints(expr@));
            },
            _ => {
                assert(shifts@ =~= before + shift_constraints(expr@));
            },
        }
    }

    /// The first position in `shifts` of the constraint for `query`, or the end.
    fn find(shifts: &Vec<ShiftConstraint>, query: Query) -> (r: usize)
        ensures
            r == position(shifts@, query),
    {
        let mut i: usize = 0;
        while i < shifts.len()
            invariant
                i <= shifts.len(),
                position(shifts@.take(i as int), query) == i,
            decreases shifts.len() - i,
        {
            let shift = shifts[i];
            assert(shifts@.take(i + 1).drop_last() =~= shifts@.take(i as int));
            if shift.poly_idx == query.poly && shift.rotation == query.rotation {
                proof {
                    lemma_position(shifts@, query, i + 1);
                }
                return i;
            }
            i = i + 1;
        }
        assert(shifts@.take(i as int) =~= shifts@);
        i
    }

    /// The first constraint for each query, in order.
    fn leave_out_repetitions(shifts: &Vec<ShiftConstraint>) -> (r: Vec<ShiftConstraint>)
        ensures
            r@ == unique(shifts@),
    {
        let mut r: Vec<ShiftConstraint> = Vec::new();
        let mut i: usize = 0;
        assert(shifts@.take(0) =~= Seq::empty());
        while i < shifts.len()
            invariant
                i <= shifts.len(),
                r@ == unique(shifts@.take(i as int)),
            decreases shifts.len() - i,
        {
            let shift = shifts[i];
            assert(shifts@.take(i + 1).drop_last() =~= shifts@.take(i as int));
            let at = Self::find(&r, Query::new(shift.poly_idx, shift.rotation));
            proof {
                lemma_position(r@, query_of(shift), 0);
            }
            if at == r.len() {
                r.push(shift);
            }
            i = i + 1;
        }
        assert(shifts@.take(i as int) =~= shifts@);
        r
    }

    /// The expression with its rotated queries replaced, see [`without_rotations`].
    fn replace_rotations(
        expr: &Expression<F>,
        shifts: &Vec<ShiftConstraint>,
        num_polys: usize,
    ) -> (r: Expression<F>)
        requires
            num_polys + shifts@.len() <= usize::MAX,
        ensures
            r@ == without_rotations(expr@, shifts@, num_polys as nat),
        decreases expr,
    {
        match expr {
            Expression::Constant(c) => Expression::Constant(*c),
            Expression::CommonPolynomial(p) => Expression::CommonPolynomial(*p),
            Expression::Polynomial(query) => {
                if query.rotation() != Rotation::cur() {
                    let at = Self::find(shifts, *query);
                    proof {
                        lemma_position(shifts@, *query, 0);
                    }
                    Expression::Polynomial(Query::new(num_polys + at, Rotation::cur()))
                } else {
                    Expression::Polynomial(*query)
                }
            },
            Expression::Challenge(i) => Expression::Challenge(*i),
            Expression::Negated(a) => Expression::Negated(
                Box::new(Self::replace_rotations(a, shifts, num_polys)),
            ),
            Expression::Sum(a, b) => Expression::Sum(
                Box::new(Self::replace_rotations(a, shifts, num_polys)),
                Box::new(Self::replace_rotations(b, shifts, num_polys)),
            ),
            Expression::Product(a, b) => Expression::Product(
                Box::new(Self::replace_rotations(a, shifts, num_polys)),
                Box::new(Self::replace_rotations(b, shifts, num_polys)),
            ),
            Expression::Scaled(a, c) => Expression::Scaled(
                Box::new(Self::replace_rotations(a, shifts, num_polys)),
                *c,
            ),
            Expression::DistributePowers(es, base) => {
                let ghost ev = expression::contents_of_all(es@, es@.len());
                let n = es.len();
                let mut replaced: Vec<Expression<F>> = Vec::new();
                let mut i: usize = 0;
                proof {
                    expression::lemma_contents_of_all(es@, es@.len());
                }
                while i < n
                    invariant
                        i <= n,
                        n == es@.len(),
                        *expr == Expression::DistributePowers(*es, *base),
                        num_polys + shifts@.len() <= usize::MAX,
                        ev.len() == n,
                        forall|j: int|
                            0 <= j < n ==> #[trigger] ev[j] == expression::contents(es@[j]),
                        replaced@.len() == i,
                        expression::contents_of_all(replaced@, i as nat) == all_without_rotations(
                            ev,
                            i as nat,
                            shifts@,
                            num_polys as nat,
                        ),
                    decreases n - i,
                {
                    assert(decreases_to!(*expr => expr->DistributePowers_0));
                    assert(decreases_to!(*es => es@));
                    assert(decreases_to!(es@ => es@[i as int]));
                    let e = Self::replace_rotations(&es[i], shifts, num_polys);
                    assert(ev[i as int] == expression::contents(es@[i as int]));
                    let ghost before = replaced@;
                    replaced.push(e);
                    proof {
                        expression::lemma_contents_prefix(before, replaced@, i as nat);
                    }
                    i = i + 1;
                }
                Expression::DistributePowers(
                    replaced,
                    Box::new(Self::replace_rotations(base, shifts, num_polys)),
                )
            },
        }
    }

    /// The expression with every rotated query replaced by a query of an auxiliary
    /// polynomial, and the auxiliary polynomials, which are to stand behind `polys`: for each
    /// rotated query, counted once, the polynomial shifted by as many places.
    pub fn replace_shifts_with_aux(
        expression: &Expression<F>,
        polys: &[&MultilinearPolynomial<F>],
        num_vars: usize,
    ) -> (r: (Expression<F>, Vec<MultilinearPolynomial<F>>))
        requires
            polys@.len() + unique(shift_constraints(expression@)).len() <= usize::MAX,
            forall|i: int|
                0 <= i < shift_constraints(expression@).len() ==> {
                    let q = #[trigger] shift_constraints(expression@)[i];
                    &&& q.poly_idx < polys@.len()
                    &&& pcs::polys_vals(polys@)[q.poly_idx as int].len() >= pow2(num_vars as nat)
                },
        ensures
            shift_constraints(r.0@).len() == 0,
            r.0@ == without_rotations(
                expression@,
                unique(shift_constraints(expression@)),
                polys@.len(),
            ),
            shift_constraints(expression@).len() == 0 ==> r.0@ == expression@,
            r.1@.len() == unique(shift_constraints(expression@)).len(),
            forall|i: int|
                0 <= i < r.1@.len() ==> #[trigger] pcs::owned_vals(r.1@)[i] == aux_values(
                    pcs::polys_vals(
                        polys@,
                    )[unique(shift_constraints(expression@))[i].poly_idx as int],
                    unique(shift_constraints(expression@))[i].k as int,
                    num_vars as nat,
                ),
    {
        let ghost pv = pcs::polys_vals(polys@);
        let ghost all = shift_constraints(expression@);
        let shifts = Self::leave_out_repetitions(&Self::extract_shift_constraints(expression));
        let mut aux: Vec<MultilinearPolynomial<F>> = Vec::new();
        let mut i: usize = 0;
        proof {
            lemma_unique(all);
            law_replaced_expression_has_no_rotations(expression@, shifts@, polys@.len());
        }
        while i < shifts.len()
            invariant
                i <= shifts.len(),
                pv == pcs::polys_vals(polys@),
                forall|i: int| 0 <= i < shifts@.len() ==> all.contains(#[trigger] shifts@[i]),
                forall|i: int|
                    0 <= i < all.len() ==> {
                        let q = #[trigger] all[i];
                        &&& q.poly_idx < polys@.len()
                        &&& pv[q.poly_idx as int].len() >= pow2(num_vars as nat)
                    },
                aux@.len() == i,
                forall|j: int|
                    0 <= j < i ==> #[trigger] pcs::owned_vals(aux@)[j] == aux_values(
                        pv[shifts@[j].poly_idx as int],
                        shifts@[j].k as int,
                        num_vars as nat,
                    ),
            decreases shifts.len() - i,
        {
            let shift = shifts[i];
            assert(all.contains(shifts@[i as int]));
            assert(shift.poly_idx < polys@.len());
            let evals = polys[shift.poly_idx].evals();
            assert(pv[shift.poly_idx as int] == field::vals(evals@));
            let size = evals.len();
            assert(pow2(num_vars as nat) <= size);
            let n = integer::pow2_usize(num_vars);
            let values = shift_open::shift_values(evals, shift.k, n);
            assert(values@.len() == field::vals(values@).len());
            assert(integer::is_pow2(values@.len() as int)) by {
                assert(pow2(num_vars as nat) == values@.len());
            }
            let poly = MultilinearPolynomial::new(values);
            let ghost before = aux@;
            aux.push(poly);
            assert(pcs::owned_vals(aux@) =~= pcs::owned_vals(before).push(poly.vals()));
            i = i + 1;
        }
        (Self::replace_rotations(expression, &shifts, polys.len()), aux)
    }

    /// Parameters for the circuit. The code is made by `new_code`, see [`BrakedownPcs::setup`].
    pub fn setup<A: Steps<F, [u8; 32]>, N: FnOnce(usize, usize) -> BrakedownCode<F>>(
        steps: &A,
        circuit_info: &PlonkishCircuitInfo<F>,
        new_code: N,
    ) -> (r: Result<BrakedownParam<F>, Error>)
        requires
            circuit_info.countable(),
            circuit_info.well_formed(),
            pow2(circuit_info.k as nat) <= usize::MAX,
            forall|n_0: usize|
                brakedown::is_n_0(n_0 as nat, pow2(circuit_info.k as nat)) ==> call_requires(
                    new_code,
                    (circuit_info.k, n_0),
                ),
        ensures
            r matches Ok(p) && {
                &&& p.num_vars == circuit_info.k
                &&& brakedown::is_n_0(p.n_0 as nat, pow2(circuit_info.k as nat))
                &&& call_ensures(new_code, (p.num_vars, p.n_0), p.code)
            },
    {
        let poly_size = integer::pow2_usize(circuit_info.k);
        let batch_size = steps.batch_size(circuit_info);
        proof {
            integer::lemma_log2_of_pow2(circuit_info.k as nat);
            assert(pow2(circuit_info.k as nat) == poly_size as int);
        }
        BrakedownPcs::<F, H>::setup(poly_size, batch_size, new_code)
    }

    /// The prover's and the verifier's parameters for the circuit: the preprocessed
    /// polynomials and those of the permutation are committed to.
    pub fn preprocess<A: Steps<F, [u8; 32]>>(
        steps: &A,
        param: &BrakedownParam<F>,
        circuit_info: &PlonkishCircuitInfo<F>,
    ) -> (r: Result<
        (
            HyperPlonkProverParam<F, BrakedownPcs<F, H>>,
            HyperPlonkVerifierParam<F, BrakedownPcs<F, H>>,
        ),
        Error,
    >)
        requires
            circuit_info.countable(),
            circuit_info.well_formed(),
            pow2(circuit_info.k as nat) <= usize::MAX,
            pcs::all_sized(
                pcs::points_vals(circuit_info.preprocess_polys@),
                pow2(circuit_info.k as nat),
            ),
            brakedown::fits(param.code@),
        ensures
            preprocessed::<F, H, A>(*steps, *param, *circuit_info, r),
    {
        let num_vars = circuit_info.k;
        let poly_size = integer::pow2_usize(num_vars);
        let batch_size = steps.batch_size(circuit_info);
        proof {
            integer::lemma_log2_of_pow2(num_vars as nat);
            assert(pow2(num_vars as nat) == poly_size as int);
        }
        let (pcs_pp, pcs_vp) = match <BrakedownPcs<F, H> as PolynomialCommitmentScheme<F>>::trim(
            param,
            poly_size,
            batch_size,
        ) {
            Err(e) => {
                return Err(e);
            },
            Ok(out) => out,
        };
        let ghost commit = |e: Seq<int>| BrakedownPcs::<F, H>::commit_spec(pcs_pp, e);
        let ghost stated = |e: Seq<int>| brakedown::commit_evals_spec::<F, H>(param.code@, e);
        assert(commit =~= stated);
        assert forall|i: int| 0 <= i < circuit_info.preprocess_polys@.len() implies integer::is_pow2(
            (#[trigger] pcs::points_vals(circuit_info.preprocess_polys@)[i]).len() as int,
        ) by {
            assert(pow2(num_vars as nat) == pcs::points_vals(
                circuit_info.preprocess_polys@,
            )[i].len());
        }
        let preprocess_polys = protocol::to_polys(&circuit_info.preprocess_polys);
        let preprocess_comms = match BrakedownPcs::<F, H>::batch_commit(
            &pcs_pp,
            &pcs::poly_refs(&preprocess_polys),
        ) {
            Err(e) => {
                return Err(e);
            },
            Ok(comms) => comms,
        };
        let permutation_polys = steps.permutation_polys(circuit_info);
        let permutation_comms = match BrakedownPcs::<F, H>::batch_commit(
            &pcs_pp,
            &protocol::indexed_refs(&permutation_polys),
        ) {
            Err(e) => {
                return Err(e);
            },
            Ok(comms) => comms,
        };
        proof {
            protocol::lemma_commit_all_len(
                stated,
                protocol::without_indices(hyperplonk::indexed_vals(permutation_polys@)),
            );
        }
        let (num_permutation_z_polys, expression) = steps.compose(circuit_info);
        let vp = HyperPlonkVerifierParam {
            pcs: pcs_vp,
            num_instances: multilinear::clone_elements(&circuit_info.num_instances),
            num_witness_polys: multilinear::clone_elements(&circuit_info.num_witness_polys),
            num_challenges: multilinear::clone_elements(&circuit_info.num_challenges),
            num_lookups: circuit_info.lookups.len(),
            num_permutation_z_polys,
            num_vars,
            expression: expression.clone(),
            preprocess_comms: multilinear::clone_elements(&preprocess_comms),
            permutation_comms: with_indices(&permutation_polys, &permutation_comms),
        };
        let pp = HyperPlonkProverParam {
            pcs: pcs_pp,
            num_instances: multilinear::clone_elements(&circuit_info.num_instances),
            num_witness_polys: multilinear::clone_elements(&circuit_info.num_witness_polys),
            num_challenges: multilinear::clone_elements(&circuit_info.num_challenges),
            lookups: clone_lookups(&circuit_info.lookups),
            num_permutation_z_polys,
            num_vars,
            expression,
            preprocess_polys,
            preprocess_comms,
            permutation_polys,
            permutation_comms,
        };
        Ok((pp, vp))
    }

    /// Proves the circuit, without proofs for its rotations.
    pub fn prove<
        A: Steps<F, [u8; 32]>,
        Ci: PlonkishCircuit<F>,
        T: TranscriptWrite<[u8; 32], F>,
    >(
        steps: &A,
        pp: &HyperPlonkProverParam<F, BrakedownPcs<F, H>>,
        circuit: &Ci,
        transcript: &mut T,
    ) -> (r: Result<(), Error>)
        requires
            protocol::can_prove::<F, H, A, Ci>(*steps, *pp, *circuit),
        ensures
            transcript::moved_to(
                r,
                final(transcript).state(),
                protocol::prove_spec::<F, H, A, Ci>(
                    *steps,
                    *pp,
                    *circuit,
                    Seq::empty(),
                    T::model(),
                    old(transcript).state(),
                ),
            ),
            r is Ok && pp.pcs.param.code@.wf() ==> (old(transcript).state().events + trace::fields(
                circuit.instances_spec().flatten(),
            )).is_prefix_of(final(transcript).state().events),
    {
        let ghost st = transcript.state();
        let none: Vec<ShiftConstraint> = Vec::new();
        assert(none@ =~= Seq::empty());
        proof {
            if pp.pcs.param.code@.wf() {
                acceptance::law_prover_begins_with_instances::<F, H, A, Ci>(
                    *steps,
                    *pp,
                    *circuit,
                    none@,
                    T::model(),
                    st,
                );
            }
        }
        protocol::prove_circuit::<F, H, A, Ci, T>(steps, pp, circuit, &none, transcript)
    }

    /// Verifies a proof of [`HyperPlonkBrakedown::prove`].
    pub fn verify<A: Steps<F, [u8; 32]>, T: TranscriptRead<[u8; 32], F>>(
        steps: &A,
        vp: &HyperPlonkVerifierParam<F, BrakedownPcs<F, H>>,
        instances: &[Vec<F>],
        transcript: &mut T,
    ) -> (r: Result<(), Error>)
        requires
            protocol::can_verify::<F, H>(*vp, pcs::points_vals(instances@)),
        ensures
            transcript::moved_to(
                r,
                final(transcript).state(),
                protocol::verify_spec::<F, H, A>(
                    *steps,
                    *vp,
                    pcs::points_vals(instances@),
                    Seq::empty(),
                    T::model(),
                    old(transcript).state(),
                ),
            ),
            r is Ok && vp.pcs.param.code@.wf() ==> (old(transcript).state().events + trace::fields(
                pcs::points_vals(instances@).flatten(),
            )).is_prefix_of(final(transcript).state().events),
    {
        let ghost st = transcript.state();
        let none: Vec<ShiftConstraint> = Vec::new();
        assert(none@ =~= Seq::empty());
        proof {
            if vp.pcs.param.code@.wf() {
                acceptance::law_verifier_begins_with_instances::<F, H, A>(
                    *steps,
                    *vp,
                    pcs::points_vals(instances@),
                    none@,
                    T::model(),
                    st,
                );
            }
        }
        protocol::verify_circuit::<F, H, A, T>(steps, vp, instances, &none, transcript)
    }

    /// Proves the circuit, with a shift-open proof for each of its rotated queries.
    pub fn prove_with_shift<
        A: Steps<F, [u8; 32]>,
        Ci: PlonkishCircuit<F>,
        T: TranscriptWrite<[u8; 32], F>,
    >(
        steps: &A,
        pp: &HyperPlonkProverParam<F, BrakedownPcs<F, H>>,
        circuit: &Ci,
        transcript: &mut T,
    ) -> (r: Result<(), Error>)
        requires
            protocol::can_prove::<F, H, A, Ci>(*steps, *pp, *circuit),
        ensures
            transcript::moved_to(
                r,
                final(transcript).state(),
                protocol::prove_spec::<F, H, A, Ci>(
                    *steps,
                    *pp,
                    *circuit,
                    shift_constraints(pp.expression@),
                    T::model(),
                    old(transcript).state(),
                ),
            ),
            r is Ok && pp.pcs.param.code@.wf() ==> (old(transcript).state().events + trace::fields(
                circuit.instances_spec().flatten(),
            )).is_prefix_of(final(transcript).state().events),
            r is Ok && pp.pcs.param.code@.wf() ==> forall|q: Query|
                #[trigger] queries::queries(pp.expression@).contains(q) && queries::is_rotated(q)
                    ==> acceptance::rotation_is_proved::<F, H, A, Ci>(
                    *steps,
                    *pp,
                    *circuit,
                    q,
                    T::model(),
                    old(transcript).state(),
                    final(transcript).state(),
                ),
    {
        let ghost st = transcript.state();
        let shifts = Self::extract_shift_constraints(&pp.expression);
        proof {
            if pp.pcs.param.code@.wf() {
                acceptance::law_prover_begins_with_instances::<F, H, A, Ci>(
                    *steps,
                    *pp,
                    *circuit,
                    shifts@,
                    T::model(),
                    st,
                );
                assert forall|q: Query|
                    #[trigger] queries::queries(pp.expression@).contains(q) && queries::is_rotated(q)
                    implies protocol::prove_spec::<F, H, A, Ci>(
                    *steps,
                    *pp,
                    *circuit,
                    shifts@,
                    T::model(),
                    st,
                ) matches Ok(done) ==> acceptance::rotation_is_proved::<F, H, A, Ci>(
                    *steps,
                    *pp,
                    *circuit,
                    q,
                    T::model(),
                    st,
                    done,
                ) by {
                    acceptance::law_rotated_queries_are_proved::<F, H, A, Ci>(
                        *steps,
                        *pp,
                        *circuit,
                        q,
                        T::model(),
                        st,
                    );
                }
            }
        }
        protocol::prove_circuit::<F, H, A, Ci, T>(steps, pp, circuit, &shifts, transcript)
    }

    /// Verifies a proof of [`HyperPlonkBrakedown::prove_with_shift`].
    pub fn verify_with_shift<A: Steps<F, [u8; 32]>, T: TranscriptRead<[u8; 32], F>>(
        steps: &A,
        vp: &HyperPlonkVerifierParam<F, BrakedownPcs<F, H>>,
        instances: &[Vec<F>],
        transcript: &mut T,
    ) -> (r: Result<(), Error>)
        requires
            protocol::can_verify::<F, H>(*vp, pcs::points_vals(instances@)),
        ensures
            transcript::moved_to(
                r,
                final(transcript).state(),
                protocol::verify_spec::<F, H, A>(
                    *steps,
                    *vp,
                    pcs::points_vals(instances@),
                    shift_constraints(vp.expression@),
                    T::model(),
                    old(transcript).state(),
                ),
            ),
            r is Ok && vp.pcs.param.code@.wf() ==> (old(transcript).state().events + trace::fields(
                pcs::points_vals(instances@).flatten(),
            )).is_prefix_of(final(transcript).state().events),
            r is Ok && vp.pcs.param.code@.wf() ==> forall|q: Query|
                #[trigger] queries::queries(vp.expression@).contains(q) && queries::is_rotated(q)
                    ==> acceptance::rotation_is_shown::<F, H, A>(
                    *steps,
                    *vp,
                    pcs::points_vals(instances@),
                    q,
                    T::model(),
                    old(transcript).state(),
                    final(transcript).state(),
                ),
    {
        let ghost st = transcript.state();
        let ghost iv = pcs::points_vals(instances@);
        let shifts = Self::extract_shift_constraints(&vp.expression);
        proof {
            if vp.pcs.param.code@.wf() {
                acceptance::law_verifier_begins_with_instances::<F, H, A>(
                    *steps,
                    *vp,
                    iv,
                    shifts@,
                    T::model(),
                    st,
                );
                assert forall|q: Query|
                    #[trigger] queries::queries(vp.expression@).contains(q) && queries::is_rotated(q)
                    implies protocol::verify_spec::<F, H, A>(
                    *steps,
                    *vp,
                    iv,
                    shifts@,
                    T::model(),
                    st,
                ) matches Ok(done) ==> acceptance::rotation_is_shown::<F, H, A>(
                    *steps,
                    *vp,
                    iv,
                    q,
                    T::model(),
                    st,
                    done,
                ) by {
                    acceptance::law_rotated_queries_are_shown::<F, H, A>(
                        *steps,
                        *vp,
                        iv,
                        q,
                        T::model(),
                        st,
                    );
                }
            }
        }
        protocol::verify_circuit::<F, H, A, T>(steps, vp, instances, &shifts, transcript)
    }
}

/// What preprocessing a circuit can come to: an error if the parameters are too small or a
/// polynomial cannot be committed to, else the parameters with all commitments.
pub open spec fn preprocessed<F: PrimeField, H: HashFunction, A: Steps<F, [u8; 32]>>(
    steps: A,
    param: BrakedownParam<F>,
    info: PlonkishCircuitInfo<F>,
    r: Result<
        (
            HyperPlonkProverParam<F, BrakedownPcs<F, H>>,
            HyperPlonkVerifierParam<F, BrakedownPcs<F, H>>,
        ),
        Error,
    >,
) -> bool {
    let commit = |e: Seq<int>| brakedown::commit_evals_spec::<F, H>(param.code@, e);
    let fixed = pcs::points_vals(info.preprocess_polys@);
    let permutation = steps.permutation_polys_spec(info);
    if info.k > param.num_vars {
        r is Err && r->Err_0@ == ErrorView::InvalidPcsParam(
            brakedown::too_small_text(info.k as nat, param.num_vars as nat),
        )
    } else {
        match pcs::commit_all(commit, fixed) {
            Err(e) => r is Err && r->Err_0@ == e,
            Ok(fixed_comms) => match pcs::commit_all(
                commit,
                protocol::without_indices(permutation),
            ) {
                Err(e) => r is Err && r->Err_0@ == e,
                Ok(perm_comms) => r matches Ok((pp, vp)) && {
                    &&& pp.pcs.param.num_vars == param.num_vars
                    &&& pp.pcs.param.code@ == param.code@
                    &&& pp.pcs.param.n_0 == param.n_0
                    &&& vp.pcs.param.num_vars == param.num_vars
                    &&& vp.pcs.param.code@ == param.code@
                    &&& vp.pcs.param.n_0 == param.n_0
                    &&& pp.num_instances@ == info.num_instances@
                    &&& vp.num_instances@ == info.num_instances@
                    &&& pp.num_witness_polys@ == info.num_witness_polys@
                    &&& vp.num_witness_polys@ == info.num_witness_polys@
                    &&& pp.num_challenges@ == info.num_challenges@
                    &&& vp.num_challenges@ == info.num_challenges@
                    &&& hyperplonk::lookups_view(pp.lookups@) == hyperplonk::lookups_view(
                        info.lookups@,
                    )
                    &&& vp.num_lookups == info.lookups@.len()
                    &&& pp.num_vars == info.k
                    &&& vp.num_vars == info.k
                    &&& (pp.num_permutation_z_polys as nat, pp.expression@) == steps.compose_spec(
                        info,
                    )
                    &&& vp.num_permutation_z_polys == pp.num_permutation_z_polys
                    &&& vp.expression@ == pp.expression@
                    &&& pcs::owned_vals(pp.preprocess_polys@) == fixed
                    &&& pp.preprocess_comms@ == fixed_comms
                    &&& vp.preprocess_comms@ == fixed_comms
                    &&& hyperplonk::indexed_vals(pp.permutation_polys@) == permutation
                    &&& pp.permutation_comms@ == perm_comms
                    &&& protocol::unindexed(vp.permutation_comms@) == perm_comms
                    &&& forall|i: int|
                        0 <= i < permutation.len() ==> (#[trigger] vp.permutation_comms@[i]).0
                            == permutation[i].0
                },
            },
        }
    }
}

/// The commitments, each with the index of its polynomial.
fn with_indices<F: PrimeField>(
    polys: &Vec<(usize, MultilinearPolynomial<F>)>,
    comms: &Vec<BrakedownCommitment>,
) -> (r: Vec<(usize, BrakedownCommitment)>)
    requires
        polys@.len() == comms@.len(),
    ensures
        protocol::unindexed(r@) == comms@,
        forall|i: int|
            0 <= i < comms@.len() ==> (#[trigger] r@[i]).0 == hyperplonk::indexed_vals(polys@)[i].0,
{
    let mut r: Vec<(usize, BrakedownCommitment)> = Vec::new();
    let mut i: usize = 0;
    while i < comms.len()
        invariant
            i <= comms.len(),
            polys@.len() == comms@.len(),
            r@.len() == i,
            forall|j: int|
                0 <= j < i ==> (#[trigger] r@[j]).0 == hyperplonk::indexed_vals(polys@)[j].0
                    && r@[j].1 == comms@[j],
        decreases comms.len() - i,
    {
        r.push((polys[i].0, comms[i]));
        i = i + 1;
    }
    assert(protocol::unindexed(r@) =~= comms@);
    r
}

/// A copy of the lookups.
fn clone_lookups<F: PrimeField>(lookups: &Vec<Vec<(Expression<F>, Expression<F>)>>) -> (r: Vec<
    Vec<(Expression<F>, Expression<F>)>,
>)
    ensures
        hyperplonk::lookups_view(r@) == hyperplonk::lookups_view(lookups@),
{
    let ghost lv = hyperplonk::lookups_view(lookups@);
    let mut r: Vec<Vec<(Expression<F>, Expression<F>)>> = Vec::new();
    let mut i: usize = 0;
    while i < lookups.len()
        invariant
            i <= lookups.len(),
            lv == hyperplonk::lookups_view(lookups@),
            r@.len() == i,
            forall|j: int|
                0 <= j < i ==> hyperplonk::lookup_view((#[trigger] r@[j])@) == lv[j],
        decreases lookups.len() - i,
    {
        let lookup = &lookups[i];
        let mut pairs: Vec<(Expression<F>, Expression<F>)> = Vec::new();
        let mut j: usize = 0;
        while j < lookup.len()
            invariant
                j <= lookup.len(),
                pairs@.len() == j,
                forall|t: int|
                    0 <= t < j ==> (#[trigger] pairs@[t]).0@ == lookup@[t].0@ && pairs@[t].1@
                        == lookup@[t].1@,
            decreases lookup.len() - j,
        {
            let pair = &lookup[j];
            pairs.push((pair.0.clone(), pair.1.clone()));
            j = j + 1;
        }
        assert(hyperplonk::lookup_view(pairs@) =~= hyperplonk::lookup_view(lookup@));
        r.push(pairs);
        i = i + 1;
    }
    assert(hyperplonk::lookups_view(r@) =~= lv);
    r
}

} // verus!
