//! The queries of an expression, and what becomes of the rotated ones.

use crate::backend;
use crate::backend::hyperplonk_brakedown;
use crate::backend::hyperplonk_brakedown::ShiftConstraint;
use crate::backend::PlonkishCircuitInfo;
use crate::poly::hypercube;
use crate::util::expression;
use crate::util::expression::{CommonPolynomial, ExpressionView, Query, Rotation};
use crate::util::field::PrimeField;
use crate::util::modular;
use crate::util::sum;
use vstd::arithmetic::power2::pow2;
use vstd::prelude::*;

verus! {

/// All queries of an expression, in the order in which they stand.
pub open spec fn queries(e: ExpressionView) -> Seq<Query>
    decreases e, 0nat,
{
    match e {
        ExpressionView::Constant(_) => Seq::empty(),
        ExpressionView::CommonPolynomial(_) => Seq::empty(),
        ExpressionView::Polynomial(q) => seq![q],
        ExpressionView::Challenge(_) => Seq::empty(),
        ExpressionView::Negated(a) => queries(*a),
        ExpressionView::Sum(a, b) => queries(*a) + queries(*b),
        ExpressionView::Product(a, b) => queries(*a) + queries(*b),
        ExpressionView::Scaled(a, _) => queries(*a),
        ExpressionView::DistributePowers(es, b) => queries_of_all(es, es.len()) + queries(*b),
    }
}

/// All queries of the first `n` expressions of a list.
pub open spec fn queries_of_all(es: Seq<ExpressionView>, n: nat) -> Seq<Query>
    decreases es, n,
{
    if n == 0 || n > es.len() {
        Seq::empty()
    } else {
        queries_of_all(es, (n - 1) as nat) + queries(es[n - 1])
    }
}

/// Whether a query is rotated.
pub open spec fn is_rotated(q: Query) -> bool {
    q.rotation.0 != 0
}

/// The absolute value of a rotation.
pub open spec fn magnitude(r: Rotation) -> int {
    if r.0 >= 0 {
        r.0 as int
    } else {
        0 - r.0 as int
    }
}

/// Whether the constraints are for the given queries, in order, each with the absolute value
/// of its rotation.
pub open spec fn stand_for(shifts: Seq<ShiftConstraint>, qs: Seq<Query>) -> bool {
    &&& shifts.len() == qs.len()
    &&& forall|i: int|
        0 <= i < shifts.len() ==> {
            &&& (#[trigger] shifts[i]).poly_idx == qs[i].poly
            &&& shifts[i].rotation == qs[i].rotation
            &&& shifts[i].k == magnitude(qs[i].rotation)
        }
}

/// Lists of constraints can be chained.
proof fn lemma_stand_for_add(
    a: Seq<ShiftConstraint>,
    b: Seq<ShiftConstraint>,
    p: Seq<Query>,
    q: Seq<Query>,
)
    requires
        stand_for(a, p),
        stand_for(b, q),
    ensures
        stand_for(a + b, p + q),
{
    assert forall|i: int| 0 <= i < (a + b).len() implies {
        &&& (#[trigger] (a + b)[i]).poly_idx == (p + q)[i].poly
        &&& (a + b)[i].rotation == (p + q)[i].rotation
        &&& (a + b)[i].k == magnitude((p + q)[i].rotation)
    } by {
        if i < a.len() {
            assert(a[i].poly_idx == p[i].poly);
        } else {
            assert(b[i - a.len()].poly_idx == q[i - a.len()].poly);
        }
    }
}

/// The shift constraints of an expression are its rotated queries, all of them, in order and
/// with their distances.
pub proof fn law_constraints_are_the_rotated_queries(e: ExpressionView)
    ensures
        stand_for(
            hyperplonk_brakedown::shift_constraints(e),
            queries(e).filter(|q: Query| is_rotated(q)),
        ),
    decreases e, 0nat,
{
    reveal(Seq::filter);
    let pred = |q: Query| is_rotated(q);
    match e {
        ExpressionView::Polynomial(q) => {
            assert(seq![q].drop_last() =~= Seq::empty());
            reveal_with_fuel(Seq::filter, 2);
        },
        ExpressionView::Negated(a) => {
            law_constraints_are_the_rotated_queries(*a);
        },
        ExpressionView::Sum(a, b) => {
            law_constraints_are_the_rotated_queries(*a);
            law_constraints_are_the_rotated_queries(*b);
            Seq::filter_distributes_over_add(queries(*a), queries(*b), pred);
            lemma_stand_for_add(
                hyperplonk_brakedown::shift_constraints(*a),
                hyperplonk_brakedown::shift_constraints(*b),
                queries(*a).filter(pred),
                queries(*b).filter(pred),
            );
        },
        ExpressionView::Product(a, b) => {
            law_constraints_are_the_rotated_queries(*a);
            law_constraints_are_the_rotated_queries(*b);
            Seq::filter_distributes_over_add(queries(*a), queries(*b), pred);
            lemma_stand_for_add(
                hyperplonk_brakedown::shift_constraints(*a),
                hyperplonk_brakedown::shift_constraints(*b),
                queries(*a).filter(pred),
                queries(*b).filter(pred),
            );
        },
        ExpressionView::Scaled(a, _) => {
            law_constraints_are_the_rotated_queries(*a);
        },
        ExpressionView::DistributePowers(es, b) => {
            lemma_constraints_of_list(es, es.len());
            law_constraints_are_the_rotated_queries(*b);
            Seq::filter_distributes_over_add(
                queries_of_all(es, es.len()),
                queries(*b),
                pred,
            );
            lemma_stand_for_add(
                hyperplonk_brakedown::shift_constraints_of_all(es, es.len()),
                hyperplonk_brakedown::shift_constraints(*b),
                queries_of_all(es, es.len()).filter(pred),
                queries(*b).filter(pred),
            );
        },
        _ => {},
    }
}

/// As [`law_constraints_are_the_rotated_queries`], for the first `n` expressions of a list.
proof fn lemma_constraints_of_list(es: Seq<ExpressionView>, n: nat)
    requires
        n <= es.len(),
    ensures
        stand_for(
            hyperplonk_brakedown::shift_constraints_of_all(es, n),
            queries_of_all(es, n).filter(|q: Query| is_rotated(q)),
        ),
    decreases es, n,
{
    let pred = |q: Query| is_rotated(q);
    reveal(Seq::filter);
    if n > 0 {
        let k = (n - 1) as nat;
        lemma_constraints_of_list(es, k);
        law_constraints_are_the_rotated_queries(es[n - 1]);
        Seq::filter_distributes_over_add(queries_of_all(es, k), queries(es[n - 1]), pred);
        lemma_stand_for_add(
            hyperplonk_brakedown::shift_constraints_of_all(es, k),
            hyperplonk_brakedown::shift_constraints(es[n - 1]),
            queries_of_all(es, k).filter(pred),
            queries(es[n - 1]).filter(pred),
        );
    }
}

/// Every rotated query of an expression has a shift constraint.
pub proof fn law_every_rotated_query_has_a_constraint(e: ExpressionView, q: Query)
    requires
        queries(e).contains(q),
        is_rotated(q),
    ensures
        exists|i: int|
            0 <= i < hyperplonk_brakedown::shift_constraints(e).len() && {
                let c = #[trigger] hyperplonk_brakedown::shift_constraints(e)[i];
                c.poly_idx == q.poly && c.rotation == q.rotation && c.k == magnitude(q.rotation)
            },
{
    let pred = |q: Query| is_rotated(q);
    law_constraints_are_the_rotated_queries(e);
    let j = choose|j: int| 0 <= j < queries(e).len() && queries(e)[j] == q;
    queries(e).lemma_filter_contains(pred, j);
    let rotated = queries(e).filter(pred);
    let i = choose|i: int| 0 <= i < rotated.len() && rotated[i] == q;
    assert(hyperplonk_brakedown::shift_constraints(e)[i].poly_idx == q.poly);
}

/// The value of an expression on row `x`: every query stands for the value of its polynomial as
/// many rows on as its rotation moves it by, where the last row is followed by the first.
/// Powers are distributed as `fold` says.
pub open spec fn value_on_row(
    e: ExpressionView,
    polys: Seq<Seq<int>>,
    challenges: Seq<int>,
    common: spec_fn(CommonPolynomial) -> int,
    fold: spec_fn(Seq<int>, int) -> int,
    x: int,
) -> int
    decreases e, 0nat,
{
    match e {
        ExpressionView::Constant(c) => c,
        ExpressionView::CommonPolynomial(p) => common(p),
        ExpressionView::Polynomial(q) => {
            let f = polys[q.poly as int];
            f[(x + magnitude(q.rotation)) % (f.len() as int)]
        },
        ExpressionView::Challenge(i) => challenges[i],
        ExpressionView::Negated(a) => -value_on_row(*a, polys, challenges, common, fold, x),
        ExpressionView::Sum(a, b) => value_on_row(*a, polys, challenges, common, fold, x)
            + value_on_row(*b, polys, challenges, common, fold, x),
        ExpressionView::Product(a, b) => value_on_row(*a, polys, challenges, common, fold, x)
            * value_on_row(*b, polys, challenges, common, fold, x),
        ExpressionView::Scaled(a, c) => value_on_row(*a, polys, challenges, common, fold, x) * c,
        ExpressionView::DistributePowers(es, b) => fold(
            values_on_row(es, es.len(), polys, challenges, common, fold, x),
            value_on_row(*b, polys, challenges, common, fold, x),
        ),
    }
}

/// The values of the first `n` expressions of a list on row `x`.
pub open spec fn values_on_row(
    es: Seq<ExpressionView>,
    n: nat,
    polys: Seq<Seq<int>>,
    challenges: Seq<int>,
    common: spec_fn(CommonPolynomial) -> int,
    fold: spec_fn(Seq<int>, int) -> int,
    x: int,
) -> Seq<int>
    decreases es, n,
{
    if n == 0 || n > es.len() {
        Seq::empty()
    } else {
        values_on_row(es, (n - 1) as nat, polys, challenges, common, fold, x).push(
            value_on_row(es[n - 1], polys, challenges, common, fold, x),
        )
    }
}

/// Whether `shifts` holds a constraint for every rotated query among `needed`.
spec fn covers(shifts: Seq<ShiftConstraint>, needed: Seq<ShiftConstraint>) -> bool {
    forall|i: int|
        0 <= i < needed.len() ==> hyperplonk_brakedown::position(
            shifts,
            hyperplonk_brakedown::query_of(#[trigger] needed[i]),
        ) < shifts.len()
}

/// What covers a chain of lists covers each.
proof fn lemma_covers_parts(
    shifts: Seq<ShiftConstraint>,
    a: Seq<ShiftConstraint>,
    b: Seq<ShiftConstraint>,
)
    requires
        covers(shifts, a + b),
    ensures
        covers(shifts, a),
        covers(shifts, b),
{
    assert forall|i: int| 0 <= i < a.len() implies hyperplonk_brakedown::position(
        shifts,
        hyperplonk_brakedown::query_of(#[trigger] a[i]),
    ) < shifts.len() by {
        assert((a + b)[i] == a[i]);
    }
    assert forall|i: int| 0 <= i < b.len() implies hyperplonk_brakedown::position(
        shifts,
        hyperplonk_brakedown::query_of(#[trigger] b[i]),
    ) < shifts.len() by {
        assert((a + b)[a.len() + i] == b[i]);
    }
}

/// Whether all queries are of polynomials that there are, of `size` values.
pub open spec fn in_bounds(qs: Seq<Query>, polys: Seq<Seq<int>>, size: nat) -> bool {
    forall|i: int|
        0 <= i < qs.len() ==> (#[trigger] qs[i]).poly < polys.len() && polys[qs[i].poly as int].len()
            == size
}

/// What bounds a chain of queries bounds each.
proof fn lemma_in_bounds_parts(a: Seq<Query>, b: Seq<Query>, polys: Seq<Seq<int>>, size: nat)
    requires
        in_bounds(a + b, polys, size),
    ensures
        in_bounds(a, polys, size),
        in_bounds(b, polys, size),
{
    assert forall|i: int| 0 <= i < a.len() implies (#[trigger] a[i]).poly < polys.len()
        && polys[a[i].poly as int].len() == size by {
        assert((a + b)[i] == a[i]);
    }
    assert forall|i: int| 0 <= i < b.len() implies (#[trigger] b[i]).poly < polys.len()
        && polys[b[i].poly as int].len() == size by {
        assert((a + b)[a.len() + i] == b[i]);
    }
}

/// Whether `aux` holds, for every constraint, the polynomial that it is for, moved by its
/// distance.
spec fn moved(
    shifts: Seq<ShiftConstraint>,
    polys: Seq<Seq<int>>,
    aux: Seq<Seq<int>>,
    size: nat,
) -> bool {
    &&& aux.len() == shifts.len()
    &&& polys.len() + shifts.len() <= usize::MAX
    &&& forall|i: int|
        0 <= i < shifts.len() ==> {
            &&& (#[trigger] aux[i]).len() == size
            &&& shifts[i].k == magnitude(shifts[i].rotation)
            &&& forall|x: int|
                0 <= x < size ==> #[trigger] aux[i][x] == polys[shifts[i].poly_idx as int][(x
                    + shifts[i].k) % (size as int)]
        }
}

/// Replacing rotated queries keeps the value of an expression.
proof fn lemma_value_kept(
    e: ExpressionView,
    shifts: Seq<ShiftConstraint>,
    polys: Seq<Seq<int>>,
    aux: Seq<Seq<int>>,
    size: nat,
    challenges: Seq<int>,
    common: spec_fn(CommonPolynomial) -> int,
    fold: spec_fn(Seq<int>, int) -> int,
    x: int,
)
    requires
        0 <= x < size,
        moved(shifts, polys, aux, size),
        covers(shifts, hyperplonk_brakedown::shift_constraints(e)),
        in_bounds(queries(e), polys, size),
    ensures
        value_on_row(
            hyperplonk_brakedown::without_rotations(e, shifts, polys.len()),
            polys + aux,
            challenges,
            common,
            fold,
            x,
        ) == value_on_row(e, polys, challenges, common, fold, x),
    decreases e, 0nat,
{
    match e {
        ExpressionView::Polynomial(q) => {
            assert(queries(e)[0] == q);
            let all = polys + aux;
            modular::lemma_small(x, size as int);
            if q.rotation == Rotation(0) {
                assert(all[q.poly as int] == polys[q.poly as int]);
            } else {
                let at = hyperplonk_brakedown::position(shifts, q);
                let c = hyperplonk_brakedown::shift_constraints(e)[0];
                assert(hyperplonk_brakedown::query_of(c) == q);
                assert(at < shifts.len());
                hyperplonk_brakedown::lemma_position(shifts, q, 0);
                let d = shifts[at as int];
                assert(hyperplonk_brakedown::stems_from(d, q));
                assert(all[(polys.len() + at) as int] == aux[at as int]);
                assert(aux[at as int].len() == size);
                assert(aux[at as int][x] == polys[q.poly as int][(x + d.k) % (size as int)]);
            }
        },
        ExpressionView::Negated(a) => {
            lemma_value_kept(*a, shifts, polys, aux, size, challenges, common, fold, x);
        },
        ExpressionView::Sum(a, b) => {
            lemma_covers_parts(
                shifts,
                hyperplonk_brakedown::shift_constraints(*a),
                hyperplonk_brakedown::shift_constraints(*b),
            );
            lemma_in_bounds_parts(queries(*a), queries(*b), polys, size);
            lemma_value_kept(*a, shifts, polys, aux, size, challenges, common, fold, x);
            lemma_value_kept(*b, shifts, polys, aux, size, challenges, common, fold, x);
        },
        ExpressionView::Product(a, b) => {
            lemma_covers_parts(
                shifts,
                hyperplonk_brakedown::shift_constraints(*a),
                hyperplonk_brakedown::shift_constraints(*b),
            );
            lemma_in_bounds_parts(queries(*a), queries(*b), polys, size);
            lemma_value_kept(*a, shifts, polys, aux, size, challenges, common, fold, x);
            lemma_value_kept(*b, shifts, polys, aux, size, challenges, common, fold, x);
        },
        ExpressionView::Scaled(a, _) => {
            lemma_value_kept(*a, shifts, polys, aux, size, challenges, common, fold, x);
        },
        ExpressionView::DistributePowers(es, b) => {
            lemma_covers_parts(
                shifts,
                hyperplonk_brakedown::shift_constraints_of_all(es, es.len()),
                hyperplonk_brakedown::shift_constraints(*b),
            );
            lemma_in_bounds_parts(queries_of_all(es, es.len()), queries(*b), polys, size);
            lemma_values_kept(
                es,
                es.len(),
                shifts,
                polys,
                aux,
                size,
                challenges,
                common,
                fold,
                x,
            );
            lemma_value_kept(*b, shifts, polys, aux, size, challenges, common, fold, x);
            let replaced = hyperplonk_brakedown::all_without_rotations(
                es,
                es.len(),
                shifts,
                polys.len(),
            );
            assert(replaced.len() == es.len());
        },
        _ => {},
    }
}

/// As [`lemma_value_kept`], for the first `n` expressions of a list.
proof fn lemma_values_kept(
    es: Seq<ExpressionView>,
    n: nat,
    shifts: Seq<ShiftConstraint>,
    polys: Seq<Seq<int>>,
    aux: Seq<Seq<int>>,
    size: nat,
    challenges: Seq<int>,
    common: spec_fn(CommonPolynomial) -> int,
    fold: spec_fn(Seq<int>, int) -> int,
    x: int,
)
    requires
        n <= es.len(),
        0 <= x < size,
        moved(shifts, polys, aux, size),
        covers(shifts, hyperplonk_brakedown::shift_constraints_of_all(es, n)),
        in_bounds(queries_of_all(es, n), polys, size),
    ensures
        ({
            let replaced = hyperplonk_brakedown::all_without_rotations(
                es,
                n,
                shifts,
                polys.len(),
            );
            &&& replaced.len() == n
            &&& values_on_row(replaced, n, polys + aux, challenges, common, fold, x)
                == values_on_row(es, n, polys, challenges, common, fold, x)
        }),
    decreases es, n,
{
    if n > 0 {
        let k = (n - 1) as nat;
        lemma_covers_parts(
            shifts,
            hyperplonk_brakedown::shift_constraints_of_all(es, k),
            hyperplonk_brakedown::shift_constraints(es[n - 1]),
        );
        lemma_in_bounds_parts(queries_of_all(es, k), queries(es[n - 1]), polys, size);
        lemma_values_kept(es, k, shifts, polys, aux, size, challenges, common, fold, x);
        lemma_value_kept(es[n - 1], shifts, polys, aux, size, challenges, common, fold, x);
        let before = hyperplonk_brakedown::all_without_rotations(es, k, shifts, polys.len());
        let replaced = hyperplonk_brakedown::all_without_rotations(es, n, shifts, polys.len());
        assert(replaced.take(k as int) =~= before.take(k as int));
        lemma_values_of_prefix(
            replaced,
            before,
            k,
            polys + aux,
            challenges,
            common,
            fold,
            x,
        );
    }
}

/// The values of a list's beginning depend on it alone.
proof fn lemma_values_of_prefix(
    es: Seq<ExpressionView>,
    front: Seq<ExpressionView>,
    n: nat,
    polys: Seq<Seq<int>>,
    challenges: Seq<int>,
    common: spec_fn(CommonPolynomial) -> int,
    fold: spec_fn(Seq<int>, int) -> int,
    x: int,
)
    requires
        n <= es.len(),
        n <= front.len(),
        es.take(n as int) == front.take(n as int),
    ensures
        values_on_row(es, n, polys, challenges, common, fold, x) == values_on_row(
            front,
            n,
            polys,
            challenges,
            common,
            fold,
            x,
        ),
    decreases n,
{
    if n > 0 {
        let k = (n - 1) as nat;
        assert(es[n - 1] == es.take(n as int)[n - 1]);
        assert(front[n - 1] == front.take(n as int)[n - 1]);
        assert(es.take(n - 1) =~= es.take(n as int).take(n - 1));
        assert(front.take(n - 1) =~= front.take(n as int).take(n - 1));
        lemma_values_of_prefix(es, front, k, polys, challenges, common, fold, x);
        assert(values_on_row(es, n, polys, challenges, common, fold, x) == values_on_row(
            es,
            k,
            polys,
            challenges,
            common,
            fold,
            x,
        ).push(value_on_row(es[n - 1], polys, challenges, common, fold, x)));
        assert(values_on_row(front, n, polys, challenges, common, fold, x) == values_on_row(
            front,
            k,
            polys,
            challenges,
            common,
            fold,
            x,
        ).push(value_on_row(front[n - 1], polys, challenges, common, fold, x)));
    }
}

/// Replacing the rotated queries of an expression by queries of auxiliary polynomials does not
/// change its value on any row, where every auxiliary polynomial is the one of its constraint,
/// moved by the constraint's distance.
pub proof fn law_replacing_rotations_keeps_values(
    e: ExpressionView,
    polys: Seq<Seq<int>>,
    num_vars: nat,
    challenges: Seq<int>,
    common: spec_fn(CommonPolynomial) -> int,
    fold: spec_fn(Seq<int>, int) -> int,
    x: int,
)
    requires
        0 <= x < pow2(num_vars),
        in_bounds(queries(e), polys, pow2(num_vars)),
        polys.len() + hyperplonk_brakedown::unique(
            hyperplonk_brakedown::shift_constraints(e),
        ).len() <= usize::MAX,
    ensures
        ({
            let shifts = hyperplonk_brakedown::unique(hyperplonk_brakedown::shift_constraints(e));
            let aux = Seq::new(
                shifts.len(),
                |i: int|
                    hyperplonk_brakedown::aux_values(
                        polys[shifts[i].poly_idx as int],
                        shifts[i].k as int,
                        num_vars,
                    ),
            );
            value_on_row(
                hyperplonk_brakedown::without_rotations(e, shifts, polys.len()),
                polys + aux,
                challenges,
                common,
                fold,
                x,
            ) == value_on_row(e, polys, challenges, common, fold, x)
        }),
{
    let all = hyperplonk_brakedown::shift_constraints(e);
    let shifts = hyperplonk_brakedown::unique(all);
    let size = pow2(num_vars);
    let aux = Seq::new(
        shifts.len(),
        |i: int|
            hyperplonk_brakedown::aux_values(
                polys[shifts[i].poly_idx as int],
                shifts[i].k as int,
                num_vars,
            ),
    );
    hyperplonk_brakedown::law_rotations_are_counted_once(all);
    hyperplonk_brakedown::lemma_unique(all);
    law_constraints_are_the_rotated_queries(e);
    let pred = |q: Query| is_rotated(q);
    let rotated = queries(e).filter(pred);
    assert forall|i: int| 0 <= i < shifts.len() implies {
        &&& (#[trigger] aux[i]).len() == size
        &&& shifts[i].k == magnitude(shifts[i].rotation)
        &&& forall|x: int|
            0 <= x < size ==> #[trigger] aux[i][x] == polys[shifts[i].poly_idx as int][(x
                + shifts[i].k) % (size as int)]
    } by {
        let c = shifts[i];
        assert(all.contains(c));
        let j = choose|j: int| 0 <= j < all.len() && all[j] == c;
        assert(all[j].k == magnitude(rotated[j].rotation));
        lemma_filtered_is_there(queries(e), pred, j);
        let t = choose|t: int| 0 <= t < queries(e).len() && queries(e)[t] == rotated[j];
        assert(queries(e)[t].poly < polys.len());
        let f = polys[c.poly_idx as int];
        assert(f.len() == size);
        assert(f.take(size as int) =~= f);
        assert(aux[i] == hypercube::shift(f, c.k as int));
    }
    assert(moved(shifts, polys, aux, size));
    assert(covers(shifts, all));
    lemma_value_kept(e, shifts, polys, aux, size, challenges, common, fold, x);
}

/// What is filtered out of a list is in it.
proof fn lemma_filtered_is_there(s: Seq<Query>, pred: spec_fn(Query) -> bool, i: int)
    requires
        0 <= i < s.filter(pred).len(),
    ensures
        s.contains(s.filter(pred)[i]),
    decreases s.len(),
{
    reveal(Seq::filter);
    if s.len() > 0 {
        let fewer = s.drop_last();
        if i < fewer.filter(pred).len() {
            lemma_filtered_is_there(fewer, pred, i);
            let j = choose|j: int| 0 <= j < fewer.len() && fewer[j] == fewer.filter(pred)[i];
            assert(s[j] == s.filter(pred)[i]);
        } else {
            assert(s[s.len() - 1] == s.filter(pred)[i]);
        }
    }
}

/// All challenges of an expression, in the order in which they stand.
pub open spec fn challenges(e: ExpressionView) -> Seq<int>
    decreases e, 0nat,
{
    match e {
        ExpressionView::Constant(_) => Seq::empty(),
        ExpressionView::CommonPolynomial(_) => Seq::empty(),
        ExpressionView::Polynomial(_) => Seq::empty(),
        ExpressionView::Challenge(i) => seq![i],
        ExpressionView::Negated(a) => challenges(*a),
        ExpressionView::Sum(a, b) => challenges(*a) + challenges(*b),
        ExpressionView::Product(a, b) => challenges(*a) + challenges(*b),
        ExpressionView::Scaled(a, _) => challenges(*a),
        ExpressionView::DistributePowers(es, b) => challenges_of_all(es, es.len()) + challenges(*b),
    }
}

/// All challenges of the first `n` expressions of a list.
pub open spec fn challenges_of_all(es: Seq<ExpressionView>, n: nat) -> Seq<int>
    decreases es, n,
{
    if n == 0 || n > es.len() {
        Seq::empty()
    } else {
        challenges_of_all(es, (n - 1) as nat) + challenges(es[n - 1])
    }
}

/// Whether all of the queries are of polynomials below `polys`, and all of the challenges are
/// below `count`.
pub open spec fn all_below(qs: Seq<Query>, cs: Seq<int>, polys: int, count: int) -> bool {
    &&& forall|i: int| 0 <= i < qs.len() ==> (#[trigger] qs[i]).poly < polys
    &&& forall|i: int| 0 <= i < cs.len() ==> #[trigger] cs[i] < count
}

/// Bounds on chains are bounds on both parts.
proof fn lemma_all_below_add(
    p: Seq<Query>,
    q: Seq<Query>,
    c: Seq<int>,
    d: Seq<int>,
    polys: int,
    count: int,
)
    ensures
        all_below(p + q, c + d, polys, count) <==> all_below(p, c, polys, count) && all_below(
            q,
            d,
            polys,
            count,
        ),
{
    if all_below(p + q, c + d, polys, count) {
        assert forall|i: int| 0 <= i < p.len() implies (#[trigger] p[i]).poly < polys by {
            assert((p + q)[i] == p[i]);
        }
        assert forall|i: int| 0 <= i < q.len() implies (#[trigger] q[i]).poly < polys by {
            assert((p + q)[p.len() + i] == q[i]);
        }
        assert forall|i: int| 0 <= i < c.len() implies #[trigger] c[i] < count by {
            assert((c + d)[i] == c[i]);
        }
        assert forall|i: int| 0 <= i < d.len() implies #[trigger] d[i] < count by {
            assert((c + d)[c.len() + i] == d[i]);
        }
    }
}

/// The indices of an expression are below bounds exactly if all its queries and challenges are.
pub proof fn law_indices_are_those_of_queries(e: ExpressionView, polys: int, count: int)
    ensures
        expression::indices_below(e, polys, count) <==> all_below(
            queries(e),
            challenges(e),
            polys,
            count,
        ),
    decreases e, 0nat,
{
    match e {
        ExpressionView::Polynomial(q) => {
            assert(queries(e)[0] == q);
        },
        ExpressionView::Challenge(i) => {
            assert(challenges(e)[0] == i);
        },
        ExpressionView::Negated(a) => {
            law_indices_are_those_of_queries(*a, polys, count);
        },
        ExpressionView::Sum(a, b) => {
            law_indices_are_those_of_queries(*a, polys, count);
            law_indices_are_those_of_queries(*b, polys, count);
            lemma_all_below_add(
                queries(*a),
                queries(*b),
                challenges(*a),
                challenges(*b),
                polys,
                count,
            );
        },
        ExpressionView::Product(a, b) => {
            law_indices_are_those_of_queries(*a, polys, count);
            law_indices_are_those_of_queries(*b, polys, count);
            lemma_all_below_add(
                queries(*a),
                queries(*b),
                challenges(*a),
                challenges(*b),
                polys,
                count,
            );
        },
        ExpressionView::Scaled(a, _) => {
            law_indices_are_those_of_queries(*a, polys, count);
        },
        ExpressionView::DistributePowers(es, b) => {
            lemma_indices_of_list(es, es.len(), polys, count);
            law_indices_are_those_of_queries(*b, polys, count);
            lemma_all_below_add(
                queries_of_all(es, es.len()),
                queries(*b),
                challenges_of_all(es, es.len()),
                challenges(*b),
                polys,
                count,
            );
        },
        _ => {},
    }
}

/// As [`law_indices_are_those_of_queries`], for the first `n` expressions of a list.
proof fn lemma_indices_of_list(es: Seq<ExpressionView>, n: nat, polys: int, count: int)
    requires
        n <= es.len(),
    ensures
        expression::all_indices_below(es, n, polys, count) <==> all_below(
            queries_of_all(es, n),
            challenges_of_all(es, n),
            polys,
            count,
        ),
    decreases es, n,
{
    if n > 0 {
        let k = (n - 1) as nat;
        lemma_indices_of_list(es, k, polys, count);
        law_indices_are_those_of_queries(es[n - 1], polys, count);
        lemma_all_below_add(
            queries_of_all(es, k),
            queries(es[n - 1]),
            challenges_of_all(es, k),
            challenges(es[n - 1]),
            polys,
            count,
        );
    }
}

/// Degrees of products add up, a sum has the larger of two degrees, and neither a sign nor a
/// constant factor counts. Distributed powers have the largest degree among the listed
/// expressions, each with as many times the base's degree as stand before it.
pub proof fn law_degrees(a: ExpressionView, b: ExpressionView, es: Seq<ExpressionView>, c: int)
    ensures
        expression::degree(ExpressionView::Product(Box::new(a), Box::new(b)))
            == expression::degree(a) + expression::degree(b),
        expression::degree(ExpressionView::Sum(Box::new(a), Box::new(b))) >= expression::degree(a),
        expression::degree(ExpressionView::Sum(Box::new(a), Box::new(b))) >= expression::degree(b),
        expression::degree(ExpressionView::Sum(Box::new(a), Box::new(b))) == expression::degree(a)
            || expression::degree(ExpressionView::Sum(Box::new(a), Box::new(b)))
            == expression::degree(b),
        expression::degree(ExpressionView::Negated(Box::new(a))) == expression::degree(a),
        expression::degree(ExpressionView::Scaled(Box::new(a), c)) == expression::degree(a),
        expression::degree(ExpressionView::Constant(c)) == 0,
        expression::degree(ExpressionView::Challenge(c)) == 0,
        forall|q: Query| #[trigger] expression::degree(ExpressionView::Polynomial(q)) == 1,
        forall|i: int|
            0 <= i < es.len() ==> expression::degree(#[trigger] es[i]) + i * expression::degree(b)
                <= expression::degree(ExpressionView::DistributePowers(es, Box::new(b))),
        es.len() > 0 ==> exists|i: int|
            0 <= i < es.len() && expression::degree(#[trigger] es[i]) + i * expression::degree(b)
                == expression::degree(ExpressionView::DistributePowers(es, Box::new(b))),
{
    lemma_distributed_degree(es, es.len(), expression::degree(b));
}

/// As [`law_degrees`], for the first `n` expressions of a list.
proof fn lemma_distributed_degree(es: Seq<ExpressionView>, n: nat, base: nat)
    requires
        n <= es.len(),
    ensures
        forall|i: int|
            0 <= i < n ==> expression::degree(#[trigger] es[i]) + i * base
                <= expression::distributed_degree(es, n, base),
        n > 0 ==> exists|i: int|
            0 <= i < n && expression::degree(#[trigger] es[i]) + i * base
                == expression::distributed_degree(es, n, base),
    decreases n,
{
    if n > 0 {
        let k = (n - 1) as nat;
        lemma_distributed_degree(es, k, base);
        let before = expression::distributed_degree(es, k, base);
        let here = expression::degree(es[n - 1]) + (n - 1) as nat * base;
        assert(expression::distributed_degree(es, n, base) == expression::max_nat(before, here));
        if before >= here && k > 0 {
            let i = choose|i: int|
                0 <= i < k && expression::degree(#[trigger] es[i]) + i * base == before;
            assert(expression::degree(es[i]) + i * base == expression::distributed_degree(
                es,
                n,
                base,
            ));
        } else {
            assert(here >= 0) by (nonlinear_arith)
                requires
                    here == expression::degree(es[n - 1]) + (n - 1) as nat * base,
            ;
            assert(expression::degree(es[n - 1]) + (n - 1) * base == expression::distributed_degree(
                es,
                n,
                base,
            ));
        }
    }
}

/// Replacing rotated queries does not change the degree of an expression.
pub proof fn law_replacing_rotations_keeps_degree(
    e: ExpressionView,
    shifts: Seq<ShiftConstraint>,
    num_polys: nat,
)
    ensures
        expression::degree(hyperplonk_brakedown::without_rotations(e, shifts, num_polys))
            == expression::degree(e),
    decreases e, 0nat,
{
    match e {
        ExpressionView::Negated(a) => {
            law_replacing_rotations_keeps_degree(*a, shifts, num_polys);
        },
        ExpressionView::Sum(a, b) => {
            law_replacing_rotations_keeps_degree(*a, shifts, num_polys);
            law_replacing_rotations_keeps_degree(*b, shifts, num_polys);
        },
        ExpressionView::Product(a, b) => {
            law_replacing_rotations_keeps_degree(*a, shifts, num_polys);
            law_replacing_rotations_keeps_degree(*b, shifts, num_polys);
        },
        ExpressionView::Scaled(a, _) => {
            law_replacing_rotations_keeps_degree(*a, shifts, num_polys);
        },
        ExpressionView::DistributePowers(es, b) => {
            law_replacing_rotations_keeps_degree(*b, shifts, num_polys);
            lemma_degree_of_replaced_list(es, es.len(), shifts, num_polys, expression::degree(*b));
        },
        _ => {},
    }
}

/// As [`law_replacing_rotations_keeps_degree`], for the first `n` expressions of a list.
proof fn lemma_degree_of_replaced_list(
    es: Seq<ExpressionView>,
    n: nat,
    shifts: Seq<ShiftConstraint>,
    num_polys: nat,
    base: nat,
)
    requires
        n <= es.len(),
    ensures
        ({
            let replaced = hyperplonk_brakedown::all_without_rotations(es, n, shifts, num_polys);
            &&& replaced.len() == n
            &&& expression::distributed_degree(replaced, n, base) == expression::distributed_degree(
                es,
                n,
                base,
            )
        }),
    decreases es, n,
{
    if n > 0 {
        let k = (n - 1) as nat;
        lemma_degree_of_replaced_list(es, k, shifts, num_polys, base);
        law_replacing_rotations_keeps_degree(es[n - 1], shifts, num_polys);
        let before = hyperplonk_brakedown::all_without_rotations(es, k, shifts, num_polys);
        let replaced = hyperplonk_brakedown::all_without_rotations(es, n, shifts, num_polys);
        lemma_degree_of_prefix(replaced, before, k, base);
    }
}

/// The degree of a list's beginning depends on it alone.
proof fn lemma_degree_of_prefix(
    es: Seq<ExpressionView>,
    front: Seq<ExpressionView>,
    n: nat,
    base: nat,
)
    requires
        n <= front.len() <= es.len(),
        forall|i: int| 0 <= i < front.len() ==> #[trigger] front[i] == es[i],
    ensures
        expression::distributed_degree(es, n, base) == expression::distributed_degree(
            front,
            n,
            base,
        ),
    decreases n,
{
    if n > 0 {
        let k = (n - 1) as nat;
        lemma_degree_of_prefix(es, front, k, base);
        assert(front[n - 1] == es[n - 1]);
        assert(expression::distributed_degree(es, n, base) == expression::max_nat(
            expression::distributed_degree(es, k, base),
            expression::degree(es[n - 1]) + k * base,
        ));
        assert(expression::distributed_degree(front, n, base) == expression::max_nat(
            expression::distributed_degree(front, k, base),
            expression::degree(front[n - 1]) + k * base,
        ));
    }
}

/// The sum of a list is the sum of its entries.
pub proof fn law_total_is_the_sum(s: Seq<usize>)
    ensures
        backend::total(s) == sum::sum_to(|i: int| s[i] as int, s.len()),
    decreases s.len(),
{
    if s.len() > 0 {
        let fewer = s.drop_last();
        law_total_is_the_sum(fewer);
        let f = |i: int| s[i] as int;
        let g = |i: int| fewer[i] as int;
        assert forall|i: int| 0 <= i < fewer.len() implies #[trigger] f(i) == g(i) by {}
        sum::lemma_sum_eq(f, g, fewer.len());
    }
}

/// Whether an expression uses only polynomials and challenges that the circuit has.
pub open spec fn uses_what_exists<F: PrimeField>(info: PlonkishCircuitInfo<F>, e: ExpressionView) -> bool {
    all_below(
        queries(e),
        challenges(e),
        info.num_instances@.len() + info.preprocess_polys@.len() + sum::sum_to(
            |i: int| info.num_witness_polys@[i] as int,
            info.num_witness_polys@.len(),
        ),
        sum::sum_to(|i: int| info.num_challenges@[i] as int, info.num_challenges@.len()),
    )
}

/// A circuit is well formed exactly if it has as many phases of challenges as of witness
/// polynomials, a witness polynomial in every phase and a challenge in every phase but the last;
/// if its constraints, lookups and permutations use only what exists; and if no constraint is
/// of too large a degree.
pub proof fn law_well_formed_circuits<F: PrimeField>(info: PlonkishCircuitInfo<F>)
    ensures
        info.well_formed() <==> {
            &&& info.num_witness_polys@.len() == info.num_challenges@.len()
            &&& forall|i: int|
                0 <= i < info.num_witness_polys@.len() ==> #[trigger] info.num_witness_polys@[i] >= 1
            &&& forall|i: int|
                0 <= i < info.num_challenges@.len() - 1 ==> #[trigger] info.num_challenges@[i] >= 1
            &&& forall|i: int|
                0 <= i < info.constraints@.len() ==> uses_what_exists(
                    info,
                    (#[trigger] info.constraints@[i])@,
                )
            &&& forall|i: int, j: int|
                0 <= i < info.lookups@.len() && 0 <= j < info.lookups@[i]@.len()
                    ==> uses_what_exists(info, (#[trigger] info.lookups@[i]@[j]).0@)
                    && uses_what_exists(info, info.lookups@[i]@[j].1@)
            &&& forall|i: int, j: int|
                0 <= i < info.permutations@.len() && 0 <= j < info.permutations@[i]@.len() ==> (
                #[trigger] info.permutations@[i]@[j]).0 < info.num_instances@.len()
                    + info.preprocess_polys@.len() + sum::sum_to(
                    |t: int| info.num_witness_polys@[t] as int,
                    info.num_witness_polys@.len(),
                )
            &&& info.max_degree matches Some(most) ==> forall|i: int|
                0 <= i < info.constraints@.len() ==> expression::degree(
                    (#[trigger] info.constraints@[i])@,
                ) <= most
        },
{
    law_total_is_the_sum(info.num_witness_polys@);
    law_total_is_the_sum(info.num_challenges@);
    let polys = info.num_polys();
    let count = backend::total(info.num_challenges@);
    assert forall|e: ExpressionView| #[trigger] uses_what_exists(info, e)
        <==> expression::indices_below(e, polys, count) by {
        law_indices_are_those_of_queries(e, polys, count);
    }
    assert forall|i: int| 0 <= i < info.constraints@.len() implies (uses_what_exists(
        info,
        (#[trigger] info.constraints@[i])@,
    ) <==> expression::indices_below(info.constraints@[i]@, polys, count)) by {}
    assert forall|i: int, j: int|
        0 <= i < info.lookups@.len() && 0 <= j < info.lookups@[i]@.len() implies (
    uses_what_exists(info, (#[trigger] info.lookups@[i]@[j]).0@) <==> expression::indices_below(
        info.lookups@[i]@[j].0@,
        polys,
        count,
    )) && (uses_what_exists(info, info.lookups@[i]@[j].1@) <==> expression::indices_below(
        info.lookups@[i]@[j].1@,
        polys,
        count,
    )) by {}
}

} // verus!
