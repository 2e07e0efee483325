//! Why an accepted sum-check is convincing.

use crate::piop::sum_check;
use crate::piop::sum_check::acceptance;
use crate::piop::sum_check::{Form, ProductView};
use crate::poly::hypercube;
use crate::util::modular;
use crate::util::polynomial;
use vstd::arithmetic::power2::pow2;
use vstd::prelude::*;

verus! {

/// The products with their first variables set to the given challenges.
pub open spec fn folded(ts: Seq<ProductView>, cs: Seq<int>, m: int) -> Seq<ProductView>
    decreases cs.len(),
{
    if cs.len() == 0 {
        ts
    } else {
        sum_check::fold_products(folded(ts, cs.drop_last(), m), cs.last(), m)
    }
}

/// Setting variables keeps sizes and extensions.
proof fn lemma_folded(
    ts: Seq<ProductView>,
    cs: Seq<int>,
    n: nat,
    m: int,
    i: int,
    rest: Seq<int>,
)
    requires
        m > 0,
        cs.len() <= n,
        sum_check::of_size(ts, n),
        0 <= i < ts.len(),
    ensures
        ({
            let us = folded(ts, cs, m);
            &&& us.len() == ts.len()
            &&& sum_check::of_size(us, (n - cs.len()) as nat)
            &&& us[i].scalar == ts[i].scalar
            &&& modular::cong(
                hypercube::mle(us[i].lhs, rest),
                hypercube::mle(ts[i].lhs, cs + rest),
                m,
            )
            &&& modular::cong(
                hypercube::mle(us[i].rhs, rest),
                hypercube::mle(ts[i].rhs, cs + rest),
                m,
            )
        }),
    decreases cs.len(),
{
    if cs.len() == 0 {
        assert(cs + rest =~= rest);
    } else {
        let fewer = cs.drop_last();
        let c = cs.last();
        let longer = seq![c] + rest;
        lemma_folded(ts, fewer, n, m, i, longer);
        let before = folded(ts, fewer, m);
        let after = folded(ts, cs, m);
        let k = (n - cs.len()) as nat;
        assert(cs + rest =~= fewer + longer);
        sum_check::lemma_fold_size(before, c, k, m);
        hypercube::lemma_pow2_step(k);
        let t = before[i];
        assert(t.lhs.len() == pow2(k + 1));
        assert(longer.drop_first() =~= rest);
        hypercube::lemma_mle_fold(t.lhs, longer);
        hypercube::lemma_mle_fold(t.rhs, longer);
        sum_check::lemma_reduced_cong(hypercube::fold(t.lhs, c), m);
        sum_check::lemma_reduced_cong(hypercube::fold(t.rhs, c), m);
        assert(modular::cong_seq(rest, rest, m));
        hypercube::lemma_mle_cong(after[i].lhs, hypercube::fold(t.lhs, c), rest, rest, m);
        hypercube::lemma_mle_cong(after[i].rhs, hypercube::fold(t.rhs, c), rest, rest, m);
    }
}

/// Setting variables keeps sizes.
proof fn lemma_folded_size(ts: Seq<ProductView>, cs: Seq<int>, n: nat, m: int)
    requires
        cs.len() <= n,
        sum_check::of_size(ts, n),
    ensures
        folded(ts, cs, m).len() == ts.len(),
        sum_check::of_size(folded(ts, cs, m), (n - cs.len()) as nat),
    decreases cs.len(),
{
    if cs.len() > 0 {
        lemma_folded_size(ts, cs.drop_last(), n, m);
        sum_check::lemma_fold_size(
            folded(ts, cs.drop_last(), m),
            cs.last(),
            (n - cs.len()) as nat,
            m,
        );
    }
}

/// Once all variables are set, the products sum to their value at the challenges.
proof fn lemma_folded_all(ts: Seq<ProductView>, cs: Seq<int>, m: int)
    requires
        m > 0,
        sum_check::of_size(ts, cs.len()),
    ensures
        modular::cong(
            sum_check::claim(folded(ts, cs, m)),
            sum_check::value_at(ts, cs),
            m,
        ),
{
    let us = folded(ts, cs, m);
    let none = Seq::<int>::empty();
    lemma_folded_size(ts, cs, cs.len(), m);
    assert(cs + none =~= cs);
    assert forall|i: int| 0 <= i < us.len() implies {
        &&& (#[trigger] us[i]).scalar == ts[i].scalar
        &&& modular::cong(hypercube::mle(us[i].lhs, none), hypercube::mle(ts[i].lhs, cs), m)
        &&& modular::cong(hypercube::mle(us[i].rhs, none), hypercube::mle(ts[i].rhs, cs), m)
    } by {
        lemma_folded(ts, cs, cs.len(), m, i, none);
    }
    sum_check::lemma_claim_single(ts, us, cs, m);
}

/// A message takes a value whatever stands for it.
proof fn lemma_takes_cong(form: Form, msg: Seq<int>, x: int, v: int, w: int, m: int)
    requires
        m > 0,
        modular::cong(v, w, m),
        acceptance::takes(form, msg, x, v, m),
    ensures
        acceptance::takes(form, msg, x, w, m),
{
    modular::lemma_cong_mul(2, 2, v, w, m);
}

/// Whether a message passes although it is wrong: its polynomial is not the true one, but takes
/// the true one's value at the challenge. The true one is that of the products `ts` in their
/// first variable, summed over all others.
pub open spec fn passes_by_chance(
    form: Form,
    ts: Seq<ProductView>,
    msg: Seq<int>,
    c: int,
    m: int,
) -> bool {
    &&& acceptance::takes(form, msg, c, sum_check::round_value(ts, c), m)
    &&& !(acceptance::takes(form, msg, 0, sum_check::round_value(ts, 0), m) && acceptance::takes(
        form,
        msg,
        1,
        sum_check::round_value(ts, 1),
        m,
    ))
}

/// What the products sum to before a round is the sum of the true polynomial's values at zero
/// and one, and after it its value at the challenge.
proof fn lemma_true_round(ts: Seq<ProductView>, cs: Seq<int>, j: int, n: nat, m: int)
    requires
        m > 0,
        0 <= j < n,
        n <= cs.len(),
        sum_check::of_size(ts, n),
    ensures
        ({
            let g = folded(ts, cs.take(j), m);
            &&& sum_check::claim(g) == sum_check::round_value(g, 0) + sum_check::round_value(g, 1)
            &&& modular::cong(
                sum_check::claim(folded(ts, cs.take(j + 1), m)),
                sum_check::round_value(g, cs[j]),
                m,
            )
        }),
{
    let g = folded(ts, cs.take(j), m);
    let k = (n - j - 1) as nat;
    lemma_folded_size(ts, cs.take(j), n, m);
    assert(cs.take(j + 1).drop_last() =~= cs.take(j));
    sum_check::lemma_claim_split(g, k);
    sum_check::lemma_claim_fold(g, cs[j], k, m);
    let c0 = sum_check::value_at_zero(g);
    let c2 = sum_check::quadratic(g);
    let c1 = sum_check::value_at_one(g) - c0 - c2;
    assert(0 * (c1 + 0 * c2) == 0) by (nonlinear_arith);
    assert(1 * (c1 + 1 * c2) == c1 + c2) by (nonlinear_arith);
}

/// Soundness: if messages all fit and lead from a wrong sum to the right value at the challenges,
/// then in some round a wrong message passed by chance.
pub proof fn law_wrong_sums_pass_by_chance_only(
    form: Form,
    ts: Seq<ProductView>,
    msgs: Seq<Seq<int>>,
    cs: Seq<int>,
    left: Seq<int>,
    m: int,
)
    requires
        m > 2,
        m % 2 == 1,
        cs.len() == msgs.len(),
        sum_check::of_size(ts, msgs.len()),
        acceptance::rounds_fit(form, msgs, cs, left, m),
        left[0] != sum_check::claim(ts) % m,
        left.last() == sum_check::value_at(ts, cs) % m,
    ensures
        exists|j: int|
            0 <= j < msgs.len() && passes_by_chance(
                form,
                folded(ts, cs.take(j), m),
                #[trigger] msgs[j],
                cs[j],
                m,
            ),
{
    let n = msgs.len();
    lemma_folded_all(ts, cs, m);
    assert(cs.take(n as int) =~= cs);
    assert(cs.take(0) =~= Seq::empty());
    let j = lemma_where_it_turns(ts, cs, left, n, m);
    let g = folded(ts, cs.take(j), m);
    let msg = msgs[j];
    lemma_true_round(ts, cs, j, n, m);
    let after = sum_check::claim(folded(ts, cs.take(j + 1), m));
    let v = sum_check::round_value(g, cs[j]);
    assert(acceptance::takes(form, msg, cs[j], left[j + 1], m));
    modular::lemma_small(left[j + 1], m);
    lemma_takes_cong(form, msg, cs[j], left[j + 1], v, m);
    if acceptance::takes(form, msg, 0, sum_check::round_value(g, 0), m) && acceptance::takes(
        form,
        msg,
        1,
        sum_check::round_value(g, 1),
        m,
    ) {
        assert(left[j] == sum_check::claim(g) % m);
    }
    assert(passes_by_chance(form, folded(ts, cs.take(j), m), msgs[j], cs[j], m));
}

/// Where what is left turns from wrong to right.
proof fn lemma_where_it_turns(
    ts: Seq<ProductView>,
    cs: Seq<int>,
    left: Seq<int>,
    n: nat,
    m: int,
) -> (j: int)
    requires
        left.len() > n,
        left[0] != sum_check::claim(folded(ts, cs.take(0), m)) % m,
        left[n as int] == sum_check::claim(folded(ts, cs.take(n as int), m)) % m,
    ensures
        0 <= j < n,
        left[j] != sum_check::claim(folded(ts, cs.take(j), m)) % m,
        left[j + 1] == sum_check::claim(folded(ts, cs.take(j + 1), m)) % m,
    decreases n,
{
    let k = (n - 1) as nat;
    if left[k as int] != sum_check::claim(folded(ts, cs.take(k as int), m)) % m {
        k as int
    } else {
        lemma_where_it_turns(ts, cs, left, k, m)
    }
}

/// The difference between the polynomial of a message and the true one, by its coefficients; for
/// a message in values, twice the difference.
spec fn difference(form: Form, ts: Seq<ProductView>, msg: Seq<int>) -> Seq<int> {
    let c0 = sum_check::value_at_zero(ts);
    let c2 = sum_check::quadratic(ts);
    let c1 = sum_check::value_at_one(ts) - c0 - c2;
    match form {
        Form::Coefficients => seq![msg[0] - c0, msg[1] - c1, msg[2] - c2],
        Form::Evaluations => seq![
            2 * msg[0] - 2 * c0,
            4 * msg[1] - 3 * msg[0] - msg[2] - 2 * c1,
            msg[0] - 2 * msg[1] + msg[2] - 2 * c2,
        ],
    }
}

/// The polynomials agree where the difference vanishes.
proof fn lemma_difference(form: Form, ts: Seq<ProductView>, msg: Seq<int>, x: int, m: int)
    requires
        m > 0,
    ensures
        acceptance::takes(form, msg, x, sum_check::round_value(ts, x), m) <==> polynomial::horner(
            difference(form, ts, msg),
            x,
        ) % m == 0,
{
    let (a, b, c) = (msg[0], msg[1], msg[2]);
    let c0 = sum_check::value_at_zero(ts);
    let c2 = sum_check::quadratic(ts);
    let c1 = sum_check::value_at_one(ts) - c0 - c2;
    let v = sum_check::round_value(ts, x);
    let d = difference(form, ts, msg);
    assert(polynomial::horner(d, x) == d[0] + x * (d[1] + x * d[2])) by {
        reveal_with_fuel(polynomial::horner, 4);
        let d1 = d.drop_first();
        let d2 = d1.drop_first();
        assert(d2.drop_first().len() == 0);
        assert(d1[0] == d[1] && d2[0] == d[2]);
        assert(x * 0 == 0) by (nonlinear_arith);
    }
    modular::lemma_small(0, m);
    match form {
        Form::Coefficients => {
            let w = a + b * x + c * (x * x);
            assert(d[0] + x * (d[1] + x * d[2]) == w - v) by (nonlinear_arith)
                requires
                    d[0] == a - c0,
                    d[1] == b - c1,
                    d[2] == c - c2,
                    v == c0 + x * (c1 + x * c2),
                    w == a + b * x + c * (x * x),
            ;
            lemma_zero_difference(w, v, m);
        },
        Form::Evaluations => {
            let w = a * ((x - 1) * (x - 2)) - b * (2 * x * (x - 2)) + c * (x * (x - 1));
            assert(d[0] + x * (d[1] + x * d[2]) == w - 2 * v) by (nonlinear_arith)
                requires
                    d[0] == 2 * a - 2 * c0,
                    d[1] == 4 * b - 3 * a - c - 2 * c1,
                    d[2] == a - 2 * b + c - 2 * c2,
                    v == c0 + x * (c1 + x * c2),
                    w == a * ((x - 1) * (x - 2)) - b * (2 * x * (x - 2)) + c * (x * (x - 1)),
            ;
            lemma_zero_difference(w, 2 * v, m);
        },
    }
}

/// Numbers are congruent exactly if their difference is a multiple.
proof fn lemma_zero_difference(w: int, v: int, m: int)
    requires
        m > 0,
    ensures
        modular::cong(v, w, m) <==> (w - v) % m == 0,
{
    modular::lemma_small(0, m);
    if modular::cong(v, w, m) {
        modular::lemma_cong_sub(w, v, v, v, m);
    }
    if (w - v) % m == 0 {
        modular::lemma_cong_add(w - v, 0, v, v, m);
    }
}

/// A wrong message passes by chance at no more than two challenges: one that takes the true
/// polynomial's value at three different challenges takes it everywhere.
pub proof fn law_chances_are_few(
    form: Form,
    ts: Seq<ProductView>,
    msg: Seq<int>,
    xs: Seq<int>,
    x: int,
    m: int,
)
    requires
        m > 0,
        polynomial::no_zero_divisors(m),
        xs.len() == 3,
        forall|i: int, j: int|
            0 <= i < j < xs.len() ==> #[trigger] xs[i] % m != #[trigger] xs[j] % m,
        forall|i: int|
            0 <= i < xs.len() ==> acceptance::takes(
                form,
                msg,
                #[trigger] xs[i],
                sum_check::round_value(ts, xs[i]),
                m,
            ),
    ensures
        acceptance::takes(form, msg, x, sum_check::round_value(ts, x), m),
{
    let d = difference(form, ts, msg);
    assert forall|i: int| 0 <= i < xs.len() implies polynomial::horner(d, #[trigger] xs[i]) % m
        == 0 by {
        lemma_difference(form, ts, msg, xs[i], m);
    }
    polynomial::law_roots(d, xs, m);
    lemma_difference(form, ts, msg, x, m);
    assert(d[0] % m == 0 && d[1] % m == 0 && d[2] % m == 0);
    modular::lemma_small(0, m);
    assert(polynomial::horner(d, x) == d[0] + x * (d[1] + x * d[2])) by {
        reveal_with_fuel(polynomial::horner, 4);
        let d1 = d.drop_first();
        let d2 = d1.drop_first();
        assert(d2.drop_first().len() == 0);
        assert(d1[0] == d[1] && d2[0] == d[2]);
        assert(x * 0 == 0) by (nonlinear_arith);
    }
    assert(x * 0 == 0) by (nonlinear_arith);
    modular::lemma_cong_mul(x, x, d[2], 0, m);
    modular::lemma_cong_add(d[1], 0, x * d[2], 0, m);
    modular::lemma_cong_mul(x, x, d[1] + x * d[2], 0, m);
    modular::lemma_cong_add(d[0], 0, x * (d[1] + x * d[2]), 0, m);
}

} // verus!
