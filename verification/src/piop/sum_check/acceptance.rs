//! What an accepted sum-check shows.

use crate::piop::sum_check;
use crate::piop::sum_check::Form;
use crate::util::modular;
use crate::util::text;
use crate::util::transcript;
use crate::util::transcript::trace;
use crate::util::transcript::{Event, Model, State};
use crate::ErrorView;
use vstd::arithmetic::div_mod::*;
use vstd::prelude::*;

verus! {

/// Whether the polynomial of degree two that a message stands for takes `value` at `x`. Its
/// coefficients are those that the message holds, or, with both sides doubled, it goes
/// through the values at zero, one and two that the message holds.
pub open spec fn takes(form: Form, msg: Seq<int>, x: int, value: int, m: int) -> bool {
    match form {
        Form::Coefficients => modular::cong(value, msg[0] + msg[1] * x + msg[2] * (x * x), m),
        Form::Evaluations => modular::cong(
            2 * value,
            msg[0] * ((x - 1) * (x - 2)) - msg[1] * (2 * x * (x - 2)) + msg[2] * (x * (x - 1)),
            m,
        ),
    }
}

/// Half of a congruence, modulo an odd number.
pub proof fn lemma_cong_half(a: int, b: int, m: int)
    requires
        m > 2,
        m % 2 == 1,
        modular::cong(2 * a, 2 * b, m),
    ensures
        modular::cong(a, b, m),
{
    let h = (m + 1) / 2;
    modular::lemma_cong_mul(2 * a, 2 * b, h, h, m);
    assert((2 * a) * h == a * m + a) by (nonlinear_arith)
        requires
            2 * h == m + 1,
    ;
    assert((2 * b) * h == b * m + b) by (nonlinear_arith)
        requires
            2 * h == m + 1,
    ;
    lemma_mod_multiples_vanish(a, a, m);
    lemma_mod_multiples_vanish(b, b, m);
    assert(a * m + a == m * a + a) by (nonlinear_arith);
    assert(b * m + b == m * b + b) by (nonlinear_arith);
}

/// The value computed from a message is that of the polynomial that it stands for.
pub proof fn law_message_value(form: Form, msg: Seq<int>, x: int, m: int)
    requires
        m > 2,
        m % 2 == 1,
    ensures
        takes(form, msg, x, sum_check::message_value(form, msg, x, m), m),
{
    let (a, b, c) = (msg[0], msg[1], msg[2]);
    let v = sum_check::message_value(form, msg, x, m);
    match form {
        Form::Coefficients => {
            assert(a + x * (b + x * c) == a + b * x + c * (x * x)) by (nonlinear_arith);
        },
        Form::Evaluations => {
            let d = c - 2 * b + a;
            let h = (m + 1) / 2;
            let q = d * h;
            assert(2 * q == d + d * m) by (nonlinear_arith)
                requires
                    2 * h == m + 1,
                    q == d * h,
            ;
            let goal = a * ((x - 1) * (x - 2)) - b * (2 * x * (x - 2)) + c * (x * (x - 1));
            let e = d * (x * x - x);
            assert(v == a + x * ((b - a - q) + x * q));
            assert(2 * v == 2 * a + 2 * x * (b - a) + (2 * q) * (x * x - x)) by (nonlinear_arith)
                requires
                    v == a + x * ((b - a - q) + x * q),
            ;
            assert((d + d * m) * (x * x - x) == e + m * e) by (nonlinear_arith)
                requires
                    e == d * (x * x - x),
            ;
            assert(goal == 2 * a + 2 * x * (b - a) + e) by (nonlinear_arith)
                requires
                    e == d * (x * x - x),
                    d == c - 2 * b + a,
                    goal == a * ((x - 1) * (x - 2)) - b * (2 * x * (x - 2)) + c * (x * (x - 1)),
            ;
            assert(2 * v == m * e + goal);
            lemma_mod_multiples_vanish(e, goal, m);
        },
    }
}

/// A message in values holds those of its polynomial at zero, one and two.
pub proof fn law_message_holds_values(msg: Seq<int>, v: int, m: int)
    requires
        m > 2,
        m % 2 == 1,
    ensures
        takes(Form::Evaluations, msg, 0, v, m) <==> modular::cong(v, msg[0], m),
        takes(Form::Evaluations, msg, 1, v, m) <==> modular::cong(v, msg[1], m),
        takes(Form::Evaluations, msg, 2, v, m) <==> modular::cong(v, msg[2], m),
{
    let (a, b, c) = (msg[0], msg[1], msg[2]);
    assert(a * ((0int - 1) * (0int - 2)) == 2 * a) by (nonlinear_arith);
    assert(b * (2 * 0int * (0int - 2)) == 0) by (nonlinear_arith);
    assert(c * (0int * (0int - 1)) == 0) by (nonlinear_arith);
    assert(a * ((1int - 1) * (1int - 2)) == 0) by (nonlinear_arith);
    assert(b * (2 * 1int * (1int - 2)) == -2 * b) by (nonlinear_arith);
    assert(c * (1int * (1int - 1)) == 0) by (nonlinear_arith);
    assert(a * ((2int - 1) * (2int - 2)) == 0) by (nonlinear_arith);
    assert(b * (2 * 2int * (2int - 2)) == 0) by (nonlinear_arith);
    assert(c * (2int * (2int - 1)) == 2 * c) by (nonlinear_arith);
    assert forall|w: int| #[trigger] modular::cong(2 * v, 2 * w, m) <==> modular::cong(v, w, m) by {
        if modular::cong(2 * v, 2 * w, m) {
            lemma_cong_half(v, w, m);
        }
        if modular::cong(v, w, m) {
            modular::lemma_cong_mul(2, 2, v, w, m);
        }
    }
    assert(modular::cong(2 * v, 2 * a, m) <==> modular::cong(v, a, m));
    assert(modular::cong(2 * v, 2 * b, m) <==> modular::cong(v, b, m));
    assert(modular::cong(2 * v, 2 * c, m) <==> modular::cong(v, c, m));
}

/// The sum computed from a message is that of the values at zero and one of the polynomial
/// that it stands for.
pub proof fn law_message_sum(form: Form, msg: Seq<int>, a: int, b: int, m: int)
    requires
        m > 2,
        m % 2 == 1,
        takes(form, msg, 0, a, m),
        takes(form, msg, 1, b, m),
    ensures
        modular::cong(sum_check::message_sum(form, msg), a + b, m),
{
    match form {
        Form::Coefficients => {
            assert(msg[1] * 0 == 0 && msg[2] * (0int * 0int) == 0) by (nonlinear_arith);
            assert(msg[1] * 1 == msg[1] && msg[2] * (1int * 1int) == msg[2]) by (nonlinear_arith);
            modular::lemma_cong_add(a, msg[0], b, msg[0] + msg[1] + msg[2], m);
        },
        Form::Evaluations => {
            law_message_holds_values(msg, a, m);
            law_message_holds_values(msg, b, m);
            modular::lemma_cong_add(a, msg[0], b, msg[1], m);
        },
    }
}

/// Whether the messages and challenges of all rounds stand in the transcript: from round to
/// round a message of three elements, and the challenge that is drawn after it.
pub open spec fn rounds_happened<C>(
    mo: Model<C>,
    st: State<C>,
    msgs: Seq<Seq<int>>,
    cs: Seq<int>,
    s: State<C>,
) -> bool {
    let base = st.events.len() as int;
    &&& cs.len() == msgs.len()
    &&& trace::follows(s, st)
    &&& s.events.len() == base + 4 * msgs.len()
    &&& forall|j: int|
        0 <= j < msgs.len() ==> {
            &&& (#[trigger] msgs[j]).len() == 3
            &&& s.events.subrange(base + 4 * j, base + 4 * j + 4) == trace::fields::<C>(
                msgs[j],
            ).push(Event::Squeeze)
            &&& cs[j] == (mo.challenge)(s.events.take(base + 4 * j + 3))
        }
}

/// Whether the rounds lead from `left[0]` to `left.last()`: in each, what is left is the sum
/// of the values at zero and one of the polynomial that was sent, and its value at the
/// challenge is what is left after it.
pub open spec fn rounds_fit(
    form: Form,
    msgs: Seq<Seq<int>>,
    cs: Seq<int>,
    left: Seq<int>,
    m: int,
) -> bool {
    &&& left.len() == msgs.len() + 1
    &&& forall|j: int|
        0 <= j < msgs.len() ==> {
            &&& takes(form, #[trigger] msgs[j], cs[j], left[j + 1], m)
            &&& 0 <= left[j + 1] < m
            &&& 0 <= left[j] < m
            &&& forall|a: int, b: int|
                #[trigger] takes(form, msgs[j], 0, a, m) && #[trigger] takes(form, msgs[j], 1, b, m)
                    ==> left[j] == (a + b) % m
        }
}

/// The messages are read and the challenges drawn in turn.
proof fn lemma_rounds_happened<C>(mo: Model<C>, st: State<C>, n: nat)
    ensures
        sum_check::read_rounds(mo, st, n) matches Ok((s, msgs, cs)) ==> msgs.len() == n
            && rounds_happened(mo, st, msgs, cs, s),
    decreases n,
{
    if n == 0 {
        assert(st.events.take(st.events.len() as int) =~= st.events);
    } else {
        let k = (n - 1) as nat;
        lemma_rounds_happened(mo, st, k);
        if let Ok((s, msgs, cs)) = sum_check::read_rounds(mo, st, n) {
            let (t, msgs0, cs0) = sum_check::read_rounds(mo, st, k)->Ok_0;
            trace::law_read_fields_are_absorbed(mo, t, 3);
            let (msg, v) = transcript::read_fields(mo, t, 3)->Ok_0;
            let base = st.events.len() as int;
            assert(s.events == (t.events + trace::fields(msg)).push(Event::Squeeze));
            assert(s.events =~= t.events + trace::fields(msg).push(Event::Squeeze));
            trace::lemma_follows_more(t, s, trace::fields(msg).push(Event::Squeeze));
            trace::lemma_follows_trans(st, t, s);
            assert forall|j: int| 0 <= j < n implies {
                &&& (#[trigger] msgs[j]).len() == 3
                &&& s.events.subrange(base + 4 * j, base + 4 * j + 4) == trace::fields::<C>(
                    msgs[j],
                ).push(Event::Squeeze)
                &&& cs[j] == (mo.challenge)(s.events.take(base + 4 * j + 3))
            } by {
                if j < k {
                    assert(msgs[j] == msgs0[j]);
                    assert(s.events.subrange(base + 4 * j, base + 4 * j + 4)
                        =~= t.events.subrange(base + 4 * j, base + 4 * j + 4));
                    assert(s.events.take(base + 4 * j + 3) =~= t.events.take(base + 4 * j + 3));
                } else {
                    assert(s.events.subrange(base + 4 * j, base + 4 * j + 4) =~= trace::fields::<C>(
                        msg,
                    ).push(Event::Squeeze));
                    assert(s.events.take(base + 4 * j + 3) =~= v.events);
                }
            }
        }
    }
}

/// What is left after each of the first `n` rounds.
spec fn sums(
    form: Form,
    msgs: Seq<Seq<int>>,
    cs: Seq<int>,
    total: int,
    n: nat,
    m: int,
) -> Seq<int> {
    Seq::new(n + 1, |j: int| sum_check::check_rounds(form, msgs, cs, total, j as nat, m)->Ok_0)
}

/// If all rounds pass, so do the first of them.
proof fn lemma_earlier_rounds_pass(
    form: Form,
    msgs: Seq<Seq<int>>,
    cs: Seq<int>,
    total: int,
    j: nat,
    n: nat,
    m: int,
)
    requires
        j <= n,
        sum_check::check_rounds(form, msgs, cs, total, n, m) is Ok,
    ensures
        sum_check::check_rounds(form, msgs, cs, total, j, m) is Ok,
    decreases n - j,
{
    if j < n {
        lemma_earlier_rounds_pass(form, msgs, cs, total, j + 1, n, m);
    }
}

/// What is left after the checks fits the messages.
proof fn lemma_rounds_fit(
    form: Form,
    msgs: Seq<Seq<int>>,
    cs: Seq<int>,
    total: int,
    m: int,
) -> (left: Seq<int>)
    requires
        m > 2,
        m % 2 == 1,
        sum_check::check_rounds(form, msgs, cs, total, msgs.len(), m) is Ok,
    ensures
        rounds_fit(form, msgs, cs, left, m),
        left[0] == total,
        left.last() == sum_check::check_rounds(form, msgs, cs, total, msgs.len(), m)->Ok_0,
{
    let n = msgs.len();
    let left = sums(form, msgs, cs, total, n, m);
    assert forall|j: int| 0 <= j < n implies {
        &&& takes(form, #[trigger] msgs[j], cs[j], left[j + 1], m)
        &&& 0 <= left[j + 1] < m
        &&& 0 <= left[j] < m
        &&& forall|a: int, b: int|
            #[trigger] takes(form, msgs[j], 0, a, m) && #[trigger] takes(form, msgs[j], 1, b, m)
                ==> left[j] == (a + b) % m
    } by {
        let msg = msgs[j];
        lemma_earlier_rounds_pass(form, msgs, cs, total, j as nat, n, m);
        lemma_earlier_rounds_pass(form, msgs, cs, total, (j + 1) as nat, n, m);
        let v = sum_check::message_value(form, msg, cs[j], m);
        assert(left[j + 1] == v % m);
        law_message_value(form, msg, cs[j], m);
        modular::lemma_cong_reduced(v, m);
        modular::lemma_cong_mul(2, 2, v % m, v, m);
        assert(left[j] == sum_check::message_sum(form, msg) % m);
        assert forall|a: int, b: int|
            #[trigger] takes(form, msg, 0, a, m) && #[trigger] takes(form, msg, 1, b, m)
            implies left[j] == (a + b) % m by {
            law_message_sum(form, msg, a, b, m);
        }
    }
    left
}

/// An accepted sum-check shows the messages of all rounds, each absorbed before its challenge
/// is drawn, and each fits: what is left before the round is the sum of the values at zero and
/// one of the polynomial that was sent, and its value at the challenge is left after the
/// round. It leads from the claimed total to the value that is returned.
pub proof fn law_accepted_rounds<C>(
    form: Form,
    mo: Model<C>,
    st: State<C>,
    total: int,
    n: nat,
    m: int,
)
    requires
        m > 2,
        m % 2 == 1,
    ensures
        sum_check::verify_rounds(form, mo, st, total, n, m) matches Ok((s, v, cs)) ==> exists|
            msgs: Seq<Seq<int>>,
            left: Seq<int>,
        |
            msgs.len() == n && #[trigger] rounds_fit(form, msgs, cs, left, m) && rounds_happened(
                mo,
                st,
                msgs,
                cs,
                s,
            ) && left[0] == total && left.last() == v,
{
    if let Ok((s, v, cs)) = sum_check::verify_rounds(form, mo, st, total, n, m) {
        lemma_rounds_happened(mo, st, n);
        let (s1, msgs, cs1) = sum_check::read_rounds(mo, st, n)->Ok_0;
        let left = lemma_rounds_fit(form, msgs, cs, total, m);
        assert(rounds_fit(form, msgs, cs, left, m));
    }
}

/// What an honest prover sends and draws stands in the transcript in turn.
pub proof fn law_sent_rounds<C>(
    form: Form,
    mo: Model<C>,
    st: State<C>,
    ts: Seq<sum_check::ProductView>,
    total: int,
    n: nat,
    m: int,
)
    ensures
        sum_check::prove_rounds(form, mo, st, ts, total, n, m) matches Ok(p) ==> exists|
            msgs: Seq<Seq<int>>,
        | msgs.len() == n && #[trigger] rounds_happened(mo, st, msgs, p.challenges, p.state),
    decreases n,
{
    if let Ok(p) = sum_check::prove_rounds(form, mo, st, ts, total, n, m) {
        if n == 0 {
            assert(st.events.take(st.events.len() as int) =~= st.events);
            assert(rounds_happened(mo, st, Seq::empty(), p.challenges, p.state));
        } else {
            let k = (n - 1) as nat;
            law_sent_rounds(form, mo, st, ts, total, k, m);
            let q = sum_check::prove_rounds(form, mo, st, ts, total, k, m)->Ok_0;
            let msgs0 = choose|msgs: Seq<Seq<int>>|
                msgs.len() == k && #[trigger] rounds_happened(mo, st, msgs, q.challenges, q.state);
            let msg = sum_check::round_message(form, q.products, m);
            let msgs = msgs0.push(msg);
            let (t, s, cs) = (q.state, p.state, p.challenges);
            trace::law_written_fields_are_absorbed(mo, t, msg);
            let v = transcript::write_fields(mo, t, msg)->Ok_0;
            let base = st.events.len() as int;
            assert(s.events =~= t.events + trace::fields(msg).push(Event::Squeeze));
            trace::lemma_follows_more(t, s, trace::fields(msg).push(Event::Squeeze));
            trace::lemma_follows_trans(st, t, s);
            assert forall|j: int| 0 <= j < n implies {
                &&& (#[trigger] msgs[j]).len() == 3
                &&& s.events.subrange(base + 4 * j, base + 4 * j + 4) == trace::fields::<C>(
                    msgs[j],
                ).push(Event::Squeeze)
                &&& cs[j] == (mo.challenge)(s.events.take(base + 4 * j + 3))
            } by {
                if j < k {
                    assert(msgs[j] == msgs0[j]);
                    assert(s.events.subrange(base + 4 * j, base + 4 * j + 4)
                        =~= t.events.subrange(base + 4 * j, base + 4 * j + 4));
                    assert(s.events.take(base + 4 * j + 3) =~= t.events.take(base + 4 * j + 3));
                } else {
                    assert(s.events.subrange(base + 4 * j, base + 4 * j + 4) =~= trace::fields::<C>(
                        msg,
                    ).push(Event::Squeeze));
                    assert(s.events.take(base + 4 * j + 3) =~= v.events);
                }
            }
            assert(rounds_happened(mo, st, msgs, cs, s));
        }
    }
}

/// A refused sum-check names the first round whose message does not fit: all before it fit, and
/// the sum of the values at zero and one of its polynomial is not what is left.
pub proof fn law_refused_rounds(
    form: Form,
    msgs: Seq<Seq<int>>,
    cs: Seq<int>,
    total: int,
    n: nat,
    m: int,
)
    requires
        m > 2,
        m % 2 == 1,
        n <= msgs.len(),
    ensures
        sum_check::check_rounds(form, msgs, cs, total, n, m) matches Err(e) ==> exists|
            j: nat,
            left: Seq<int>,
        |
            {
                &&& j < n
                &&& e == ErrorView::InvalidSumcheck(
                    "Consistency failure at round "@ + text::decimal(j) + ""@,
                )
                &&& #[trigger] rounds_fit(form, msgs.take(j as int), cs, left, m)
                &&& left[0] == total
                &&& forall|a: int, b: int|
                    #[trigger] takes(form, msgs[j as int], 0, a, m) && #[trigger] takes(
                        form,
                        msgs[j as int],
                        1,
                        b,
                        m,
                    ) ==> left.last() != (a + b) % m
            },
    decreases n,
{
    if let Err(e) = sum_check::check_rounds(form, msgs, cs, total, n, m) {
        let k = (n - 1) as nat;
        if sum_check::check_rounds(form, msgs, cs, total, k, m) is Err {
            law_refused_rounds(form, msgs, cs, total, k, m);
            let (j, left) = choose|j: nat, left: Seq<int>|
                {
                    &&& j < k
                    &&& e == ErrorView::InvalidSumcheck(
                        "Consistency failure at round "@ + text::decimal(j) + ""@,
                    )
                    &&& #[trigger] rounds_fit(form, msgs.take(j as int), cs, left, m)
                    &&& left[0] == total
                    &&& forall|a: int, b: int|
                        #[trigger] takes(form, msgs[j as int], 0, a, m) && #[trigger] takes(
                            form,
                            msgs[j as int],
                            1,
                            b,
                            m,
                        ) ==> left.last() != (a + b) % m
                };
            assert(rounds_fit(form, msgs.take(j as int), cs, left, m));
        } else {
            let front = msgs.take(k as int);
            lemma_same_rounds(form, msgs, front, cs, total, k, m);
            let left = lemma_rounds_fit(form, front, cs, total, m);
            let msg = msgs[k as int];
            assert forall|a: int, b: int|
                #[trigger] takes(form, msg, 0, a, m) && #[trigger] takes(form, msg, 1, b, m)
                implies left.last() != (a + b) % m by {
                law_message_sum(form, msg, a, b, m);
            }
            assert(rounds_fit(form, msgs.take(k as int), cs, left, m));
        }
    }
}

/// The checks of the first rounds look at their messages only.
proof fn lemma_same_rounds(
    form: Form,
    msgs: Seq<Seq<int>>,
    front: Seq<Seq<int>>,
    cs: Seq<int>,
    total: int,
    n: nat,
    m: int,
)
    requires
        n <= front.len() <= msgs.len(),
        forall|i: int| 0 <= i < front.len() ==> #[trigger] front[i] == msgs[i],
    ensures
        sum_check::check_rounds(form, msgs, cs, total, n, m) == sum_check::check_rounds(
            form,
            front,
            cs,
            total,
            n,
            m,
        ),
    decreases n,
{
    if n > 0 {
        lemma_same_rounds(form, msgs, front, cs, total, (n - 1) as nat, m);
        assert(front[n - 1] == msgs[n - 1]);
    }
}

} // verus!
