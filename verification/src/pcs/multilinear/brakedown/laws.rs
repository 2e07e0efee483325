//! What an honest Brakedown opening comes to.

use crate::pcs;
use crate::pcs::multilinear::brakedown;
use crate::pcs::multilinear::brakedown::{BrakedownPcs, BrakedownProverParam, BrakedownVerifierParam};
use crate::pcs::multilinear::merkle;
use crate::pcs::multilinear::merkle::MerkleNode;
use crate::pcs::{EvaluationView, PolynomialCommitmentScheme};
use crate::piop::shift_open;
use crate::piop::sum_check;
use crate::poly::hypercube;
use crate::util::code;
use crate::util::code::CodeView;
use crate::util::field;
use crate::util::field::PrimeField;
use crate::util::hash::HashFunction;
use crate::util::integer;
use crate::util::modular;
use crate::util::ordered;
use crate::util::sum;
use crate::util::transcript;
use crate::util::transcript::{Item, Model, State};
use crate::ErrorView;
use vstd::arithmetic::div_mod::*;
use vstd::arithmetic::mul::*;
use vstd::arithmetic::power2;
use vstd::arithmetic::power2::pow2;
use vstd::prelude::*;

verus! {

/// `eq` at an index whose low bits are `i` and whose high bits are `j`.
proof fn lemma_eq_at_split(i: int, j: int, low: Seq<int>, high: Seq<int>)
    requires
        0 <= i < pow2(low.len()),
        0 <= j,
    ensures
        hypercube::eq_at(j * pow2(low.len()) + i, low + high) == hypercube::eq_at(i, low)
            * hypercube::eq_at(j, high),
    decreases low.len(),
{
    let n = pow2(low.len()) as int;
    if low.len() == 0 {
        power2::lemma2_to64();
        assert(low + high =~= high);
        assert(i == 0 && n == 1);
        assert(j * n == j) by (nonlinear_arith)
            requires
                n == 1,
        ;
    } else {
        let h = pow2((low.len() - 1) as nat) as int;
        hypercube::lemma_pow2_step((low.len() - 1) as nat);
        let rest = low.drop_first();
        let idx = j * n + i;
        assert(j * n == 2 * (j * h)) by (nonlinear_arith)
            requires
                n == 2 * h,
        ;
        assert(idx / 2 == j * h + i / 2 && idx % 2 == i % 2);
        assert((low + high).drop_first() =~= rest + high);
        assert((low + high)[0] == low[0]);
        lemma_eq_at_split(i / 2, j, rest, high);
        let a = hypercube::eq_factor(i % 2 == 1, low[0]);
        let b = hypercube::eq_at(i / 2, rest);
        let c = hypercube::eq_at(j, high);
        assert(hypercube::eq_at(i, low) == a * b);
        assert(hypercube::eq_at(idx, low + high) == a * hypercube::eq_at(idx / 2, rest + high));
        assert(a * (b * c) == (a * b) * c) by (nonlinear_arith);
    }
}

/// A sum over a rectangle, by rows of length `n`.
proof fn lemma_sum_rectangle(f: spec_fn(int) -> int, n: nat, k: nat)
    ensures
        sum::sum_to(f, k * n) == sum::sum_to(|j: int| sum::sum_to(|i: int| f(j * n + i), n), k),
    decreases k,
{
    let outer = |j: int| sum::sum_to(|i: int| f(j * n + i), n);
    if k == 0 {
        assert(k * n == 0) by (nonlinear_arith)
            requires
                k == 0,
        ;
    } else {
        let p = (k - 1) as nat;
        lemma_sum_rectangle(f, n, p);
        assert(k * n == p * n + n) by (nonlinear_arith)
            requires
                k == p + 1,
        ;
        let last = |i: int| f((k - 1) * n + i);
        assert forall|i: int| 0 <= i < n implies #[trigger] last(i) == f((p * n) as nat + i) by {
            assert((k - 1) * n == p * n);
        }
        sum::lemma_sum_split(f, last, (p * n) as nat, n);
        assert(outer(k - 1) == sum::sum_to(last, n)) by {
            sum::lemma_sum_eq(|i: int| f((k - 1) * n + i), last, n);
        }
    }
}

/// The extension at a point is the combination over the columns, with the factors of the
/// late coordinates, of the combination over the rows, with the factors of the early ones.
pub proof fn law_extension_splits(c: CodeView, evals: Seq<int>, low: Seq<int>, high: Seq<int>)
    requires
        c.row_len == pow2(high.len()),
        evals.len() == pow2(low.len() + high.len()),
    ensures
        brakedown::num_rows(c, evals.len()) == pow2(low.len()),
        hypercube::mle(evals, low + high) == sum::dot(
            hypercube::tensor(high),
            code::linear_combination(
                hypercube::tensor(low),
                brakedown::rows(c, evals),
                c.row_len,
            ),
        ),
{
    let n = pow2(low.len());
    let k = pow2(high.len());
    power2::lemma_pow2_pos(low.len());
    power2::lemma_pow2_pos(high.len());
    power2::lemma_pow2_adds(low.len(), high.len());
    assert(n * k == k * n) by (nonlinear_arith);
    lemma_div_by_multiple(n as int, k as int);
    assert(brakedown::num_rows(c, evals.len()) == n);
    let point = low + high;
    let rows = brakedown::rows(c, evals);
    let tl = hypercube::tensor(low);
    let th = hypercube::tensor(high);
    let f = |x: int| evals[x] * hypercube::eq_at(x, point);
    lemma_sum_rectangle(f, n, k);
    let all = code::linear_combination(tl, rows, c.row_len);
    let g = |j: int| th[j] * all[j];
    let outer = |j: int| sum::sum_to(|i: int| f(j * n + i), n);
    assert forall|j: int| 0 <= j < k implies #[trigger] outer(j) == g(j) by {
        let inner = |i: int| tl[i] * rows[i][j];
        let part = |i: int| f(j * n + i);
        assert forall|i: int| 0 <= i < n implies #[trigger] part(i) == th[j] * inner(i) by {
            lemma_eq_at_split(i, j, low, high);
            let e = evals[j * n + i];
            let a = tl[i];
            let b = th[j];
            assert(e * (a * b) == b * (a * e)) by (nonlinear_arith);
        }
        sum::lemma_sum_scale(inner, part, th[j], n);
        sum::lemma_sum_eq(part, |i: int| f(j * n + i), n);
        assert(all[j] == sum::sum_to(|i: int| tl[i] * rows[i][j], rows.len()));
    }
    sum::lemma_sum_eq(outer, g, k);
    assert(evals.len() == k * n);
}

/// The combined row at a column is the combination of that column.
pub proof fn lemma_combined_entry(c: CodeView, evals: Seq<int>, row_point: Seq<int>, j: int, m: int)
    requires
        m > 0,
        c.wf(),
        brakedown::num_rows(c, evals.len()) == pow2(row_point.len()),
        0 <= j < c.codeword_len(),
    ensures
        brakedown::combined_row(c, evals, row_point).len() == c.codeword_len(),
        brakedown::combined_row(c, evals, row_point)[j] % m == sum::dot(
            modular::reduce_seq(hypercube::tensor(row_point), m),
            brakedown::columns(c, evals, m)[j],
        ) % m,
{
    let t = hypercube::tensor(row_point);
    let rows = brakedown::rows(c, evals);
    let words = brakedown::codewords(c, evals);
    code::law_code_is_linear(c, t, rows, words, c.parity.len());
    let col = brakedown::columns(c, evals, m)[j];
    let raw = Seq::new(rows.len(), |i: int| words[i][j]);
    sum_check::lemma_reduced_cong(t, m);
    assert(col =~= modular::reduce_seq(raw, m));
    sum_check::lemma_reduced_cong(raw, m);
    sum::lemma_dot_cong(modular::reduce_seq(t, m), col, t, raw, m);
    let f = |i: int| t[i] * raw[i];
    let g = |i: int| t[i] * words[i][j];
    sum::lemma_sum_eq(f, g, rows.len());
}

/// The first entries of the combined row, combined with the factors of the late
/// coordinates, give the extension's value.
pub proof fn lemma_final_value(c: CodeView, evals: Seq<int>, low: Seq<int>, high: Seq<int>, m: int)
    requires
        m > 0,
        c.wf(),
        c.row_len == pow2(high.len()),
        evals.len() == pow2(low.len() + high.len()),
    ensures
        sum::dot(
            modular::reduce_seq(hypercube::tensor(high), m),
            modular::reduce_seq(brakedown::combined_row(c, evals, low), m).take(c.row_len as int),
        ) % m == hypercube::mle(evals, low + high) % m,
{
    let th = hypercube::tensor(high);
    let all = code::linear_combination(hypercube::tensor(low), brakedown::rows(c, evals), c.row_len);
    let word = brakedown::combined_row(c, evals, low);
    code::law_code_is_systematic(c, all, c.parity.len());
    let head = modular::reduce_seq(word, m).take(c.row_len as int);
    assert(head =~= modular::reduce_seq(all, m)) by {
        assert forall|j: int| 0 <= j < c.row_len implies head[j] == all[j] % m by {
            assert(word.take(c.row_len as int)[j] == all[j]);
        }
    }
    sum_check::lemma_reduced_cong(th, m);
    sum_check::lemma_reduced_cong(all, m);
    sum::lemma_dot_cong(modular::reduce_seq(th, m), head, th, all, m);
    law_extension_splits(c, evals, low, high);
}

/// The columns that challenges pick depend on the events alone.
proof fn lemma_columns_after_mirrors<F: PrimeField, C>(
    mo: Model<C>,
    w: State<C>,
    r: State<C>,
    num_cols: nat,
    n: nat,
    whole: Seq<u8>,
)
    requires
        transcript::mirrors(w, r, whole),
    ensures
        brakedown::columns_after::<F, C>(mo, w, num_cols, n) == brakedown::columns_after::<F, C>(
            mo,
            r,
            num_cols,
            n,
        ),
    decreases n,
{
    if n > 0 {
        let k = (n - 1) as nat;
        lemma_columns_after_mirrors::<F, C>(mo, w, r, num_cols, k, whole);
        transcript::lemma_squeeze_many_mirrors(mo, w, r, k, whole);
    }
}

/// Drawing columns depends on the events alone.
proof fn lemma_draw_columns_mirrors<F: PrimeField, C>(
    mo: Model<C>,
    w: State<C>,
    r: State<C>,
    num_cols: nat,
    num_openings: nat,
    whole: Seq<u8>,
)
    requires
        transcript::mirrors(w, r, whole),
        num_cols > 0,
    ensures
        ({
            let (a, s) = brakedown::column_indices::<F, C>(mo, w, num_cols, num_openings);
            let (b, t) = brakedown::column_indices::<F, C>(mo, r, num_cols, num_openings);
            &&& a == b
            &&& s.proof == w.proof
            &&& transcript::mirrors(s, t, whole)
            &&& ordered::increasing(a)
            &&& forall|i: int| 0 <= i < a.len() ==> 0 <= (#[trigger] a[i]) < num_cols
        }),
{
    let want = brakedown::num_opened(num_cols, num_openings);
    assert forall|n: nat|
        brakedown::enough::<F, C>(mo, w, num_cols, want, n) == #[trigger] brakedown::enough::<F, C>(
            mo,
            r,
            num_cols,
            want,
            n,
        ) by {
        lemma_columns_after_mirrors::<F, C>(mo, w, r, num_cols, n, whole);
    }
    let n = brakedown::num_draws::<F, C>(mo, w, num_cols, want);
    if exists|k: nat| #[trigger] brakedown::enough::<F, C>(mo, r, num_cols, want, k) {
        let k = choose|k: nat| #[trigger] brakedown::enough::<F, C>(mo, r, num_cols, want, k);
        assert(brakedown::enough::<F, C>(mo, w, num_cols, want, k));
        brakedown::lemma_least_draws::<F, C>(mo, w, num_cols, want, k);
        assert(brakedown::enough::<F, C>(mo, r, num_cols, want, n));
        brakedown::lemma_num_draws::<F, C>(mo, r, num_cols, want, n);
    } else {
        assert forall|k: nat| !(#[trigger] brakedown::enough::<F, C>(mo, w, num_cols, want, k)) by {
            assert(!brakedown::enough::<F, C>(mo, r, num_cols, want, k));
        }
    }
    lemma_columns_after_mirrors::<F, C>(mo, w, r, num_cols, n, whole);
    transcript::lemma_squeeze_many_mirrors(mo, w, r, n, whole);
    brakedown::lemma_columns_after::<F, C>(mo, w, num_cols, n);
}

/// The columns to open are different columns, in increasing order. There are as many as
/// asked for, or all there are, unless no number of challenges picks that many; and no
/// fewer challenges would have done.
pub proof fn law_column_indices<F: PrimeField, C>(
    mo: Model<C>,
    st: State<C>,
    num_cols: nat,
    num_openings: nat,
)
    requires
        num_cols > 0,
    ensures
        ({
            let want = brakedown::num_opened(num_cols, num_openings);
            let n = brakedown::num_draws::<F, C>(mo, st, num_cols, want);
            let a = brakedown::column_indices::<F, C>(mo, st, num_cols, num_openings).0;
            &&& ordered::increasing(a)
            &&& forall|i: int| 0 <= i < a.len() ==> 0 <= (#[trigger] a[i]) < num_cols
            &&& a.len() == want || forall|k: nat|
                (#[trigger] brakedown::columns_after::<F, C>(mo, st, num_cols, k)).len() < want
            &&& forall|k: nat|
                k < n ==> (#[trigger] brakedown::columns_after::<F, C>(mo, st, num_cols, k)).len()
                    < want
        }),
{
    let want = brakedown::num_opened(num_cols, num_openings);
    let n = brakedown::num_draws::<F, C>(mo, st, num_cols, want);
    brakedown::lemma_columns_after::<F, C>(mo, st, num_cols, n);
    if exists|k: nat| #[trigger] brakedown::enough::<F, C>(mo, st, num_cols, want, k) {
        let k = choose|k: nat| #[trigger] brakedown::enough::<F, C>(mo, st, num_cols, want, k);
        brakedown::lemma_least_draws::<F, C>(mo, st, num_cols, want, k);
        assert forall|k: nat| k < n implies (
        #[trigger] brakedown::columns_after::<F, C>(mo, st, num_cols, k)).len() < want by {
            assert(!brakedown::enough::<F, C>(mo, st, num_cols, want, k));
        }
        if n > 0 {
            let j = (n - 1) as nat;
            assert(!brakedown::enough::<F, C>(mo, st, num_cols, want, j));
            brakedown::lemma_columns_after::<F, C>(mo, st, num_cols, j);
            ordered::law_insert_keeps_order(
                brakedown::columns_after::<F, C>(mo, st, num_cols, j),
                brakedown::column_of::<F>(transcript::challenge_at(mo, st, j), num_cols),
            );
        }
    } else {
        assert forall|k: nat| (
        #[trigger] brakedown::columns_after::<F, C>(mo, st, num_cols, k)).len() < want by {
            assert(!brakedown::enough::<F, C>(mo, st, num_cols, want, k));
        }
    }
}

/// Writing nodes only ever appends, and they are read back.
proof fn lemma_nodes_appended(mo: Model<[u8; 32]>, w: State<[u8; 32]>, path: Seq<MerkleNode>)
    requires
        brakedown::write_nodes(mo, w, path) is Ok,
    ensures
        transcript::starts_with(brakedown::write_nodes(mo, w, path)->Ok_0.proof, w),
    decreases path.len(),
{
    if path.len() == 0 {
        assert(w.proof.subrange(0, w.proof.len() as int) =~= w.proof);
    } else {
        lemma_nodes_appended(mo, w, path.drop_last());
        let mid = brakedown::write_nodes(mo, w, path.drop_last())->Ok_0;
        transcript::lemma_write_appends(mo, mid, Item::Chunk(path.last().0));
        transcript::lemma_starts_trans(brakedown::write_nodes(mo, w, path)->Ok_0.proof, w, mid);
    }
}

/// Nodes that were written are read back.
proof fn lemma_nodes_read_back(
    mo: Model<[u8; 32]>,
    m: int,
    w: State<[u8; 32]>,
    r: State<[u8; 32]>,
    path: Seq<MerkleNode>,
    whole: Seq<u8>,
)
    requires
        transcript::round_trips(mo, m),
        brakedown::write_nodes(mo, w, path) is Ok,
        transcript::mirrors(w, r, whole),
        transcript::starts_with(whole, brakedown::write_nodes(mo, w, path)->Ok_0),
    ensures
        brakedown::read_nodes(mo, r, path.len()) matches Ok((p, s)) && p == path
            && transcript::mirrors(brakedown::write_nodes(mo, w, path)->Ok_0, s, whole),
    decreases path.len(),
{
    if path.len() == 0 {
        assert(path =~= Seq::empty());
    } else {
        let mid = brakedown::write_nodes(mo, w, path.drop_last())->Ok_0;
        let item = Item::Chunk(path.last().0);
        transcript::lemma_write_appends(mo, mid, item);
        transcript::lemma_starts_trans(whole, mid, brakedown::write_nodes(mo, w, path)->Ok_0);
        lemma_nodes_read_back(mo, m, w, r, path.drop_last(), whole);
        let (p, s) = brakedown::read_nodes(mo, r, (path.len() - 1) as nat)->Ok_0;
        transcript::lemma_chunk_read_back(mo, m, mid, s, path.last().0, whole);
        assert(p.push(path.last()) =~= path);
    }
}

/// Writing columns only ever appends.
proof fn lemma_columns_appended<F: PrimeField, H: HashFunction>(
    mo: Model<[u8; 32]>,
    w: State<[u8; 32]>,
    cols: Seq<Seq<int>>,
    indices: Seq<int>,
)
    requires
        brakedown::write_columns::<F, H>(mo, w, cols, indices) is Ok,
    ensures
        transcript::starts_with(
            brakedown::write_columns::<F, H>(mo, w, cols, indices)->Ok_0.proof,
            w,
        ),
    decreases indices.len(),
{
    if indices.len() == 0 {
        assert(w.proof.subrange(0, w.proof.len() as int) =~= w.proof);
    } else {
        lemma_columns_appended::<F, H>(mo, w, cols, indices.drop_last());
        let mid = brakedown::write_columns::<F, H>(mo, w, cols, indices.drop_last())->Ok_0;
        let done = brakedown::write_columns::<F, H>(mo, w, cols, indices)->Ok_0;
        let i = indices.last();
        let leaves = merkle::leaves_spec::<F, H>(cols);
        let path = merkle::path_spec::<H>(leaves, (leaves.len() - 1 + i) as nat);
        lemma_column_appended(mo, mid, cols[i], path);
        transcript::lemma_starts_trans(done.proof, w, mid);
    }
}

/// Writing a column with its path only ever appends.
proof fn lemma_column_appended(
    mo: Model<[u8; 32]>,
    w: State<[u8; 32]>,
    column: Seq<int>,
    path: Seq<MerkleNode>,
)
    requires
        brakedown::write_column(mo, w, column, path) is Ok,
    ensures
        transcript::starts_with(brakedown::write_column(mo, w, column, path)->Ok_0.proof, w),
{
    let sent = transcript::write_fields(mo, w, column)->Ok_0;
    transcript::lemma_write_fields_appends(mo, w, column);
    lemma_nodes_appended(mo, sent, path);
    transcript::lemma_starts_trans(
        brakedown::write_column(mo, w, column, path)->Ok_0.proof,
        w,
        sent,
    );
}

/// The root that an honest commitment to `cols` has, where a root is asked for.
spec fn honest_root<F: PrimeField, H: HashFunction>(
    root: Option<MerkleNode>,
    cols: Seq<Seq<int>>,
) -> bool {
    root is Some ==> root->Some_0 == merkle::node_at::<H>(merkle::leaves_spec::<F, H>(cols), 0)
}

/// An honestly opened column is accepted.
proof fn lemma_column_accepted<F: PrimeField, H: HashFunction>(
    c: CodeView,
    evals: Seq<int>,
    row_point: Seq<int>,
    root: Option<MerkleNode>,
    i: int,
    mo: Model<[u8; 32]>,
    w: State<[u8; 32]>,
    r: State<[u8; 32]>,
    whole: Seq<u8>,
)
    requires
        c.wf(),
        transcript::round_trips(mo, F::modulus()),
        brakedown::num_rows(c, evals.len()) == pow2(row_point.len()),
        honest_root::<F, H>(root, brakedown::columns(c, evals, F::modulus())),
        0 <= i < c.codeword_len(),
        transcript::mirrors(w, r, whole),
        ({
            let cols = brakedown::columns(c, evals, F::modulus());
            let leaves = merkle::leaves_spec::<F, H>(cols);
            let path = merkle::path_spec::<H>(leaves, (leaves.len() - 1 + i) as nat);
            let done = brakedown::write_column(mo, w, cols[i], path);
            done is Ok && transcript::starts_with(whole, done->Ok_0)
        }),
    ensures
        ({
            let m = F::modulus();
            let cols = brakedown::columns(c, evals, m);
            let leaves = merkle::leaves_spec::<F, H>(cols);
            let path = merkle::path_spec::<H>(leaves, (leaves.len() - 1 + i) as nat);
            let done = brakedown::write_column(mo, w, cols[i], path)->Ok_0;
            brakedown::check_column::<F, H>(
                mo,
                r,
                root,
                modular::reduce_seq(brakedown::combined_row(c, evals, row_point), m),
                modular::reduce_seq(hypercube::tensor(row_point), m),
                integer::ceil_log2(c.codeword_len()),
                i,
            ) matches Ok(s) && transcript::mirrors(done, s, whole)
        }),
{
    let m = F::modulus();
    F::modulus_is_odd();
    let cols = brakedown::columns(c, evals, m);
    let leaves = merkle::leaves_spec::<F, H>(cols);
    let idx = (leaves.len() - 1 + i) as nat;
    let path = merkle::path_spec::<H>(leaves, idx);
    let column = cols[i];
    let sent = transcript::write_fields(mo, w, column)->Ok_0;
    let done = brakedown::write_column(mo, w, column, path)->Ok_0;
    lemma_nodes_appended(mo, sent, path);
    transcript::lemma_starts_trans(whole, sent, done);
    assert(transcript::in_range(column, m));
    transcript::lemma_fields_read_back(mo, m, w, r, column, whole);
    let (_, t) = transcript::read_fields(mo, r, column.len())->Ok_0;
    lemma_nodes_read_back(mo, m, sent, t, path, whole);
    merkle::law_auth_path_verifies::<F, H>(cols, i);
    lemma_combined_entry(c, evals, row_point, i, m);
}

/// Honestly opened columns are accepted.
proof fn lemma_columns_accepted<F: PrimeField, H: HashFunction>(
    c: CodeView,
    evals: Seq<int>,
    row_point: Seq<int>,
    root: Option<MerkleNode>,
    indices: Seq<int>,
    mo: Model<[u8; 32]>,
    w: State<[u8; 32]>,
    r: State<[u8; 32]>,
    whole: Seq<u8>,
)
    requires
        c.wf(),
        transcript::round_trips(mo, F::modulus()),
        brakedown::num_rows(c, evals.len()) == pow2(row_point.len()),
        honest_root::<F, H>(root, brakedown::columns(c, evals, F::modulus())),
        forall|i: int| 0 <= i < indices.len() ==> 0 <= (#[trigger] indices[i]) < c.codeword_len(),
        transcript::mirrors(w, r, whole),
        ({
            let cols = brakedown::columns(c, evals, F::modulus());
            let done = brakedown::write_columns::<F, H>(mo, w, cols, indices);
            done is Ok && transcript::starts_with(whole, done->Ok_0)
        }),
    ensures
        ({
            let m = F::modulus();
            let cols = brakedown::columns(c, evals, m);
            let done = brakedown::write_columns::<F, H>(mo, w, cols, indices)->Ok_0;
            brakedown::check_columns::<F, H>(
                mo,
                r,
                root,
                modular::reduce_seq(brakedown::combined_row(c, evals, row_point), m),
                modular::reduce_seq(hypercube::tensor(row_point), m),
                integer::ceil_log2(c.codeword_len()),
                indices,
            ) matches Ok(s) && transcript::mirrors(done, s, whole)
        }),
    decreases indices.len(),
{
    if indices.len() > 0 {
        let m = F::modulus();
        let cols = brakedown::columns(c, evals, m);
        let done = brakedown::write_columns::<F, H>(mo, w, cols, indices)->Ok_0;
        let mid = brakedown::write_columns::<F, H>(mo, w, cols, indices.drop_last())->Ok_0;
        let i = indices.last();
        assert(i == indices[indices.len() - 1]);
        let leaves = merkle::leaves_spec::<F, H>(cols);
        let path = merkle::path_spec::<H>(leaves, (leaves.len() - 1 + i) as nat);
        lemma_column_appended(mo, mid, cols[i], path);
        transcript::lemma_starts_trans(whole, mid, done);
        assert forall|i: int| 0 <= i < indices.drop_last().len() implies 0 <= (
        #[trigger] indices.drop_last()[i]) < c.codeword_len() by {
            assert(0 <= indices[i] < c.codeword_len());
        }
        lemma_columns_accepted::<F, H>(
            c,
            evals,
            row_point,
            root,
            indices.drop_last(),
            mo,
            w,
            r,
            whole,
        );
        let s = brakedown::check_columns::<F, H>(
            mo,
            r,
            root,
            modular::reduce_seq(brakedown::combined_row(c, evals, row_point), m),
            modular::reduce_seq(hypercube::tensor(row_point), m),
            integer::ceil_log2(c.codeword_len()),
            indices.drop_last(),
        )->Ok_0;
        lemma_column_accepted::<F, H>(c, evals, row_point, root, i, mo, mid, s, whole);
    }
}

/// Opening only ever appends.
pub proof fn lemma_open_appends<F: PrimeField, H: HashFunction>(
    c: CodeView,
    evals: Seq<int>,
    point: Seq<int>,
    mo: Model<[u8; 32]>,
    w: State<[u8; 32]>,
)
    requires
        c.wf(),
        brakedown::open_evals_spec::<F, H>(c, evals, point, mo, w) is Ok,
    ensures
        transcript::starts_with(
            brakedown::open_evals_spec::<F, H>(c, evals, point, mo, w)->Ok_0.proof,
            w,
        ),
{
    let m = F::modulus();
    let k = brakedown::row_vars(c, evals.len()) as int;
    let combined = modular::reduce_seq(brakedown::combined_row(c, evals, point.take(k)), m);
    let sent = transcript::write_fields(mo, w, combined)->Ok_0;
    let (indices, drawn) = brakedown::column_indices::<F, [u8; 32]>(
        mo,
        sent,
        c.codeword_len(),
        c.num_column_opening,
    );
    let cols = brakedown::columns(c, evals, m);
    let opened = brakedown::write_columns::<F, H>(mo, drawn, cols, indices)->Ok_0;
    let col_tensor = modular::reduce_seq(hypercube::tensor(point.skip(k)), m);
    let done = brakedown::open_evals_spec::<F, H>(c, evals, point, mo, w)->Ok_0;
    transcript::lemma_write_fields_appends(mo, w, combined);
    lemma_draw_columns_mirrors::<F, [u8; 32]>(
        mo,
        sent,
        sent,
        c.codeword_len(),
        c.num_column_opening,
        sent.proof + sent.proof,
    );
    lemma_columns_appended::<F, H>(mo, drawn, cols, indices);
    transcript::lemma_write_fields_appends(mo, opened, col_tensor);
    transcript::lemma_starts_trans(done.proof, drawn, opened);
    transcript::lemma_starts_trans(done.proof, w, sent);
}

/// What the verifier makes of an honest opening of `evals` at `point`: it accepts the
/// extension's value there, and refuses every other value, naming both.
pub proof fn law_honest_opening<F: PrimeField, H: HashFunction>(
    c: CodeView,
    num_vars: nat,
    root: Option<MerkleNode>,
    evals: Seq<int>,
    point: Seq<int>,
    eval: int,
    mo: Model<[u8; 32]>,
    w: State<[u8; 32]>,
    r: State<[u8; 32]>,
    whole: Seq<u8>,
)
    requires
        c.wf(),
        evals.len() == pow2(num_vars),
        point.len() == num_vars,
        brakedown::can_open_evals(c, evals.len(), num_vars),
        root is Some ==> root->Some_0 == merkle::node_at::<H>(
            merkle::leaves_spec::<F, H>(brakedown::columns(c, evals, F::modulus())),
            0,
        ),
        transcript::round_trips(mo, F::modulus()),
        brakedown::open_evals_spec::<F, H>(c, evals, point, mo, w) is Ok,
        transcript::mirrors(w, r, whole),
        transcript::starts_with(
            whole,
            brakedown::open_evals_spec::<F, H>(c, evals, point, mo, w)->Ok_0,
        ),
    ensures
        ({
            let done = brakedown::open_evals_spec::<F, H>(c, evals, point, mo, w)->Ok_0;
            let value = hypercube::mle(evals, point) % F::modulus();
            let verdict = brakedown::verify_evals_spec::<F, H>(
                c,
                num_vars,
                root,
                point,
                eval,
                mo,
                r,
            );
            if eval == value {
                verdict is Ok && transcript::mirrors(done, verdict->Ok_0, whole)
            } else {
                &&& verdict is Err
                &&& verdict->Err_0.error == ErrorView::InvalidPcsOpen(
                    brakedown::mismatch_text::<F>(root is None, eval, value),
                )
                &&& transcript::mirrors(done, verdict->Err_0.state, whole)
            }
        }),
{
    let m = F::modulus();
    F::modulus_is_odd();
    let k = brakedown::row_vars(c, evals.len()) as int;
    let low = point.take(k);
    let high = point.skip(k);
    assert(low + high =~= point);
    let e = choose|e: nat| #[trigger] pow2(e) == brakedown::num_rows(c, evals.len()) as int;
    integer::lemma_log2_of_pow2(e);
    let combined = modular::reduce_seq(brakedown::combined_row(c, evals, low), m);
    let sent = transcript::write_fields(mo, w, combined)->Ok_0;
    let (indices, drawn) = brakedown::column_indices::<F, [u8; 32]>(
        mo,
        sent,
        c.codeword_len(),
        c.num_column_opening,
    );
    let cols = brakedown::columns(c, evals, m);
    let opened = brakedown::write_columns::<F, H>(mo, drawn, cols, indices)->Ok_0;
    let col_tensor = modular::reduce_seq(hypercube::tensor(high), m);
    let done = brakedown::open_evals_spec::<F, H>(c, evals, point, mo, w)->Ok_0;
    transcript::lemma_write_fields_appends(mo, opened, col_tensor);
    transcript::lemma_starts_trans(whole, opened, done);
    lemma_columns_appended::<F, H>(mo, drawn, cols, indices);
    transcript::lemma_starts_trans(whole, drawn, opened);
    lemma_draw_columns_mirrors::<F, [u8; 32]>(
        mo,
        sent,
        sent,
        c.codeword_len(),
        c.num_column_opening,
        sent.proof + sent.proof,
    );
    assert(transcript::starts_with(whole, sent));
    lemma_combined_entry(c, evals, low, 0, m);
    assert(transcript::in_range(combined, m));
    transcript::lemma_fields_read_back(mo, m, w, r, combined, whole);
    let r1 = transcript::read_fields(mo, r, c.codeword_len())->Ok_0.1;
    lemma_draw_columns_mirrors::<F, [u8; 32]>(
        mo,
        sent,
        r1,
        c.codeword_len(),
        c.num_column_opening,
        whole,
    );
    let r2 = brakedown::column_indices::<F, [u8; 32]>(
        mo,
        r1,
        c.codeword_len(),
        c.num_column_opening,
    ).1;
    lemma_columns_accepted::<F, H>(c, evals, low, root, indices, mo, drawn, r2, whole);
    let r3 = brakedown::check_columns::<F, H>(
        mo,
        r2,
        root,
        combined,
        modular::reduce_seq(hypercube::tensor(low), m),
        integer::ceil_log2(c.codeword_len()),
        indices,
    )->Ok_0;
    assert(transcript::in_range(col_tensor, m));
    transcript::lemma_fields_read_back(mo, m, opened, r3, col_tensor, whole);
    lemma_final_value(c, evals, low, high, m);
}

/// Opening does not look at the commitment or the claimed value: a wrong value is left to
/// the verifier.
pub proof fn law_open_ignores_the_claim<F: PrimeField, H: HashFunction>(
    pp: BrakedownProverParam<F>,
    evals: Seq<int>,
    comm: brakedown::BrakedownCommitment,
    other_comm: brakedown::BrakedownCommitment,
    point: Seq<int>,
    eval: int,
    other_eval: int,
    mo: Model<[u8; 32]>,
    st: State<[u8; 32]>,
)
    ensures
        BrakedownPcs::<F, H>::open_spec(pp, evals, comm, point, eval, mo, st) == BrakedownPcs::<
            F,
            H,
        >::open_spec(pp, evals, other_comm, point, other_eval, mo, st),
{
}

/// A common opening is a single opening at the first point: of the polynomial itself where
/// there is one, of the combination with the powers of a challenge where there are more.
pub proof fn law_batch_open_is_one_opening<F: PrimeField, H: HashFunction>(
    pp: BrakedownProverParam<F>,
    polys: Seq<Seq<int>>,
    comms: Seq<brakedown::BrakedownCommitment>,
    points: Seq<Seq<int>>,
    evals: Seq<EvaluationView>,
    comm: brakedown::BrakedownCommitment,
    eval: int,
    mo: Model<[u8; 32]>,
    st: State<[u8; 32]>,
)
    requires
        polys.len() > 0,
    ensures
        BrakedownPcs::<F, H>::batch_open_spec(pp, polys, comms, points, evals, mo, st) == (
        if polys.len() == 1 {
            BrakedownPcs::<F, H>::open_spec(pp, polys[0], comm, points[0], eval, mo, st)
        } else {
            let (x, s) = transcript::squeeze(mo, st);
            let combined = brakedown::batched(polys, x, F::modulus());
            BrakedownPcs::<F, H>::open_spec(pp, combined, comm, points[0], eval, mo, s)
        }),
{
}

/// Whatever prover the proof is from, a value that the verifier accepts is the one that the
/// combined row takes under the tensor of the point's column variables. The combined row is
/// what stands first in the proof.
pub proof fn law_accepted_value_is_bound<F: PrimeField, H: HashFunction>(
    c: CodeView,
    num_vars: nat,
    root: Option<MerkleNode>,
    point: Seq<int>,
    eval: int,
    mo: Model<[u8; 32]>,
    st: State<[u8; 32]>,
)
    requires
        c.wf(),
        brakedown::verify_evals_spec::<F, H>(c, num_vars, root, point, eval, mo, st) is Ok,
    ensures
        transcript::read_fields(mo, st, c.codeword_len()) matches Ok((combined, _)) && {
            let k = brakedown::row_vars(c, pow2(num_vars)) as int;
            eval == sum::dot(
                hypercube::tensor(point.skip(k)),
                combined.take(c.row_len as int),
            ) % F::modulus()
        },
{
    let m = F::modulus();
    F::modulus_is_odd();
    let k = brakedown::row_vars(c, pow2(num_vars)) as int;
    let combined = transcript::read_fields(mo, st, c.codeword_len())->Ok_0.0;
    let head = combined.take(c.row_len as int);
    let tensor = hypercube::tensor(point.skip(k));
    transcript::lemma_read_fields_len(mo, st, c.codeword_len());
    sum_check::lemma_reduced_cong(tensor, m);
    assert(modular::reduce_seq(tensor, m).len() == c.row_len);
    assert(modular::cong_seq(head, head, m));
    sum::lemma_dot_cong(modular::reduce_seq(tensor, m), head, tensor, head, m);
}

/// Completeness: every polynomial that Brakedown commits to opens honestly against its
/// root, whatever commitment the prover is handed.
pub proof fn law_brakedown_opens_honestly<F: PrimeField, H: HashFunction>(
    pp: BrakedownProverParam<F>,
    vp: BrakedownVerifierParam<F>,
    given: brakedown::BrakedownCommitment,
    comm: brakedown::BrakedownCommitment,
    evals: Seq<int>,
    mo: Model<[u8; 32]>,
)
    requires
        pp.param.code@.wf(),
        vp.param.code@ == pp.param.code@,
        evals.len() == pow2(vp.param.num_vars as nat),
        BrakedownPcs::<F, H>::can_open(pp, evals.len(), vp.param.num_vars as nat),
        BrakedownPcs::<F, H>::commit_spec(pp, evals) is Ok,
        comm.root == BrakedownPcs::<F, H>::commit_spec(pp, evals)->Ok_0.root,
        transcript::round_trips(mo, F::modulus()),
    ensures
        pcs::opens_honestly::<F, BrakedownPcs<F, H>>(
            pp,
            vp,
            given,
            comm,
            evals,
            vp.param.num_vars as nat,
            mo,
        ),
{
    let n = vp.param.num_vars as nat;
    let c = pp.param.code@;
    assert forall|point: Seq<int>, eval: int, w: State<[u8; 32]>|
        ({
            &&& point.len() == n
            &&& #[trigger] BrakedownPcs::<F, H>::open_spec(pp, evals, given, point, eval, mo, w) is Ok
        }) implies transcript::starts_with(
        BrakedownPcs::<F, H>::open_spec(pp, evals, given, point, eval, mo, w)->Ok_0.proof,
        w,
    ) by {
        lemma_open_appends::<F, H>(c, evals, point, mo, w);
    }
    assert forall|
        point: Seq<int>,
        eval: int,
        w: State<[u8; 32]>,
        r: State<[u8; 32]>,
        whole: Seq<u8>,
    |
        #![trigger BrakedownPcs::<F, H>::open_spec(pp, evals, given, point, eval, mo, w), transcript::mirrors(w, r, whole)]
        {
            let opened = BrakedownPcs::<F, H>::open_spec(pp, evals, given, point, eval, mo, w);
            &&& point.len() == n
            &&& eval == hypercube::mle(evals, point) % F::modulus()
            &&& opened is Ok
            &&& transcript::mirrors(w, r, whole)
            &&& transcript::starts_with(whole, opened->Ok_0)
        } implies {
        let opened = BrakedownPcs::<F, H>::open_spec(pp, evals, given, point, eval, mo, w);
        BrakedownPcs::<F, H>::verify_spec(vp, comm, point, eval, mo, r) matches Ok(s)
            && transcript::mirrors(opened->Ok_0, s, whole)
    } by {
        law_honest_opening::<F, H>(c, n, Some(comm.root), evals, point, eval, mo, w, r, whole);
    }
}

/// The extension of a combination of polynomials is the combination of the extensions.
proof fn lemma_batched_extension(polys: Seq<Seq<int>>, x: int, point: Seq<int>, m: int)
    requires
        m > 0,
        polys.len() > 0,
        forall|k: int| 0 <= k < polys.len() ==> (#[trigger] polys[k]).len() == polys[0].len(),
    ensures
        hypercube::mle(brakedown::batched(polys, x, m), point) % m == sum::sum_to(
            |k: int| brakedown::power(x, k as nat) * (hypercube::mle(polys[k], point) % m),
            polys.len(),
        ) % m,
{
    let n = polys.len();
    let size = polys[0].len();
    let all = brakedown::batched(polys, x, m);
    let e = |i: int| hypercube::eq_at(i, point);
    let f = |k: int| |i: int| (brakedown::power(x, k as nat) * polys[k][i]) * e(i);
    let raw = Seq::new(
        size,
        |i: int|
            sum::sum_to(
                |k: int| brakedown::power(x, k as nat) * brakedown::entry(polys[k], i),
                n,
            ),
    );
    assert(all =~= modular::reduce_seq(raw, m));
    sum_check::lemma_reduced_cong(raw, m);
    assert(modular::cong_seq(point, point, m));
    hypercube::lemma_mle_cong(all, raw, point, point, m);
    let left = |i: int| raw[i] * hypercube::eq_at(i, point);
    let left_sum = |i: int| sum::sum_to(|k: int| f(k)(i), n);
    assert forall|i: int| 0 <= i < size implies #[trigger] left(i) == left_sum(i) by {
        let g = |k: int| brakedown::power(x, k as nat) * brakedown::entry(polys[k], i);
        let h = |k: int| f(k)(i);
        assert forall|k: int| 0 <= k < n implies #[trigger] h(k) == e(i) * g(k) by {
            assert(polys[k].len() == size);
            let a = brakedown::power(x, k as nat) * polys[k][i];
            assert(a * e(i) == e(i) * a) by (nonlinear_arith);
        }
        sum::lemma_sum_scale(g, h, e(i), n);
        sum::lemma_sum_eq(h, |k: int| f(k)(i), n);
        let s = sum::sum_to(g, n);
        assert(s * e(i) == e(i) * s) by (nonlinear_arith);
        assert(raw[i] == s);
    }
    sum::lemma_sum_eq(left, left_sum, size);
    sum::lemma_sum_swap(f, n, size);
    let right = |k: int| sum::sum_to(|i: int| f(k)(i), size);
    let goal = |k: int| brakedown::power(x, k as nat) * (hypercube::mle(polys[k], point) % m);
    assert forall|k: int| 0 <= k < n implies modular::cong(#[trigger] right(k), goal(k), m) by {
        assert(polys[k].len() == size);
        let p = brakedown::power(x, k as nat);
        let g = |i: int| polys[k][i] * hypercube::eq_at(i, point);
        let h = |i: int| f(k)(i);
        assert forall|i: int| 0 <= i < size implies #[trigger] h(i) == p * g(i) by {
            let a = polys[k][i];
            let b = e(i);
            assert((p * a) * b == p * (a * b)) by (nonlinear_arith);
        }
        sum::lemma_sum_scale(g, h, p, size);
        sum::lemma_sum_eq(h, |i: int| f(k)(i), size);
        let v = hypercube::mle(polys[k], point);
        modular::lemma_cong_reduced(v, m);
        modular::lemma_cong_mul(p, p, v % m, v, m);
    }
    sum::lemma_sum_cong(right, goal, n, m);
}

/// Completeness of common openings: several polynomials, claimed in order to take their
/// true values at the first point, are accepted together.
pub proof fn law_honest_batch_is_accepted<F: PrimeField, H: HashFunction>(
    pp: BrakedownProverParam<F>,
    vp: BrakedownVerifierParam<F>,
    polys: Seq<Seq<int>>,
    comms: Seq<brakedown::BrakedownCommitment>,
    points: Seq<Seq<int>>,
    evals: Seq<EvaluationView>,
    mo: Model<[u8; 32]>,
    w: State<[u8; 32]>,
    r: State<[u8; 32]>,
    whole: Seq<u8>,
)
    requires
        pp.param.code@.wf(),
        vp.param.code@ == pp.param.code@,
        polys.len() >= 2,
        comms.len() == polys.len(),
        evals.len() == polys.len(),
        points.len() > 0,
        points[0].len() == vp.param.num_vars,
        forall|k: int|
            0 <= k < polys.len() ==> (#[trigger] polys[k]).len() == pow2(vp.param.num_vars as nat),
        forall|k: int|
            0 <= k < evals.len() ==> (#[trigger] evals[k]).value == hypercube::mle(
                polys[k],
                points[0],
            ) % F::modulus(),
        BrakedownPcs::<F, H>::can_batch_open(pp, polys, comms, points, evals),
        transcript::round_trips(mo, F::modulus()),
        BrakedownPcs::<F, H>::batch_open_spec(pp, polys, comms, points, evals, mo, w) is Ok,
        transcript::mirrors(w, r, whole),
        transcript::starts_with(
            whole,
            BrakedownPcs::<F, H>::batch_open_spec(pp, polys, comms, points, evals, mo, w)->Ok_0,
        ),
    ensures
        BrakedownPcs::<F, H>::batch_verify_spec(vp, comms, points, evals, mo, r) matches Ok(s)
            && transcript::mirrors(
            BrakedownPcs::<F, H>::batch_open_spec(pp, polys, comms, points, evals, mo, w)->Ok_0,
            s,
            whole,
        ),
{
    let m = F::modulus();
    F::modulus_is_odd();
    let n = vp.param.num_vars as nat;
    let (x, s) = transcript::squeeze(mo, w);
    let (y, t) = transcript::squeeze(mo, r);
    assert(polys[0].len() == pow2(n));
    let all = brakedown::batched(polys, x, m);
    lemma_batched_extension(polys, x, points[0], m);
    let f = |k: int| brakedown::power(x, k as nat) * evals[k].value;
    let g = |k: int| brakedown::power(x, k as nat) * (hypercube::mle(polys[k], points[0]) % m);
    assert forall|k: int| 0 <= k < polys.len() implies #[trigger] f(k) == g(k) by {
        assert(evals[k].value == hypercube::mle(polys[k], points[0]) % m);
    }
    sum::lemma_sum_eq(f, g, polys.len());
    let value = brakedown::batched_value(evals, x, m);
    law_honest_opening::<F, H>(
        pp.param.code@,
        n,
        None,
        all,
        points[0],
        value,
        mo,
        s,
        t,
        whole,
    );
}

/// Completeness of the shift-open protocol over Brakedown: whoever reads the proof that
/// is written for a committed polynomial accepts it, and gets `(F(r), G(r))`.
pub proof fn law_brakedown_shift_open_is_complete<F: PrimeField, H: HashFunction>(
    pp: BrakedownProverParam<F>,
    vp: BrakedownVerifierParam<F>,
    evals: Seq<int>,
    k: int,
    mo: Model<[u8; 32]>,
    w: State<[u8; 32]>,
    r: State<[u8; 32]>,
    whole: Seq<u8>,
)
    requires
        pp.param.code@.wf(),
        vp.param.code@ == pp.param.code@,
        evals.len() == pow2(vp.param.num_vars as nat),
        BrakedownPcs::<F, H>::can_open(pp, evals.len(), vp.param.num_vars as nat),
        BrakedownPcs::<F, H>::commit_spec(pp, evals) is Ok,
        transcript::round_trips(mo, F::modulus()),
        transcript::mirrors(w, r, whole),
        ({
            let comm = BrakedownPcs::<F, H>::commit_spec(pp, evals)->Ok_0;
            let n = vp.param.num_vars as nat;
            let proved = shift_open::prove_shift_open_spec::<F, BrakedownPcs<F, H>>(
                pp,
                evals,
                comm,
                n,
                k,
                mo,
                w,
            );
            proved is Ok && transcript::starts_with(whole, proved->Ok_0)
        }),
    ensures
        ({
            let comm = BrakedownPcs::<F, H>::commit_spec(pp, evals)->Ok_0;
            let n = vp.param.num_vars as nat;
            let m = F::modulus();
            let point = shift_open::draw_point(mo, w, k, n, m)->Ok_0.0;
            shift_open::verify_shift_open_spec::<F, BrakedownPcs<F, H>>(
                vp,
                comm,
                n,
                k,
                mo,
                r,
            ) matches Ok((y, z, s)) && {
                &&& y == hypercube::mle(evals, point) % m
                &&& z == hypercube::mle(hypercube::shift(evals, k), point) % m
            }
        }),
{
    let comm = BrakedownPcs::<F, H>::commit_spec(pp, evals)->Ok_0;
    law_brakedown_opens_honestly::<F, H>(pp, vp, comm, comm, evals, mo);
    shift_open::law_shift_open_is_complete::<F, BrakedownPcs<F, H>>(
        pp,
        vp,
        comm,
        evals,
        vp.param.num_vars as nat,
        k,
        mo,
        w,
        r,
        whole,
    );
}

/// What can be opened can be committed to.
pub proof fn law_commitment_succeeds<F: PrimeField, H: HashFunction>(
    c: CodeView,
    evals: Seq<int>,
    num_vars: nat,
)
    requires
        c.row_len > 0,
        evals.len() == pow2(num_vars),
        brakedown::can_open_evals(c, evals.len(), num_vars),
    ensures
        brakedown::commit_evals_spec::<F, H>(c, evals) is Ok,
{
    let n = brakedown::num_rows(c, evals.len());
    let k = brakedown::row_vars(c, evals.len());
    let e = choose|e: nat| #[trigger] pow2(e) == n as int;
    integer::lemma_log2_of_pow2(e);
    power2::lemma_pow2_adds((num_vars - k) as nat, k);
    assert(pow2((num_vars - k) as nat) * pow2(k) == pow2(num_vars));
}

/// Writing nodes succeeds on a transcript that refuses nothing.
proof fn lemma_write_nodes_succeeds(mo: Model<[u8; 32]>, w: State<[u8; 32]>, path: Seq<MerkleNode>)
    requires
        transcript::never_refuses(mo),
    ensures
        brakedown::write_nodes(mo, w, path) is Ok,
    decreases path.len(),
{
    if path.len() > 0 {
        lemma_write_nodes_succeeds(mo, w, path.drop_last());
    }
}

/// Writing columns succeeds on a transcript that refuses nothing.
proof fn lemma_write_columns_succeeds<F: PrimeField, H: HashFunction>(
    mo: Model<[u8; 32]>,
    w: State<[u8; 32]>,
    cols: Seq<Seq<int>>,
    indices: Seq<int>,
)
    requires
        transcript::never_refuses(mo),
    ensures
        brakedown::write_columns::<F, H>(mo, w, cols, indices) is Ok,
    decreases indices.len(),
{
    if indices.len() > 0 {
        lemma_write_columns_succeeds::<F, H>(mo, w, cols, indices.drop_last());
        let s = brakedown::write_columns::<F, H>(mo, w, cols, indices.drop_last())->Ok_0;
        let leaves = merkle::leaves_spec::<F, H>(cols);
        let i = indices.last();
        transcript::lemma_write_fields_succeeds(mo, s, cols[i]);
        lemma_write_nodes_succeeds(
            mo,
            transcript::write_fields(mo, s, cols[i])->Ok_0,
            merkle::path_spec::<H>(leaves, (leaves.len() - 1 + i) as nat),
        );
    }
}

/// Openings succeed on a transcript that refuses nothing.
pub proof fn law_opening_succeeds<F: PrimeField, H: HashFunction>(
    c: CodeView,
    evals: Seq<int>,
    point: Seq<int>,
    mo: Model<[u8; 32]>,
    w: State<[u8; 32]>,
)
    requires
        transcript::never_refuses(mo),
    ensures
        brakedown::open_evals_spec::<F, H>(c, evals, point, mo, w) is Ok,
{
    let m = F::modulus();
    let k = brakedown::row_vars(c, evals.len()) as int;
    let combined = modular::reduce_seq(brakedown::combined_row(c, evals, point.take(k)), m);
    transcript::lemma_write_fields_succeeds(mo, w, combined);
    let s = transcript::write_fields(mo, w, combined)->Ok_0;
    let (indices, t) = brakedown::column_indices::<F, [u8; 32]>(
        mo,
        s,
        c.codeword_len(),
        c.num_column_opening,
    );
    let cols = brakedown::columns(c, evals, m);
    lemma_write_columns_succeeds::<F, H>(mo, t, cols, indices);
    transcript::lemma_write_fields_succeeds(
        mo,
        brakedown::write_columns::<F, H>(mo, t, cols, indices)->Ok_0,
        modular::reduce_seq(hypercube::tensor(point.skip(k)), m),
    );
}

/// Shift-open proofs over Brakedown succeed on a transcript that refuses nothing, if there
/// is a variable.
pub proof fn law_shift_open_succeeds<F: PrimeField, H: HashFunction>(
    pp: BrakedownProverParam<F>,
    evals: Seq<int>,
    comm: brakedown::BrakedownCommitment,
    num_vars: nat,
    k: int,
    mo: Model<[u8; 32]>,
    w: State<[u8; 32]>,
)
    requires
        transcript::never_refuses(mo),
        num_vars > 0,
    ensures
        shift_open::prove_shift_open_spec::<F, BrakedownPcs<F, H>>(
            pp,
            evals,
            comm,
            num_vars,
            k,
            mo,
            w,
        ) is Ok,
{
    let m = F::modulus();
    let (point, drawn) = shift_open::draw_point(mo, w, k, num_vars, m)->Ok_0;
    shift_open::lemma_prove_sum_succeeds(evals, num_vars, k, point, mo, drawn, m);
    let p = shift_open::prove_sum(evals, num_vars, k, point, mo, drawn, m)->Ok_0;
    let ends = shift_open::final_values(evals, k, point, p.challenges, m);
    transcript::lemma_write_fields_succeeds(mo, p.state, ends);
    law_opening_succeeds::<F, H>(
        pp.param.code@,
        evals,
        p.challenges,
        mo,
        transcript::write_fields(mo, p.state, ends)->Ok_0,
    );
}

/// The shift-open protocol over Brakedown and Keccak-256, from end to end: a proof is
/// written for every polynomial with a variable and every shift, whoever reads the
/// written bytes accepts them, and gets `(F(r), G(r))` for the point `r` drawn at the
/// start. The two are the same if the shift is a multiple of the polynomial's length.
pub proof fn law_shift_open_from_end_to_end<F: PrimeField, H: HashFunction>(
    pp: BrakedownProverParam<F>,
    vp: BrakedownVerifierParam<F>,
    evals: Seq<int>,
    k: int,
)
    requires
        pp.param.code@.wf(),
        vp.param.code@ == pp.param.code@,
        vp.param.num_vars > 0,
        evals.len() == pow2(vp.param.num_vars as nat),
        BrakedownPcs::<F, H>::can_open(pp, evals.len(), vp.param.num_vars as nat),
    ensures
        BrakedownPcs::<F, H>::commit_spec(pp, evals) is Ok,
        ({
            let mo = transcript::keccak_model::<F>();
            let start = State { events: Seq::empty(), proof: Seq::empty() };
            let comm = BrakedownPcs::<F, H>::commit_spec(pp, evals)->Ok_0;
            let n = vp.param.num_vars as nat;
            let m = F::modulus();
            let point = shift_open::draw_point(mo, start, k, n, m)->Ok_0.0;
            &&& shift_open::prove_shift_open_spec::<F, BrakedownPcs<F, H>>(
                pp,
                evals,
                comm,
                n,
                k,
                mo,
                start,
            ) matches Ok(done)
            &&& shift_open::verify_shift_open_spec::<F, BrakedownPcs<F, H>>(
                vp,
                comm,
                n,
                k,
                mo,
                State { events: Seq::empty(), proof: done.proof },
            ) matches Ok((y, z, rest))
            &&& y == hypercube::mle(evals, point) % m
            &&& z == hypercube::mle(hypercube::shift(evals, k), point) % m
            &&& k % (evals.len() as int) == 0 ==> y == z
            &&& rest.proof.len() == 0
        }),
{
    let mo = transcript::keccak_model::<F>();
    let start = State { events: Seq::empty(), proof: Seq::empty() };
    let comm = BrakedownPcs::<F, H>::commit_spec(pp, evals)->Ok_0;
    let n = vp.param.num_vars as nat;
    let m = F::modulus();
    transcript::keccak_round_trips::<F>();
    transcript::keccak_never_refuses::<F>();
    law_commitment_succeeds::<F, H>(pp.param.code@, evals, n);
    law_shift_open_succeeds::<F, H>(pp, evals, comm, n, k, mo, start);
    let done = shift_open::prove_shift_open_spec::<F, BrakedownPcs<F, H>>(
        pp,
        evals,
        comm,
        n,
        k,
        mo,
        start,
    )->Ok_0;
    let reader = State { events: Seq::empty(), proof: done.proof };
    assert(start.proof + reader.proof =~= done.proof);
    assert(done.proof.subrange(0, done.proof.len() as int) =~= done.proof);
    law_brakedown_opens_honestly::<F, H>(pp, vp, comm, comm, evals, mo);
    shift_open::law_shift_open_is_complete::<F, BrakedownPcs<F, H>>(
        pp,
        vp,
        comm,
        evals,
        n,
        k,
        mo,
        start,
        reader,
        done.proof,
    );
    let rest = shift_open::verify_shift_open_spec::<F, BrakedownPcs<F, H>>(
        vp,
        comm,
        n,
        k,
        mo,
        reader,
    )->Ok_0.2;
    assert((done.proof + rest.proof).len() == done.proof.len());
}

/// The shift-open protocol over Brakedown and Keccak-256: if any of the 32 bytes of `y'` in
/// an honest proof are changed, the proof is refused.
pub proof fn law_tampered_shift_value_is_refused<F: PrimeField, H: HashFunction>(
    pp: BrakedownProverParam<F>,
    vp: BrakedownVerifierParam<F>,
    evals: Seq<int>,
    k: int,
    tampered: Seq<u8>,
)
    requires
        pp.param.code@.wf(),
        vp.param.code@ == pp.param.code@,
        vp.param.num_vars > 0,
        evals.len() == pow2(vp.param.num_vars as nat),
        BrakedownPcs::<F, H>::can_open(pp, evals.len(), vp.param.num_vars as nat),
        ({
            let start = State { events: Seq::empty(), proof: Seq::empty() };
            let comm = BrakedownPcs::<F, H>::commit_spec(pp, evals)->Ok_0;
            let proof = shift_open::prove_shift_open_spec::<F, BrakedownPcs<F, H>>(
                pp,
                evals,
                comm,
                vp.param.num_vars as nat,
                k,
                transcript::keccak_model::<F>(),
                start,
            )->Ok_0.proof;
            &&& tampered.len() == proof.len()
            &&& tampered.take(32) == proof.take(32)
            &&& tampered.skip(64) == proof.skip(64)
            &&& tampered != proof
        }),
    ensures
        ({
            let comm = BrakedownPcs::<F, H>::commit_spec(pp, evals)->Ok_0;
            shift_open::verify_shift_open_spec::<F, BrakedownPcs<F, H>>(
                vp,
                comm,
                vp.param.num_vars as nat,
                k,
                transcript::keccak_model::<F>(),
                State { events: Seq::empty(), proof: tampered },
            ) is Err
        }),
{
    let mo = transcript::keccak_model::<F>();
    let start = State { events: Seq::empty(), proof: Seq::empty() };
    let reader = State { events: Seq::empty(), proof: tampered };
    let comm = BrakedownPcs::<F, H>::commit_spec(pp, evals)->Ok_0;
    let n = vp.param.num_vars as nat;
    let m = F::modulus();
    F::modulus_is_odd();
    transcript::keccak_round_trips::<F>();
    transcript::keccak_never_refuses::<F>();
    law_commitment_succeeds::<F, H>(pp.param.code@, evals, n);
    law_shift_open_succeeds::<F, H>(pp, evals, comm, n, k, mo, start);
    law_brakedown_opens_honestly::<F, H>(pp, vp, comm, comm, evals, mo);
    let done = shift_open::prove_shift_open_spec::<F, BrakedownPcs<F, H>>(
        pp,
        evals,
        comm,
        n,
        k,
        mo,
        start,
    )->Ok_0;
    let point = shift_open::draw_point(mo, start, k, n, m)->Ok_0.0;
    let ys = shift_open::claimed_values(evals, k, point, m);
    let a = F::repr(ys[0]);
    let b = F::repr(ys[1]);
    F::repr_spells_value(ys[0]);
    F::repr_spells_value(ys[1]);
    shift_open::lemma_values_lead::<F, BrakedownPcs<F, H>>(pp, vp, comm, evals, n, k, mo, start);
    let rest = done.proof.skip(64);
    let changed = tampered.subrange(32, 64);
    let lead = start.proof + a + b;
    assert(lead =~= a + b);
    assert(done.proof =~= lead + rest) by {
        assert(done.proof.subrange(0, 64) == lead);
        assert(done.proof =~= done.proof.subrange(0, 64) + rest);
    }
    assert(done.proof.take(32) =~= a);
    assert(tampered =~= tampered.take(32) + (changed + tampered.skip(64)));
    assert(changed != b) by {
        if changed == b {
            assert(tampered =~= done.proof);
        }
    }
    let bytes = changed + rest;
    assert(bytes.take(32) =~= changed);
    assert(bytes.skip(32) =~= rest);
    assert((mo.parse_field)(bytes) matches Ok((z, left)) ==> z != ys[1] && left == rest) by {
        if field::le_value(changed) == ys[1] {
            field::lemma_le_bytes_unique(changed, 32);
            field::lemma_le_bytes_unique(b, 32);
        }
    }
    shift_open::law_changed_value_is_refused::<F, BrakedownPcs<F, H>>(
        pp,
        vp,
        comm,
        evals,
        n,
        k,
        mo,
        start,
        reader,
        changed,
        rest,
    );
}

} // verus!
