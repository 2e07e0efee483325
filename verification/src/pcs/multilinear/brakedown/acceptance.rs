//! What an accepted opening shows.

use crate::pcs;
use crate::pcs::multilinear::brakedown;
use crate::pcs::multilinear::brakedown::{
    BrakedownCommitment, BrakedownParam, BrakedownPcs, BrakedownProverParam, BrakedownVerifierParam,
};
use crate::pcs::multilinear::merkle;
use crate::pcs::multilinear::merkle::MerkleNode;
use crate::pcs::PolynomialCommitmentScheme;
use crate::poly::hypercube;
use crate::util::code;
use crate::util::code::CodeView;
use crate::util::field;
use crate::util::field::PrimeField;
use crate::util::hash::HashFunction;
use crate::util::integer;
use crate::util::modular;
use crate::util::ordered;
use crate::util::sum;
use crate::util::transcript;
use crate::util::transcript::trace;
use crate::util::transcript::{Event, Halt, Model, State};
use crate::ErrorView;
use vstd::arithmetic::div_mod::*;
use vstd::arithmetic::power2::pow2;
use vstd::prelude::*;

verus! {

/// The pieces that nodes are sent as.
pub open spec fn pieces(path: Seq<MerkleNode>) -> Seq<[u8; 32]> {
    path.map_values(|n: MerkleNode| n.0)
}

/// The events of a column and its path.
pub open spec fn column_events(column: Seq<int>, path: Seq<MerkleNode>) -> Seq<Event<[u8; 32]>> {
    trace::fields(column) + trace::chunks(pieces(path))
}

/// The events of several columns, each with its path.
pub open spec fn columns_events(cols: Seq<Seq<int>>, paths: Seq<Seq<MerkleNode>>) -> Seq<
    Event<[u8; 32]>,
> {
    Seq::new(cols.len(), |j: int| column_events(cols[j], paths[j])).flatten()
}

/// Whether an opened column fits: its path leads from its place to the root, if there is one,
/// and the combination of its entries with the factors `eq(b, row_point)` is the entry of the
/// combined row at its place.
pub open spec fn column_fits<F: PrimeField, H: HashFunction>(
    root: Option<MerkleNode>,
    combined: Seq<int>,
    row_point: Seq<int>,
    path_len: nat,
    i: int,
    column: Seq<int>,
    path: Seq<MerkleNode>,
) -> bool {
    &&& column.len() == pow2(row_point.len())
    &&& path.len() == path_len
    &&& root matches Some(node) ==> merkle::climb::<H>(
        merkle::leaf_spec::<F, H>(column),
        (pow2(path_len) - 1 + i) as nat,
        path,
    ) == node
    &&& combined[i] == sum::sum_to(
        |b: int| hypercube::eq_at(b, row_point) * column[b],
        pow2(row_point.len()),
    ) % F::modulus()
}

/// Nodes that are read are absorbed in their order.
pub proof fn law_read_nodes_are_absorbed(mo: Model<[u8; 32]>, st: State<[u8; 32]>, n: nat)
    ensures
        brakedown::read_nodes(mo, st, n) matches Ok((path, s)) ==> path.len() == n && s.events
            == st.events + trace::chunks(pieces(path)),
    decreases n,
{
    if n == 0 {
        assert(st.events + trace::chunks(pieces(Seq::empty())) =~= st.events);
    } else {
        law_read_nodes_are_absorbed(mo, st, (n - 1) as nat);
        if let Ok((path, s)) = brakedown::read_nodes(mo, st, n) {
            assert(s.events =~= st.events + trace::chunks(pieces(path)));
        }
    }
}

/// Nodes that are written are absorbed in their order.
pub proof fn law_written_nodes_are_absorbed(
    mo: Model<[u8; 32]>,
    st: State<[u8; 32]>,
    path: Seq<MerkleNode>,
)
    ensures
        brakedown::write_nodes(mo, st, path) matches Ok(s) ==> s.events == st.events
            + trace::chunks(pieces(path)),
    decreases path.len(),
{
    if path.len() == 0 {
        assert(st.events + trace::chunks(pieces(path)) =~= st.events);
    } else {
        law_written_nodes_are_absorbed(mo, st, path.drop_last());
        if let Ok(s) = brakedown::write_nodes(mo, st, path) {
            assert(s.events =~= st.events + trace::chunks(pieces(path)));
        }
    }
}

/// One more column.
proof fn lemma_columns_events_push(
    cols: Seq<Seq<int>>,
    paths: Seq<Seq<MerkleNode>>,
    column: Seq<int>,
    path: Seq<MerkleNode>,
)
    requires
        cols.len() == paths.len(),
    ensures
        columns_events(cols.push(column), paths.push(path)) == columns_events(cols, paths)
            + column_events(column, path),
{
    let all = Seq::new(
        cols.push(column).len(),
        |j: int| column_events(cols.push(column)[j], paths.push(path)[j]),
    );
    trace::lemma_flatten_last(all);
    assert(all.drop_last() =~= Seq::new(cols.len(), |j: int| column_events(cols[j], paths[j])));
}

/// Every checked column was read, and fits.
proof fn lemma_checked_columns<F: PrimeField, H: HashFunction>(
    mo: Model<[u8; 32]>,
    st: State<[u8; 32]>,
    root: Option<MerkleNode>,
    combined: Seq<int>,
    row_point: Seq<int>,
    path_len: nat,
    indices: Seq<int>,
) -> (r: (Seq<Seq<int>>, Seq<Seq<MerkleNode>>))
    requires
        brakedown::check_columns::<F, H>(
            mo,
            st,
            root,
            combined,
            modular::reduce_seq(hypercube::tensor(row_point), F::modulus()),
            path_len,
            indices,
        ) is Ok,
    ensures
        r.0.len() == indices.len(),
        r.1.len() == indices.len(),
        forall|j: int|
            0 <= j < indices.len() ==> column_fits::<F, H>(
                root,
                combined,
                row_point,
                path_len,
                #[trigger] indices[j],
                r.0[j],
                r.1[j],
            ),
        brakedown::check_columns::<F, H>(
            mo,
            st,
            root,
            combined,
            modular::reduce_seq(hypercube::tensor(row_point), F::modulus()),
            path_len,
            indices,
        )->Ok_0.events == st.events + columns_events(r.0, r.1),
    decreases indices.len(),
{
    let m = F::modulus();
    F::modulus_is_odd();
    let tensor = hypercube::tensor(row_point);
    let reduced = modular::reduce_seq(tensor, m);
    if indices.len() == 0 {
        assert(columns_events(Seq::empty(), Seq::empty()) =~= Seq::empty());
        assert(st.events + columns_events(Seq::empty(), Seq::empty()) =~= st.events);
        (Seq::empty(), Seq::empty())
    } else {
        let fewer = indices.drop_last();
        let (cols, paths) = lemma_checked_columns::<F, H>(
            mo,
            st,
            root,
            combined,
            row_point,
            path_len,
            fewer,
        );
        let s = brakedown::check_columns::<F, H>(
            mo,
            st,
            root,
            combined,
            reduced,
            path_len,
            fewer,
        )->Ok_0;
        let i = indices.last();
        trace::law_read_fields_are_absorbed(mo, s, reduced.len());
        let (column, t) = transcript::read_fields(mo, s, reduced.len())->Ok_0;
        law_read_nodes_are_absorbed(mo, t, path_len);
        let (path, u) = brakedown::read_nodes(mo, t, path_len)->Ok_0;
        let f = |b: int| reduced[b] * column[b];
        let g = |b: int| hypercube::eq_at(b, row_point) * column[b];
        assert forall|b: int| 0 <= b < reduced.len() implies modular::cong(
            #[trigger] f(b),
            g(b),
            m,
        ) by {
            modular::lemma_cong_reduced(tensor[b], m);
            modular::lemma_cong_mul(reduced[b], tensor[b], column[b], column[b], m);
        }
        sum::lemma_sum_cong(f, g, reduced.len(), m);
        assert(column_fits::<F, H>(root, combined, row_point, path_len, i, column, path));
        lemma_columns_events_push(cols, paths, column, path);
        let cols1 = cols.push(column);
        let paths1 = paths.push(path);
        assert(u.events =~= st.events + columns_events(cols1, paths1));
        assert forall|j: int| 0 <= j < indices.len() implies column_fits::<F, H>(
            root,
            combined,
            row_point,
            path_len,
            #[trigger] indices[j],
            cols1[j],
            paths1[j],
        ) by {
            if j < fewer.len() {
                assert(fewer[j] == indices[j]);
            }
        }
        (cols1, paths1)
    }
}

/// The lowest eight of 32 bytes spell the value modulo `2^64`.
proof fn lemma_low_bytes(bytes: Seq<u8>, k: nat)
    requires
        k <= bytes.len(),
    ensures
        field::le_value(bytes.take(k as int)) == field::le_value(bytes) % field::pow256(k),
        field::pow256(k) > 0,
    decreases k,
{
    if k == 0 {
        assert(bytes.take(0).len() == 0);
    } else {
        let rest = bytes.drop_first();
        let j = (k - 1) as nat;
        lemma_low_bytes(rest, j);
        assert(bytes.take(k as int).drop_first() =~= rest.take(j as int));
        let p = field::pow256(j);
        let v = field::le_value(rest);
        let b = bytes[0] as int;
        field::lemma_le_value_bounds(rest);
        assert(field::le_value(bytes) == b + 256 * v);
        assert(field::le_value(bytes.take(k as int)) == b + 256 * (v % p));
        lemma_fundamental_div_mod(v, p);
        lemma_mod_bound(v, p);
        let q = v / p;
        let r = v % p;
        assert(b + 256 * v == (256 * p) * q + (b + 256 * r)) by (nonlinear_arith)
            requires
                v == p * q + r,
        ;
        assert(field::pow256(k) == 256 * p);
        assert(0 <= b + 256 * r < 256 * p);
        lemma_mod_multiples_vanish(q, b + 256 * r, 256 * p);
        modular::lemma_small(b + 256 * r, 256 * p);
    }
}

/// The column that a challenge picks is the challenge modulo `2^64`, modulo the number of
/// columns.
pub proof fn law_picked_column<F: PrimeField>(challenge: int, num_cols: nat)
    requires
        0 <= challenge < F::modulus(),
    ensures
        brakedown::column_of::<F>(challenge, num_cols) == (challenge % 0x1_0000_0000_0000_0000) % (
        num_cols as int),
{
    F::repr_spells_value(challenge);
    lemma_low_bytes(F::repr(challenge), 8);
    reveal_with_fuel(field::pow256, 9);
    assert(field::pow256(8) == 0x1_0000_0000_0000_0000);
}

/// Whether `indices` are the different columns that `n` challenges pick, in increasing order:
/// the challenges that are drawn one after the other once `before` has happened.
pub open spec fn picked_after<F: PrimeField>(
    mo: Model<[u8; 32]>,
    before: Seq<Event<[u8; 32]>>,
    num_cols: nat,
    n: nat,
    indices: Seq<int>,
) -> bool {
    &&& ordered::increasing(indices)
    &&& forall|i: int| 0 <= i < indices.len() ==> 0 <= (#[trigger] indices[i]) < num_cols
    &&& forall|x: int| #[trigger]
        indices.contains(x) <==> exists|j: nat|
            j < n && brakedown::column_of::<F>(
                (mo.challenge)(before + #[trigger] trace::squeezes(j)),
                num_cols,
            ) == x
}

/// The columns to open are those that the next challenges pick.
pub proof fn law_columns_are_picked<F: PrimeField>(
    mo: Model<[u8; 32]>,
    st: State<[u8; 32]>,
    num_cols: nat,
    n: nat,
)
    requires
        num_cols > 0,
    ensures
        picked_after::<F>(
            mo,
            st.events,
            num_cols,
            n,
            brakedown::columns_after::<F, [u8; 32]>(mo, st, num_cols, n),
        ),
{
    let a = brakedown::columns_after::<F, [u8; 32]>(mo, st, num_cols, n);
    brakedown::lemma_columns_after::<F, [u8; 32]>(mo, st, num_cols, n);
    assert forall|j: nat| #[trigger] transcript::challenge_at(mo, st, j) == (mo.challenge)(
        st.events + trace::squeezes(j),
    ) by {
        trace::law_challenges_are_drawn_in_turn(mo, st, j);
    }
    assert forall|x: int| #[trigger] a.contains(x) <==> exists|j: nat|
        j < n && brakedown::column_of::<F>(
            (mo.challenge)(st.events + #[trigger] trace::squeezes(j)),
            num_cols,
        ) == x by {
        if a.contains(x) {
            let j = choose|j: nat|
                j < n && brakedown::column_of::<F>(
                    #[trigger] transcript::challenge_at(mo, st, j),
                    num_cols,
                ) == x;
            assert(brakedown::column_of::<F>(
                (mo.challenge)(st.events + trace::squeezes(j)),
                num_cols,
            ) == x);
        }
        if exists|j: nat|
            j < n && brakedown::column_of::<F>(
                (mo.challenge)(st.events + #[trigger] trace::squeezes(j)),
                num_cols,
            ) == x {
            let j = choose|j: nat|
                j < n && brakedown::column_of::<F>(
                    (mo.challenge)(st.events + #[trigger] trace::squeezes(j)),
                    num_cols,
                ) == x;
            assert(brakedown::column_of::<F>(transcript::challenge_at(mo, st, j), num_cols) == x);
        }
    }
}

/// What an accepted opening shows. The combined row is read first. The columns that challenges
/// drawn after it pick are read next, each with its path, and every one of them fits. There are
/// as many as asked for, or all there are, unless no number of challenges picks that many. The
/// row's inner product with the factors `eq(b, ..)` of the rest of the point is the value.
pub open spec fn opening_shows<F: PrimeField, H: HashFunction>(
    c: CodeView,
    num_vars: nat,
    root: Option<MerkleNode>,
    point: Seq<int>,
    eval: int,
    mo: Model<[u8; 32]>,
    st: State<[u8; 32]>,
    combined: Seq<int>,
    indices: Seq<int>,
    cols: Seq<Seq<int>>,
    paths: Seq<Seq<MerkleNode>>,
    s: State<[u8; 32]>,
) -> bool {
    let m = F::modulus();
    let k = brakedown::row_vars(c, pow2(num_vars)) as int;
    let asked = if c.num_column_opening < c.codeword_len() {
        c.num_column_opening
    } else {
        c.codeword_len()
    };
    let sent = st.events + trace::fields(combined);
    &&& combined.len() == c.codeword_len()
    &&& cols.len() == indices.len()
    &&& paths.len() == indices.len()
    &&& exists|n: nat|
        {
            &&& #[trigger] picked_after::<F>(mo, sent, c.codeword_len(), n, indices)
            &&& s.events == sent + trace::squeezes(n) + columns_events(cols, paths) + trace::fields(
                modular::reduce_seq(hypercube::tensor(point.skip(k)), m),
            )
            &&& indices.len() == asked || forall|more: nat, others: Seq<int>|
                #[trigger] picked_after::<F>(mo, sent, c.codeword_len(), more, others)
                    ==> others.len() < asked
        }
    &&& forall|j: int|
        0 <= j < indices.len() ==> column_fits::<F, H>(
            root,
            combined,
            point.take(k),
            integer::ceil_log2(c.codeword_len()),
            #[trigger] indices[j],
            cols[j],
            paths[j],
        )
    &&& eval == sum::sum_to(
        |b: int| hypercube::eq_at(b, point.skip(k)) * combined[b],
        c.row_len,
    ) % m
}

/// Increasing lists with the same entries are equally long.
proof fn lemma_same_entries(a: Seq<int>, b: Seq<int>)
    requires
        ordered::increasing(a),
        ordered::increasing(b),
        forall|x: int| #[trigger] a.contains(x) <==> b.contains(x),
    ensures
        a.len() == b.len(),
{
    assert forall|i: int| 0 <= i < a.len() implies b.contains(#[trigger] a[i]) by {
        assert(a.contains(a[i]));
    }
    assert forall|i: int| 0 <= i < b.len() implies a.contains(#[trigger] b[i]) by {
        assert(b.contains(b[i]));
    }
    ordered::lemma_no_longer(a, b);
    ordered::lemma_no_longer(b, a);
}

/// Whatever prover the proof is from, an accepted opening shows what [`opening_shows`] says.
pub proof fn law_accepted_opening_shows<F: PrimeField, H: HashFunction>(
    c: CodeView,
    num_vars: nat,
    root: Option<MerkleNode>,
    point: Seq<int>,
    eval: int,
    mo: Model<[u8; 32]>,
    st: State<[u8; 32]>,
)
    requires
        c.wf(),
    ensures
        brakedown::verify_evals_spec::<F, H>(c, num_vars, root, point, eval, mo, st) matches Ok(s)
            ==> exists|
            combined: Seq<int>,
            indices: Seq<int>,
            cols: Seq<Seq<int>>,
            paths: Seq<Seq<MerkleNode>>,
        | #[trigger]
            opening_shows::<F, H>(
                c,
                num_vars,
                root,
                point,
                eval,
                mo,
                st,
                combined,
                indices,
                cols,
                paths,
                s,
            ),
{
    if let Ok(s) = brakedown::verify_evals_spec::<F, H>(c, num_vars, root, point, eval, mo, st) {
        let m = F::modulus();
        F::modulus_is_odd();
        let k = brakedown::row_vars(c, pow2(num_vars)) as int;
        let len = c.codeword_len();
        trace::law_read_fields_are_absorbed(mo, st, len);
        let (combined, sent) = transcript::read_fields(mo, st, len)->Ok_0;
        let want = brakedown::num_opened(len, c.num_column_opening);
        let n = brakedown::num_draws::<F, [u8; 32]>(mo, sent, len, want);
        let (indices, t) = brakedown::column_indices::<F, [u8; 32]>(
            mo,
            sent,
            len,
            c.num_column_opening,
        );
        trace::law_challenges_are_drawn_in_turn(mo, sent, n);
        law_columns_are_picked::<F>(mo, sent, len, n);
        brakedown::laws::law_column_indices::<F, [u8; 32]>(mo, sent, len, c.num_column_opening);
        let path_len = integer::ceil_log2(len);
        let (cols, paths) = lemma_checked_columns::<F, H>(
            mo,
            t,
            root,
            combined,
            point.take(k),
            path_len,
            indices,
        );
        let tensor = hypercube::tensor(point.skip(k));
        let reduced = modular::reduce_seq(tensor, m);
        let u = brakedown::check_columns::<F, H>(
            mo,
            t,
            root,
            combined,
            modular::reduce_seq(hypercube::tensor(point.take(k)), m),
            path_len,
            indices,
        )->Ok_0;
        let col_vars = (point.len() - k) as nat;
        trace::law_read_fields_are_absorbed(mo, u, pow2(col_vars));
        assert(s.events =~= sent.events + trace::squeezes(n) + columns_events(cols, paths)
            + trace::fields(reduced));
        let head = combined.take(c.row_len as int);
        let f = |b: int| reduced[b] * head[b];
        let g = |b: int| hypercube::eq_at(b, point.skip(k)) * combined[b];
        assert(reduced.len() == c.row_len);
        assert forall|b: int| 0 <= b < c.row_len implies modular::cong(#[trigger] f(b), g(b), m) by {
            modular::lemma_cong_reduced(tensor[b], m);
            modular::lemma_cong_mul(reduced[b], tensor[b], combined[b], combined[b], m);
        }
        sum::lemma_sum_cong(f, g, c.row_len, m);
        if indices.len() != want {
            assert forall|more: nat, others: Seq<int>| #[trigger]
                picked_after::<F>(mo, sent.events, len, more, others) implies others.len() < want by {
                let theirs = brakedown::columns_after::<F, [u8; 32]>(mo, sent, len, more);
                law_columns_are_picked::<F>(mo, sent, len, more);
                assert forall|x: int| #[trigger] others.contains(x) <==> theirs.contains(x) by {}
                lemma_same_entries(others, theirs);
            }
        }
        assert(picked_after::<F>(mo, sent.events, len, n, indices));
        assert(opening_shows::<F, H>(
            c,
            num_vars,
            root,
            point,
            eval,
            mo,
            st,
            combined,
            indices,
            cols,
            paths,
            s,
        ));
    }
}

/// Columns that are written are absorbed in their order, each with its path.
proof fn lemma_written_columns<F: PrimeField, H: HashFunction>(
    mo: Model<[u8; 32]>,
    st: State<[u8; 32]>,
    cols: Seq<Seq<int>>,
    indices: Seq<int>,
)
    ensures
        brakedown::write_columns::<F, H>(mo, st, cols, indices) matches Ok(s) ==> s.events
            == st.events + columns_events(
            opened_columns(cols, indices),
            opened_paths::<F, H>(cols, indices),
        ),
    decreases indices.len(),
{
    let ours = opened_columns(cols, indices);
    let paths = opened_paths::<F, H>(cols, indices);
    if indices.len() == 0 {
        assert(columns_events(ours, paths) =~= Seq::empty());
        assert(st.events + columns_events(ours, paths) =~= st.events);
    } else {
        let fewer = indices.drop_last();
        lemma_written_columns::<F, H>(mo, st, cols, fewer);
        if let Ok(s) = brakedown::write_columns::<F, H>(mo, st, cols, indices) {
            let t = brakedown::write_columns::<F, H>(mo, st, cols, fewer)->Ok_0;
            let i = indices.last();
            let leaves = merkle::leaves_spec::<F, H>(cols);
            let path = merkle::path_spec::<H>(leaves, (leaves.len() - 1 + i) as nat);
            trace::law_written_fields_are_absorbed(mo, t, cols[i]);
            let u = transcript::write_fields(mo, t, cols[i])->Ok_0;
            law_written_nodes_are_absorbed(mo, u, path);
            lemma_columns_events_push(
                opened_columns(cols, fewer),
                opened_paths::<F, H>(cols, fewer),
                cols[i],
                path,
            );
            assert(ours =~= opened_columns(cols, fewer).push(cols[i]));
            assert(paths =~= opened_paths::<F, H>(cols, fewer).push(path));
            assert(s.events =~= st.events + columns_events(ours, paths));
        }
    }
}

/// The columns with the given indices.
pub open spec fn opened_columns(cols: Seq<Seq<int>>, indices: Seq<int>) -> Seq<Seq<int>> {
    Seq::new(indices.len(), |j: int| cols[indices[j]])
}

/// The paths of the columns with the given indices in the tree over all columns.
pub open spec fn opened_paths<F: PrimeField, H: HashFunction>(
    cols: Seq<Seq<int>>,
    indices: Seq<int>,
) -> Seq<Seq<MerkleNode>> {
    let leaves = merkle::leaves_spec::<F, H>(cols);
    Seq::new(
        indices.len(),
        |j: int| merkle::path_spec::<H>(leaves, (leaves.len() - 1 + indices[j]) as nat),
    )
}

/// What an opening says that is written: the combined row, then those columns that challenges
/// drawn after it pick, each with its path, and the tensor of the rest of the point.
pub proof fn law_written_opening_says<F: PrimeField, H: HashFunction>(
    c: CodeView,
    evals: Seq<int>,
    point: Seq<int>,
    mo: Model<[u8; 32]>,
    st: State<[u8; 32]>,
)
    requires
        c.wf(),
    ensures
        brakedown::open_evals_spec::<F, H>(c, evals, point, mo, st) matches Ok(s) ==> {
            let m = F::modulus();
            let k = brakedown::row_vars(c, evals.len()) as int;
            let cols = brakedown::columns(c, evals, m);
            let sent = st.events + trace::fields(
                modular::reduce_seq(brakedown::combined_row(c, evals, point.take(k)), m),
            );
            &&& trace::follows(s, st)
            &&& exists|n: nat, indices: Seq<int>|
                {
                    &&& #[trigger] picked_after::<F>(mo, sent, c.codeword_len(), n, indices)
                    &&& s.events == sent + trace::squeezes(n) + columns_events(
                        opened_columns(cols, indices),
                        opened_paths::<F, H>(cols, indices),
                    ) + trace::fields(modular::reduce_seq(hypercube::tensor(point.skip(k)), m))
                }
        },
{
    if let Ok(s) = brakedown::open_evals_spec::<F, H>(c, evals, point, mo, st) {
        let m = F::modulus();
        let k = brakedown::row_vars(c, evals.len()) as int;
        let len = c.codeword_len();
        let row = modular::reduce_seq(brakedown::combined_row(c, evals, point.take(k)), m);
        trace::law_written_fields_are_absorbed(mo, st, row);
        let sent = transcript::write_fields(mo, st, row)->Ok_0;
        let want = brakedown::num_opened(len, c.num_column_opening);
        let n = brakedown::num_draws::<F, [u8; 32]>(mo, sent, len, want);
        let (indices, t) = brakedown::column_indices::<F, [u8; 32]>(
            mo,
            sent,
            len,
            c.num_column_opening,
        );
        trace::law_challenges_are_drawn_in_turn(mo, sent, n);
        law_columns_are_picked::<F>(mo, sent, len, n);
        let cols = brakedown::columns(c, evals, m);
        lemma_written_columns::<F, H>(mo, t, cols, indices);
        let u = brakedown::write_columns::<F, H>(mo, t, cols, indices)->Ok_0;
        let tensor = modular::reduce_seq(hypercube::tensor(point.skip(k)), m);
        trace::law_written_fields_are_absorbed(mo, u, tensor);
        let rest = trace::fields(row) + trace::squeezes(n) + columns_events(
            opened_columns(cols, indices),
            opened_paths::<F, H>(cols, indices),
        ) + trace::fields(tensor);
        assert(s.events =~= sent.events + trace::squeezes(n) + columns_events(
            opened_columns(cols, indices),
            opened_paths::<F, H>(cols, indices),
        ) + trace::fields(tensor));
        assert(s.events =~= st.events + rest);
        trace::lemma_follows_more(st, s, rest);
        assert(picked_after::<F>(mo, sent.events, len, n, indices));
    }
}

/// An accepted opening takes back nothing that happened before it.
pub proof fn lemma_accepted_opening_follows<F: PrimeField, H: HashFunction>(
    c: CodeView,
    num_vars: nat,
    root: Option<MerkleNode>,
    point: Seq<int>,
    eval: int,
    mo: Model<[u8; 32]>,
    st: State<[u8; 32]>,
)
    requires
        c.wf(),
    ensures
        brakedown::verify_evals_spec::<F, H>(c, num_vars, root, point, eval, mo, st) matches Ok(s)
            ==> trace::follows(s, st),
{
    if let Ok(s) = brakedown::verify_evals_spec::<F, H>(c, num_vars, root, point, eval, mo, st) {
        law_accepted_opening_shows::<F, H>(c, num_vars, root, point, eval, mo, st);
        let (combined, indices, cols, paths) = choose|
            combined: Seq<int>,
            indices: Seq<int>,
            cols: Seq<Seq<int>>,
            paths: Seq<Seq<MerkleNode>>,
        | #[trigger]
            opening_shows::<F, H>(
                c,
                num_vars,
                root,
                point,
                eval,
                mo,
                st,
                combined,
                indices,
                cols,
                paths,
                s,
            );
        assert(s.events.take(st.events.len() as int) =~= st.events);
    }
}

/// The nodes that commitments are sent as.
pub open spec fn roots(comms: Seq<BrakedownCommitment>) -> Seq<[u8; 32]> {
    comms.map_values(|c: BrakedownCommitment| c.root.0)
}

/// As many commitments are read as were asked for, and their roots are absorbed in order.
pub proof fn law_read_roots_are_absorbed(mo: Model<[u8; 32]>, st: State<[u8; 32]>, n: nat)
    ensures
        brakedown::read_roots(mo, st, n) matches Ok((comms, s)) ==> comms.len() == n && s.events
            == st.events + trace::chunks(roots(comms)),
    decreases n,
{
    if n == 0 {
        assert(st.events + trace::chunks(roots(Seq::empty())) =~= st.events);
    } else {
        law_read_roots_are_absorbed(mo, st, (n - 1) as nat);
        if let Ok((comms, s)) = brakedown::read_roots(mo, st, n) {
            assert(s.events =~= st.events + trace::chunks(roots(comms)));
        }
    }
}

/// Commitments that are written are absorbed, root by root, in their order.
proof fn lemma_written_comms<F: PrimeField, H: HashFunction>(
    mo: Model<[u8; 32]>,
    st: State<[u8; 32]>,
    comms: Seq<BrakedownCommitment>,
)
    ensures
        pcs::write_comms::<F, BrakedownPcs<F, H>>(mo, st, comms) matches Ok(s) ==> s.events
            == st.events + trace::chunks(roots(comms)),
    decreases comms.len(),
{
    if comms.len() == 0 {
        assert(st.events + trace::chunks(roots(comms)) =~= st.events);
    } else {
        lemma_written_comms::<F, H>(mo, st, comms.drop_last());
        if let Ok(s) = pcs::write_comms::<F, BrakedownPcs<F, H>>(mo, st, comms) {
            let t = pcs::write_comms::<F, BrakedownPcs<F, H>>(mo, st, comms.drop_last())->Ok_0;
            let one = BrakedownPcs::<F, H>::chunks_spec(comms.last());
            assert(one =~= seq![comms.last().root.0]);
            assert(one.drop_last() =~= Seq::empty());
            reveal_with_fuel(pcs::write_chunks, 2);
            assert(s.events =~= st.events + trace::chunks(roots(comms)));
        }
    }
}

/// Several polynomials are committed to one by one.
pub proof fn lemma_commit_all<V>(
    commit: spec_fn(Seq<int>) -> Result<V, ErrorView>,
    polys: Seq<Seq<int>>,
)
    ensures
        pcs::commit_all(commit, polys) matches Ok(comms) ==> {
            &&& comms.len() == polys.len()
            &&& forall|i: int|
                0 <= i < polys.len() ==> commit(#[trigger] polys[i]) == Ok::<V, ErrorView>(
                    comms[i],
                )
        },
    decreases polys.len(),
{
    if polys.len() > 0 {
        let fewer = polys.drop_last();
        lemma_commit_all(commit, fewer);
        if let Ok(comms) = pcs::commit_all(commit, polys) {
            assert forall|i: int| 0 <= i < polys.len() implies commit(#[trigger] polys[i]) == Ok::<
                V,
                ErrorView,
            >(comms[i]) by {
                if i < fewer.len() {
                    assert(fewer[i] == polys[i]);
                }
            }
        }
    }
}

/// Where several polynomials are committed to and sent, every commitment is that of its own
/// polynomial, and their roots are absorbed in order.
pub proof fn law_sent_commitments<F: PrimeField, H: HashFunction>(
    pp: BrakedownProverParam<F>,
    polys: Seq<Seq<int>>,
    mo: Model<[u8; 32]>,
    st: State<[u8; 32]>,
)
    ensures
        pcs::batch_commit_and_write_spec::<F, BrakedownPcs<F, H>>(pp, polys, mo, st) matches Ok(
            (comms, s),
        ) ==> {
            &&& comms.len() == polys.len()
            &&& forall|i: int|
                0 <= i < polys.len() ==> brakedown::commit_evals_spec::<F, H>(
                    pp.param.code@,
                    #[trigger] polys[i],
                ) == Ok::<BrakedownCommitment, ErrorView>(comms[i])
            &&& s.events == st.events + trace::chunks(roots(comms))
        },
{
    let f = |e: Seq<int>| BrakedownPcs::<F, H>::commit_spec(pp, e);
    lemma_commit_all(f, polys);
    if let Ok((comms, s)) = pcs::batch_commit_and_write_spec::<F, BrakedownPcs<F, H>>(
        pp,
        polys,
        mo,
        st,
    ) {
        lemma_written_comms::<F, H>(mo, st, comms);
        assert forall|i: int| 0 <= i < polys.len() implies brakedown::commit_evals_spec::<F, H>(
            pp.param.code@,
            #[trigger] polys[i],
        ) == Ok::<BrakedownCommitment, ErrorView>(comms[i]) by {
            assert(f(polys[i]) == Ok::<BrakedownCommitment, ErrorView>(comms[i]));
        }
    }
}

/// The first columns hold the values themselves.
proof fn lemma_first_columns(c: CodeView, evals: Seq<int>, m: int, i: int, j: int)
    requires
        c.wf(),
        m > 0,
        evals.len() == c.row_len * brakedown::num_rows(c, evals.len()),
        transcript::in_range(evals, m),
        0 <= i < brakedown::num_rows(c, evals.len()),
        0 <= j < c.row_len,
    ensures
        0 <= j * brakedown::num_rows(c, evals.len()) + i < evals.len(),
        brakedown::columns(c, evals, m)[j][i] == evals[j * brakedown::num_rows(c, evals.len()) + i],
{
    let n = brakedown::num_rows(c, evals.len());
    let at = j * n + i;
    assert(0 <= j * n + i < c.row_len * n) by (nonlinear_arith)
        requires
            0 <= i < n,
            0 <= j < c.row_len,
    ;
    let row = brakedown::row(c, evals, i);
    code::law_code_is_systematic(c, row, c.parity.len());
    let word = c.encode(row);
    assert(word[j] == word.take(c.row_len as int)[j]);
    assert(word[j] == evals[at]);
    assert(0 <= evals[at] < m);
    modular::lemma_small(evals[at], m);
}

/// A commitment is to its own polynomial only: equally long lists of values with the same root
/// are the same, or there are two inputs that hash to the same node.
pub proof fn law_commitment_binds<F: PrimeField, H: HashFunction>(
    c: CodeView,
    a: Seq<int>,
    b: Seq<int>,
)
    requires
        c.wf(),
        a.len() == b.len(),
        transcript::in_range(a, F::modulus()),
        transcript::in_range(b, F::modulus()),
        brakedown::commit_evals_spec::<F, H>(c, a) is Ok,
        brakedown::commit_evals_spec::<F, H>(c, b) is Ok,
        brakedown::commit_evals_spec::<F, H>(c, a)->Ok_0.root == brakedown::commit_evals_spec::<F, H>(
            c,
            b,
        )->Ok_0.root,
    ensures
        a == b || exists|x: Seq<u8>, y: Seq<u8>| merkle::collide::<H>(x, y),
{
    let m = F::modulus();
    F::modulus_is_odd();
    let n = brakedown::num_rows(c, a.len());
    let ca = brakedown::columns(c, a, m);
    let cb = brakedown::columns(c, b, m);
    let leaves = merkle::leaves_spec::<F, H>(cb);
    if !(exists|x: Seq<u8>, y: Seq<u8>| merkle::collide::<H>(x, y)) {
        assert forall|j: int| 0 <= j < c.codeword_len() implies #[trigger] ca[j] == cb[j] by {
            let idx = (leaves.len() - 1 + j) as nat;
            merkle::law_auth_path_verifies::<F, H>(cb, j);
            assert(merkle::leaves_spec::<F, H>(ca).len() == leaves.len());
            assert(transcript::in_range(ca[j], m));
            assert(transcript::in_range(cb[j], m));
            merkle::law_root_binds_columns::<F, H>(
                ca,
                j,
                cb[j],
                merkle::path_spec::<H>(leaves, idx),
            );
        }
        assert forall|t: int| 0 <= t < a.len() implies a[t] == b[t] by {
            let j = t / (n as int);
            let i = t % (n as int);
            assert(n > 0) by (nonlinear_arith)
                requires
                    0 <= t < c.row_len * n,
            ;
            lemma_fundamental_div_mod(t, n as int);
            assert(n * j == j * n) by (nonlinear_arith);
            assert(0 <= j < c.row_len) by (nonlinear_arith)
                requires
                    t == j * n + i,
                    0 <= i < n,
                    0 <= t < c.row_len * n,
            ;
            lemma_first_columns(c, a, m, i, j);
            lemma_first_columns(c, b, m, i, j);
            assert(ca[j] == cb[j]);
        }
        assert(a =~= b);
    }
}

/// A column that was read is refused exactly if it does not fit, with the reason: its path does
/// not lead to the root, or else its entries do not combine to the entry of the combined row.
pub proof fn law_column_is_refused<F: PrimeField, H: HashFunction>(
    mo: Model<[u8; 32]>,
    st: State<[u8; 32]>,
    root: Option<MerkleNode>,
    combined: Seq<int>,
    row_tensor: Seq<int>,
    path_len: nat,
    i: int,
    column: Seq<int>,
    path: Seq<MerkleNode>,
    s: State<[u8; 32]>,
    t: State<[u8; 32]>,
)
    requires
        transcript::read_fields(mo, st, row_tensor.len()) == Ok::<_, Halt<[u8; 32]>>((column, s)),
        brakedown::read_nodes(mo, s, path_len) == Ok::<_, Halt<[u8; 32]>>((path, t)),
    ensures
        ({
            let r = brakedown::check_column::<F, H>(
                mo,
                st,
                root,
                combined,
                row_tensor,
                path_len,
                i,
            );
            let leads = root matches Some(node) ==> merkle::climb::<H>(
                merkle::leaf_spec::<F, H>(column),
                (pow2(path_len) - 1 + i) as nat,
                path,
            ) == node;
            let combines = combined[i] == sum::sum_to(
                |b: int| row_tensor[b] * column[b],
                row_tensor.len(),
            ) % F::modulus();
            &&& leads && combines ==> r == Ok::<State<[u8; 32]>, Halt<[u8; 32]>>(t)
            &&& !leads ==> r == Err::<State<[u8; 32]>, _>(
                Halt {
                    error: ErrorView::InvalidPcsOpen("Merkle path verification failed"@),
                    state: t,
                },
            )
            &&& leads && !combines ==> r == Err::<State<[u8; 32]>, _>(
                Halt {
                    error: ErrorView::InvalidPcsOpen(
                        if root is Some {
                            "Column consistency check failed"@
                        } else {
                            "Batch column consistency check failed"@
                        },
                    ),
                    state: t,
                },
            )
        }),
{
}

/// What the columns are checked for: against the root of a polynomial, every opened column is the
/// polynomial's own, and the entry of the combined row at its place is that of the true
/// combination; or there are two inputs that hash to the same node.
pub proof fn law_opened_entries_are_true<F: PrimeField, H: HashFunction>(
    c: CodeView,
    num_vars: nat,
    evals: Seq<int>,
    point: Seq<int>,
    eval: int,
    mo: Model<[u8; 32]>,
    st: State<[u8; 32]>,
    combined: Seq<int>,
    indices: Seq<int>,
    cols: Seq<Seq<int>>,
    paths: Seq<Seq<MerkleNode>>,
    s: State<[u8; 32]>,
    j: int,
)
    requires
        c.wf(),
        evals.len() == pow2(num_vars),
        brakedown::can_open_evals(c, evals.len(), point.len()),
        brakedown::commit_evals_spec::<F, H>(c, evals) is Ok,
        opening_shows::<F, H>(
            c,
            num_vars,
            Some(brakedown::commit_evals_spec::<F, H>(c, evals)->Ok_0.root),
            point,
            eval,
            mo,
            st,
            combined,
            indices,
            cols,
            paths,
            s,
        ),
        0 <= j < indices.len(),
        transcript::in_range(cols[j], F::modulus()),
    ensures
        ({
            let m = F::modulus();
            let k = brakedown::row_vars(c, evals.len()) as int;
            ||| {
                &&& cols[j] == brakedown::columns(c, evals, m)[indices[j]]
                &&& combined[indices[j]] == brakedown::combined_row(
                    c,
                    evals,
                    point.take(k),
                )[indices[j]] % m
            }
            ||| exists|x: Seq<u8>, y: Seq<u8>| merkle::collide::<H>(x, y)
        }),
{
    let m = F::modulus();
    F::modulus_is_odd();
    let k = brakedown::row_vars(c, evals.len()) as int;
    let i = indices[j];
    let columns = brakedown::columns(c, evals, m);
    let leaves = merkle::leaves_spec::<F, H>(columns);
    let root = Some(brakedown::commit_evals_spec::<F, H>(c, evals)->Ok_0.root);
    assert(column_fits::<F, H>(
        root,
        combined,
        point.take(k),
        integer::ceil_log2(c.codeword_len()),
        i,
        cols[j],
        paths[j],
    ));
    assert(0 <= i < c.codeword_len());
    assert(transcript::in_range(columns[i], m));
    merkle::law_root_binds_columns::<F, H>(columns, i, cols[j], paths[j]);
    if cols[j] == columns[i] {
        brakedown::lemma_row_vars(c, evals.len());
        let rp = point.take(k);
        brakedown::laws::lemma_combined_entry(c, evals, rp, i, m);
        let tensor = hypercube::tensor(rp);
        let reduced = modular::reduce_seq(tensor, m);
        let f = |b: int| reduced[b] * cols[j][b];
        let g = |b: int| hypercube::eq_at(b, rp) * cols[j][b];
        assert forall|b: int| 0 <= b < reduced.len() implies modular::cong(
            #[trigger] f(b),
            g(b),
            m,
        ) by {
            modular::lemma_cong_reduced(tensor[b], m);
            modular::lemma_cong_mul(reduced[b], tensor[b], cols[j][b], cols[j][b], m);
        }
        sum::lemma_sum_cong(f, g, reduced.len(), m);
    }
}

/// An accepted value that is not that of the polynomial's extension at the point needs a combined
/// row that is not the true one.
pub proof fn law_wrong_values_need_a_wrong_row<F: PrimeField, H: HashFunction>(
    c: CodeView,
    num_vars: nat,
    root: Option<MerkleNode>,
    evals: Seq<int>,
    point: Seq<int>,
    eval: int,
    mo: Model<[u8; 32]>,
    st: State<[u8; 32]>,
    combined: Seq<int>,
    indices: Seq<int>,
    cols: Seq<Seq<int>>,
    paths: Seq<Seq<MerkleNode>>,
    s: State<[u8; 32]>,
)
    requires
        c.wf(),
        evals.len() == pow2(num_vars),
        evals.len() == pow2(point.len()),
        brakedown::can_open_evals(c, evals.len(), point.len()),
        evals.len() == c.row_len * brakedown::num_rows(c, evals.len()),
        opening_shows::<F, H>(
            c,
            num_vars,
            root,
            point,
            eval,
            mo,
            st,
            combined,
            indices,
            cols,
            paths,
            s,
        ),
        eval != hypercube::mle(evals, point) % F::modulus(),
    ensures
        exists|b: int|
            0 <= b < c.row_len && #[trigger] combined[b] != brakedown::combined_row(
                c,
                evals,
                point.take(brakedown::row_vars(c, evals.len()) as int),
            )[b] % F::modulus(),
{
    let m = F::modulus();
    F::modulus_is_odd();
    let k = brakedown::row_vars(c, evals.len()) as int;
    let low = point.take(k);
    let high = point.skip(k);
    let row = brakedown::combined_row(c, evals, low);
    if forall|b: int| 0 <= b < c.row_len ==> #[trigger] combined[b] == row[b] % m {
        brakedown::lemma_row_vars(c, evals.len());
        brakedown::laws::lemma_combined_entry(c, evals, low, 0, m);
        brakedown::laws::lemma_final_value(c, evals, low, high, m);
        assert(low + high =~= point);
        let tensor = hypercube::tensor(high);
        let reduced = modular::reduce_seq(tensor, m);
        let head = modular::reduce_seq(row, m).take(c.row_len as int);
        let f = |b: int| reduced[b] * head[b];
        let g = |b: int| hypercube::eq_at(b, high) * combined[b];
        assert forall|b: int| 0 <= b < c.row_len implies modular::cong(#[trigger] f(b), g(b), m) by {
            assert(combined[b] == row[b] % m);
            assert(head[b] == combined[b]);
            modular::lemma_cong_reduced(tensor[b], m);
            modular::lemma_cong_mul(reduced[b], tensor[b], combined[b], combined[b], m);
        }
        sum::lemma_sum_cong(f, g, c.row_len, m);
    }
}

/// A polynomial is committed to exactly if its values fill whole rows. The commitment holds the
/// number of rows, which times the length of a message is the number of values, and the length of
/// a codeword.
pub proof fn law_commitment_has_its_shape<F: PrimeField, H: HashFunction>(
    c: CodeView,
    evals: Seq<int>,
)
    requires
        c.wf(),
    ensures
        brakedown::commit_evals_spec::<F, H>(c, evals) is Ok <==> evals.len() % c.row_len == 0,
        evals.len() <= usize::MAX && c.codeword_len() <= usize::MAX ==> (
        brakedown::commit_evals_spec::<F, H>(c, evals) matches Ok(comm) ==> {
            &&& comm.num_rows * c.row_len == evals.len()
            &&& comm.num_cols == c.row_len + c.parity.len()
        }),
{
    let n = brakedown::num_rows(c, evals.len());
    let l = c.row_len as int;
    lemma_fundamental_div_mod(evals.len() as int, l);
    assert(n * l == l * n) by (nonlinear_arith);
    assert(n <= evals.len()) by (nonlinear_arith)
        requires
            n == evals.len() as int / l,
            l > 0,
            evals.len() == l * n + evals.len() as int % l,
            evals.len() as int % l >= 0,
            n >= 0,
    ;
}

/// Trimming takes exactly those sizes that the parameters are made for, and both sides keep the
/// parameters.
pub proof fn law_trimmed_parameters<F: PrimeField, H: HashFunction>(
    param: BrakedownParam<F>,
    poly_size: nat,
    pp: BrakedownProverParam<F>,
    vp: BrakedownVerifierParam<F>,
)
    requires
        BrakedownPcs::<F, H>::trimmed(param, poly_size, Ok::<_, crate::Error>((pp, vp))),
        poly_size > 0,
    ensures
        poly_size < pow2(param.num_vars as nat + 1),
        pp.param.code@ == param.code@,
        vp.param.code@ == param.code@,
        pp.param.num_vars == param.num_vars,
        vp.param.num_vars == param.num_vars,
{
    integer::lemma_floor_log2(poly_size);
    integer::lemma_pow2_monotone(
        integer::floor_log2(poly_size) + 1,
        param.num_vars as nat + 1,
    );
}

} // verus!
