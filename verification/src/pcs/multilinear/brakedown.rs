//! The Brakedown polynomial commitment scheme for multilinear polynomials.
//!
//! The values of a polynomial form a matrix whose rows are encoded with a linear code.
//! The commitment is the root of a Merkle tree over the columns of the encoded matrix.
//! An opening sends a combination of the rows and some of the columns.
//!
//! See [GLSTW21](https://eprint.iacr.org/2021/1043.pdf), "Brakedown: Linear-time and
//! field-agnostic SNARKs for R1CS".

pub mod acceptance;
pub mod batching;
pub mod laws;

use crate::pcs;
use crate::pcs::multilinear::merkle;
use crate::pcs::multilinear::merkle::{MerkleNode, MerkleTree};
use crate::pcs::{Additive, Evaluation, EvaluationView, PolynomialCommitmentScheme};
use crate::poly::hypercube;
use crate::poly::multilinear;
use crate::poly::multilinear::MultilinearPolynomial;
use crate::util::code;
use crate::util::code::{BrakedownCode, CodeView};
use crate::util::expression::Rotation;
use crate::util::field;
use crate::util::field::PrimeField;
use crate::util::hash::{HashFunction, Keccak256};
use crate::util::integer;
use crate::util::integer::Countdown;
use crate::util::modular;
use crate::util::ordered;
use crate::util::sum;
use crate::util::text;
use crate::util::transcript;
use crate::util::transcript::{Halt, Item, Model, State, Transcript, TranscriptRead, TranscriptWrite};
use crate::{Error, ErrorView};
use std::marker::PhantomData;
use vstd::arithmetic::div_mod::*;
use vstd::arithmetic::mul::*;
use vstd::arithmetic::power2;
use vstd::arithmetic::power2::pow2;
use vstd::prelude::*;

verus! {

/// The Brakedown scheme over the field `F`, with the hash function `H`.
#[verifier::reject_recursive_types(H)]
#[derive(Debug)]
pub struct BrakedownPcs<F: PrimeField, H: HashFunction = Keccak256> {
    marker: PhantomData<(F, H)>,
}

/// The root of the Merkle tree over the encoded columns, and the size of the matrix.
#[derive(Clone, Copy, Debug, PartialEq, Eq)]
pub struct BrakedownCommitment {
    pub root: MerkleNode,
    pub num_rows: usize,
    pub num_cols: usize,
}

/// The commitment to nothing.
pub open spec fn empty_commitment() -> BrakedownCommitment {
    BrakedownCommitment { root: merkle::zero_node(), num_rows: 0, num_cols: 0 }
}

impl Default for BrakedownCommitment {
    fn default() -> (r: Self)
        ensures
            r == empty_commitment(),
    {
        BrakedownCommitment { root: MerkleNode::default(), num_rows: 0, num_cols: 0 }
    }
}

/// `std::slice::from_ref`: the slice that holds the one referenced value.
pub assume_specification<T>[ std::slice::from_ref::<T> ](s: &T) -> (r: &[T])
    ensures
        r@ == seq![*s],
;

impl BrakedownCommitment {
    /// The root, as the one piece that the commitment is sent in.
    pub fn as_ref(&self) -> (r: &[[u8; 32]])
        ensures
            r@ == seq![self.root.0],
    {
        std::slice::from_ref(&self.root.0)
    }
}

impl<F: PrimeField> Additive<F> for BrakedownCommitment {
    /// Roots cannot be combined: the combination is a placeholder.
    open spec fn msm_spec(scalars: Seq<int>, bases: Seq<Self>) -> Self {
        empty_commitment()
    }

    fn msm(scalars: &[F], bases: &[&Self]) -> (r: Self) {
        Self::default()
    }
}

/// Brakedown parameters.
#[derive(Debug)]
pub struct BrakedownParam<F: PrimeField> {
    /// The number of variables.
    pub num_vars: usize,
    /// The code that rows are encoded with.
    pub code: BrakedownCode<F>,
    /// The message length below which the code no longer recurses.
    pub n_0: usize,
}

impl<F: PrimeField> Clone for BrakedownParam<F> {
    fn clone(&self) -> (r: Self)
        ensures
            r.num_vars == self.num_vars,
            r.code@ == self.code@,
            r.n_0 == self.n_0,
    {
        BrakedownParam { num_vars: self.num_vars, code: self.code.clone(), n_0: self.n_0 }
    }
}

/// Brakedown parameters of a prover.
#[derive(Debug)]
pub struct BrakedownProverParam<F: PrimeField> {
    pub param: BrakedownParam<F>,
}

impl<F: PrimeField> BrakedownProverParam<F> {
    pub fn num_vars(&self) -> (r: usize)
        ensures
            r == self.param.num_vars,
    {
        self.param.num_vars
    }
}

/// Brakedown parameters of a verifier.
#[derive(Debug)]
pub struct BrakedownVerifierParam<F: PrimeField> {
    pub param: BrakedownParam<F>,
}

impl<F: PrimeField> BrakedownVerifierParam<F> {
    pub fn num_vars(&self) -> (r: usize)
        ensures
            r == self.param.num_vars,
    {
        self.param.num_vars
    }
}

/// An opening proof.
#[derive(Clone, Debug)]
pub struct BrakedownProof<F: PrimeField> {
    /// The opened columns.
    pub column_openings: Vec<ColumnOpening<F>>,
    /// The responses to the proximity test.
    pub proximity_responses: Vec<F>,
    /// The values for the final check.
    pub tensor_evals: Vec<F>,
}

/// A column with its authentication path.
#[derive(Clone, Debug)]
pub struct ColumnOpening<F: PrimeField> {
    pub column_idx: usize,
    pub column_data: Vec<F>,
    pub auth_path: Vec<MerkleNode>,
}

/// The number of rows of the matrix that `size` values form.
pub open spec fn num_rows(c: CodeView, size: nat) -> nat {
    size / c.row_len
}

/// Row `i` of the matrix: the values whose index is `i` modulo the number of rows.
pub open spec fn row(c: CodeView, evals: Seq<int>, i: int) -> Seq<int> {
    let n = num_rows(c, evals.len());
    Seq::new(c.row_len, |j: int| evals[j * n + i])
}

/// All rows of the matrix.
pub open spec fn rows(c: CodeView, evals: Seq<int>) -> Seq<Seq<int>> {
    Seq::new(num_rows(c, evals.len()), |i: int| row(c, evals, i))
}

/// All rows of the matrix, encoded.
pub open spec fn codewords(c: CodeView, evals: Seq<int>) -> Seq<Seq<int>> {
    Seq::new(num_rows(c, evals.len()), |i: int| c.encode(row(c, evals, i)))
}

/// The columns of the encoded matrix.
pub open spec fn columns(c: CodeView, evals: Seq<int>, m: int) -> Seq<Seq<int>> {
    Seq::new(
        c.codeword_len(),
        |j: int|
            Seq::new(num_rows(c, evals.len()), |i: int| codewords(c, evals)[i][j] % m),
    )
}

/// The codeword of the combination of the rows with the factors `eq(x, row_point)`.
pub open spec fn combined_row(c: CodeView, evals: Seq<int>, row_point: Seq<int>) -> Seq<int> {
    c.encode(code::linear_combination(hypercube::tensor(row_point), rows(c, evals), c.row_len))
}

/// The column that a challenge picks: its first eight bytes, modulo the number of columns.
pub open spec fn column_of<F: PrimeField>(challenge: int, num_cols: nat) -> int {
    field::le_value(F::repr(challenge).take(8)) % (num_cols as int)
}

/// The different columns that the next `n` challenges pick, in increasing order.
pub open spec fn columns_after<F: PrimeField, C>(
    mo: Model<C>,
    st: State<C>,
    num_cols: nat,
    n: nat,
) -> Seq<int>
    decreases n,
{
    if n == 0 {
        Seq::empty()
    } else {
        let k = (n - 1) as nat;
        ordered::insert(
            columns_after::<F, C>(mo, st, num_cols, k),
            column_of::<F>(transcript::challenge_at(mo, st, k), num_cols),
        )
    }
}

/// Whether the next `n` challenges pick `want` different columns.
pub open spec fn enough<F: PrimeField, C>(
    mo: Model<C>,
    st: State<C>,
    num_cols: nat,
    want: nat,
    n: nat,
) -> bool {
    columns_after::<F, C>(mo, st, num_cols, n).len() >= want
}

/// How many challenges are drawn until they pick `want` different columns. If they never do,
/// as many as there are digests: after that, they only repeat.
pub open spec fn num_draws<F: PrimeField, C>(
    mo: Model<C>,
    st: State<C>,
    num_cols: nat,
    want: nat,
) -> nat {
    if exists|n: nat| #[trigger] enough::<F, C>(mo, st, num_cols, want, n) {
        choose|n: nat| #[trigger]
            enough::<F, C>(mo, st, num_cols, want, n) && forall|j: nat|
                j < n ==> !(#[trigger] enough::<F, C>(mo, st, num_cols, want, j))
    } else {
        transcript::num_digests()
    }
}

/// How many columns are opened: as many as asked for, or all there are.
pub open spec fn num_opened(num_cols: nat, num_openings: nat) -> nat {
    if num_openings < num_cols {
        num_openings
    } else {
        num_cols
    }
}

/// The columns to open, in increasing order: challenges are drawn until they pick as many
/// different ones as asked for, or all there are.
pub open spec fn column_indices<F: PrimeField, C>(
    mo: Model<C>,
    st: State<C>,
    num_cols: nat,
    num_openings: nat,
) -> (Seq<int>, State<C>) {
    let n = num_draws::<F, C>(mo, st, num_cols, num_opened(num_cols, num_openings));
    (columns_after::<F, C>(mo, st, num_cols, n), transcript::squeeze_many(mo, st, n).1)
}

/// Draws that are enough, while fewer are not, are those that are made.
pub proof fn lemma_num_draws<F: PrimeField, C>(
    mo: Model<C>,
    st: State<C>,
    num_cols: nat,
    want: nat,
    n: nat,
)
    requires
        enough::<F, C>(mo, st, num_cols, want, n),
        forall|j: nat| j < n ==> !(#[trigger] enough::<F, C>(mo, st, num_cols, want, j)),
    ensures
        num_draws::<F, C>(mo, st, num_cols, want) == n,
{
}

/// Where some number of draws is enough, there is a least one.
pub proof fn lemma_least_draws<F: PrimeField, C>(
    mo: Model<C>,
    st: State<C>,
    num_cols: nat,
    want: nat,
    n: nat,
)
    requires
        enough::<F, C>(mo, st, num_cols, want, n),
    ensures
        ({
            let d = num_draws::<F, C>(mo, st, num_cols, want);
            &&& enough::<F, C>(mo, st, num_cols, want, d)
            &&& forall|j: nat| j < d ==> !(#[trigger] enough::<F, C>(mo, st, num_cols, want, j))
        }),
    decreases n,
{
    if forall|j: nat| j < n ==> !(#[trigger] enough::<F, C>(mo, st, num_cols, want, j)) {
        lemma_num_draws::<F, C>(mo, st, num_cols, want, n);
    } else {
        let j = choose|j: nat| j < n && #[trigger] enough::<F, C>(mo, st, num_cols, want, j);
        lemma_least_draws::<F, C>(mo, st, num_cols, want, j);
    }
}

/// The columns that challenges pick come in increasing order, and are those of the
/// challenges.
pub proof fn lemma_columns_after<F: PrimeField, C>(
    mo: Model<C>,
    st: State<C>,
    num_cols: nat,
    n: nat,
)
    requires
        num_cols > 0,
    ensures
        ({
            let a = columns_after::<F, C>(mo, st, num_cols, n);
            &&& ordered::increasing(a)
            &&& forall|i: int| 0 <= i < a.len() ==> 0 <= (#[trigger] a[i]) < num_cols
            &&& forall|x: int| #[trigger]
                a.contains(x) <==> exists|j: nat|
                    j < n && column_of::<F>(
                        #[trigger] transcript::challenge_at(mo, st, j),
                        num_cols,
                    ) == x
        }),
    decreases n,
{
    if n > 0 {
        let k = (n - 1) as nat;
        lemma_columns_after::<F, C>(mo, st, num_cols, k);
        let before = columns_after::<F, C>(mo, st, num_cols, k);
        let a = columns_after::<F, C>(mo, st, num_cols, n);
        let new = column_of::<F>(transcript::challenge_at(mo, st, k), num_cols);
        ordered::law_insert_keeps_order(before, new);
        assert forall|i: int| 0 <= i < a.len() implies 0 <= (#[trigger] a[i]) < num_cols by {
            assert(a.contains(a[i]));
            if before.contains(a[i]) {
                let j = choose|j: int| 0 <= j < before.len() && before[j] == a[i];
                assert(0 <= before[j] < num_cols);
            }
        }
        assert forall|x: int| #[trigger] a.contains(x) <==> exists|j: nat|
            j < n && column_of::<F>(#[trigger] transcript::challenge_at(mo, st, j), num_cols)
                == x by {
            if before.contains(x) {
                let j = choose|j: nat|
                    j < k && column_of::<F>(
                        #[trigger] transcript::challenge_at(mo, st, j),
                        num_cols,
                    ) == x;
                assert(j < n);
            }
            if exists|j: nat|
                j < n && column_of::<F>(#[trigger] transcript::challenge_at(mo, st, j), num_cols)
                    == x {
                let j = choose|j: nat|
                    j < n && column_of::<F>(
                        #[trigger] transcript::challenge_at(mo, st, j),
                        num_cols,
                    ) == x;
                if j < k {
                    assert(before.contains(x));
                }
            }
        }
    }
}

/// Once challenges repeat, drawing more of them does not help.
proof fn lemma_no_more_columns<F: PrimeField, C>(
    mo: Model<C>,
    st: State<C>,
    num_cols: nat,
    n: nat,
)
    requires
        num_cols > 0,
        transcript::repeats(mo),
    ensures
        columns_after::<F, C>(mo, st, num_cols, n).len() <= columns_after::<F, C>(
            mo,
            st,
            num_cols,
            transcript::num_digests(),
        ).len(),
{
    let count = transcript::num_digests();
    let a = columns_after::<F, C>(mo, st, num_cols, n);
    let b = columns_after::<F, C>(mo, st, num_cols, count);
    lemma_columns_after::<F, C>(mo, st, num_cols, n);
    lemma_columns_after::<F, C>(mo, st, num_cols, count);
    assert forall|i: int| 0 <= i < a.len() implies b.contains(#[trigger] a[i]) by {
        assert(a.contains(a[i]));
        let j = choose|j: nat|
            j < n && column_of::<F>(#[trigger] transcript::challenge_at(mo, st, j), num_cols)
                == a[i];
        assert(transcript::drawn_before(mo, st, j));
        let k = choose|k: nat|
            k < count && #[trigger] transcript::challenge_at(mo, st, k)
                == transcript::challenge_at(mo, st, j);
        assert(column_of::<F>(transcript::challenge_at(mo, st, k), num_cols) == a[i]);
    }
    ordered::lemma_no_longer(a, b);
}

/// The state after the nodes `path` are written.
pub open spec fn write_nodes(
    mo: Model<[u8; 32]>,
    st: State<[u8; 32]>,
    path: Seq<MerkleNode>,
) -> Result<State<[u8; 32]>, Halt<[u8; 32]>>
    decreases path.len(),
{
    if path.len() == 0 {
        Ok(st)
    } else {
        match write_nodes(mo, st, path.drop_last()) {
            Err(e) => Err(e),
            Ok(s) => transcript::write(mo, s, Item::Chunk(path.last().0)),
        }
    }
}

/// The state after `column` and its path are written.
pub open spec fn write_column(
    mo: Model<[u8; 32]>,
    st: State<[u8; 32]>,
    column: Seq<int>,
    path: Seq<MerkleNode>,
) -> Result<State<[u8; 32]>, Halt<[u8; 32]>> {
    match transcript::write_fields(mo, st, column) {
        Err(e) => Err(e),
        Ok(s) => write_nodes(mo, s, path),
    }
}

/// The state after the columns `indices` of `cols` are written, each with its path.
pub open spec fn write_columns<F: PrimeField, H: HashFunction>(
    mo: Model<[u8; 32]>,
    st: State<[u8; 32]>,
    cols: Seq<Seq<int>>,
    indices: Seq<int>,
) -> Result<State<[u8; 32]>, Halt<[u8; 32]>>
    decreases indices.len(),
{
    if indices.len() == 0 {
        Ok(st)
    } else {
        match write_columns::<F, H>(mo, st, cols, indices.drop_last()) {
            Err(e) => Err(e),
            Ok(s) => {
                let leaves = merkle::leaves_spec::<F, H>(cols);
                let i = indices.last();
                write_column(
                    mo,
                    s,
                    cols[i],
                    merkle::path_spec::<H>(leaves, (leaves.len() - 1 + i) as nat),
                )
            },
        }
    }
}

/// How many of the variables select a row.
pub open spec fn row_vars(c: CodeView, size: nat) -> nat {
    integer::floor_log2(num_rows(c, size))
}

/// The transcript after the values `evals` are opened at `point`.
pub open spec fn open_evals_spec<F: PrimeField, H: HashFunction>(
    c: CodeView,
    evals: Seq<int>,
    point: Seq<int>,
    mo: Model<[u8; 32]>,
    st: State<[u8; 32]>,
) -> Result<State<[u8; 32]>, Halt<[u8; 32]>> {
    let m = F::modulus();
    let k = row_vars(c, evals.len()) as int;
    match transcript::write_fields(
        mo,
        st,
        modular::reduce_seq(combined_row(c, evals, point.take(k)), m),
    ) {
        Err(e) => Err(e),
        Ok(s) => {
            let (indices, t) = column_indices::<F, [u8; 32]>(
                mo,
                s,
                c.codeword_len(),
                c.num_column_opening,
            );
            match write_columns::<F, H>(mo, t, columns(c, evals, m), indices) {
                Err(e) => Err(e),
                Ok(u) => transcript::write_fields(
                    mo,
                    u,
                    modular::reduce_seq(hypercube::tensor(point.skip(k)), m),
                ),
            }
        },
    }
}

/// The next `n` nodes of the proof.
pub open spec fn read_nodes(mo: Model<[u8; 32]>, st: State<[u8; 32]>, n: nat) -> Result<
    (Seq<MerkleNode>, State<[u8; 32]>),
    Halt<[u8; 32]>,
>
    decreases n,
{
    if n == 0 {
        Ok((Seq::empty(), st))
    } else {
        match read_nodes(mo, st, (n - 1) as nat) {
            Err(e) => Err(e),
            Ok((path, s)) => match transcript::read_chunk(mo, s) {
                Err(e) => Err(e),
                Ok((chunk, t)) => Ok((path.push(MerkleNode(chunk)), t)),
            },
        }
    }
}

/// What the verifier makes of one opened column. Without a root, the path is read but
/// not checked.
pub open spec fn check_column<F: PrimeField, H: HashFunction>(
    mo: Model<[u8; 32]>,
    st: State<[u8; 32]>,
    root: Option<MerkleNode>,
    combined: Seq<int>,
    row_tensor: Seq<int>,
    path_len: nat,
    i: int,
) -> Result<State<[u8; 32]>, Halt<[u8; 32]>> {
    match transcript::read_fields(mo, st, row_tensor.len()) {
        Err(e) => Err(e),
        Ok((column, s)) => match read_nodes(mo, s, path_len) {
            Err(e) => Err(e),
            Ok((path, t)) => if root is Some && merkle::climb::<H>(
                merkle::leaf_spec::<F, H>(column),
                (pow2(path_len) - 1 + i) as nat,
                path,
            ) != root->Some_0 {
                Err(
                    Halt {
                        error: ErrorView::InvalidPcsOpen("Merkle path verification failed"@),
                        state: t,
                    },
                )
            } else if combined[i] != sum::dot(row_tensor, column) % F::modulus() {
                Err(
                    Halt {
                        error: ErrorView::InvalidPcsOpen(
                            if root is Some {
                                "Column consistency check failed"@
                            } else {
                                "Batch column consistency check failed"@
                            },
                        ),
                        state: t,
                    },
                )
            } else {
                Ok(t)
            },
        },
    }
}

/// What the verifier makes of the opened columns `indices`.
pub open spec fn check_columns<F: PrimeField, H: HashFunction>(
    mo: Model<[u8; 32]>,
    st: State<[u8; 32]>,
    root: Option<MerkleNode>,
    combined: Seq<int>,
    row_tensor: Seq<int>,
    path_len: nat,
    indices: Seq<int>,
) -> Result<State<[u8; 32]>, Halt<[u8; 32]>>
    decreases indices.len(),
{
    if indices.len() == 0 {
        Ok(st)
    } else {
        match check_columns::<F, H>(
            mo,
            st,
            root,
            combined,
            row_tensor,
            path_len,
            indices.drop_last(),
        ) {
            Err(e) => Err(e),
            Ok(s) => check_column::<F, H>(
                mo,
                s,
                root,
                combined,
                row_tensor,
                path_len,
                indices.last(),
            ),
        }
    }
}

/// The message for a final vector of the wrong length.
pub open spec fn length_text(got: nat, row_len: nat, num_col_vars: nat) -> Seq<char> {
    "col_tensor length "@ + text::decimal(got) + " != row_len "@ + text::decimal(row_len)
        + " (num_col_vars="@ + text::decimal(num_col_vars) + ")"@
}

/// The message for a final vector that is not the tensor of the point.
pub open spec fn tensor_text(batch: bool) -> Seq<char> {
    if batch {
        "Batch column tensor check failed"@
    } else {
        "Column tensor check failed"@
    }
}

/// The message for a value that is not what was claimed.
pub open spec fn mismatch_text<F: PrimeField>(batch: bool, expected: int, got: int) -> Seq<char> {
    (if batch {
        "Batch evaluation mismatch: expected "@
    } else {
        "Evaluation mismatch: expected "@
    }) + text::element_text(F::repr(expected)) + ", got "@ + text::element_text(F::repr(got))
}

/// What the verifier makes of an opening of `2^num_vars` values at `point`.
pub open spec fn verify_evals_spec<F: PrimeField, H: HashFunction>(
    c: CodeView,
    num_vars: nat,
    root: Option<MerkleNode>,
    point: Seq<int>,
    eval: int,
    mo: Model<[u8; 32]>,
    st: State<[u8; 32]>,
) -> Result<State<[u8; 32]>, Halt<[u8; 32]>> {
    let m = F::modulus();
    let k = row_vars(c, pow2(num_vars)) as int;
    let col_vars = (point.len() - k) as nat;
    match transcript::read_fields(mo, st, c.codeword_len()) {
        Err(e) => Err(e),
        Ok((combined, s)) => {
            let (indices, t) = column_indices::<F, [u8; 32]>(
                mo,
                s,
                c.codeword_len(),
                c.num_column_opening,
            );
            match check_columns::<F, H>(
                mo,
                t,
                root,
                combined,
                modular::reduce_seq(hypercube::tensor(point.take(k)), m),
                integer::ceil_log2(c.codeword_len()),
                indices,
            ) {
                Err(e) => Err(e),
                Ok(u) => match transcript::read_fields(mo, u, pow2(col_vars)) {
                    Err(e) => Err(e),
                    Ok((col_tensor, v)) => {
                        let got = sum::dot(col_tensor, combined.take(c.row_len as int)) % m;
                        if col_tensor.len() != c.row_len {
                            Err(
                                Halt {
                                    error: ErrorView::InvalidPcsOpen(
                                        length_text(col_tensor.len(), c.row_len, col_vars),
                                    ),
                                    state: v,
                                },
                            )
                        } else if col_tensor != modular::reduce_seq(
                            hypercube::tensor(point.skip(k)),
                            m,
                        ) {
                            Err(
                                Halt {
                                    error: ErrorView::InvalidPcsOpen(tensor_text(root is None)),
                                    state: v,
                                },
                            )
                        } else if got != eval {
                            Err(
                                Halt {
                                    error: ErrorView::InvalidPcsOpen(
                                        mismatch_text::<F>(root is None, eval, got),
                                    ),
                                    state: v,
                                },
                            )
                        } else {
                            Ok(v)
                        }
                    },
                },
            }
        },
    }
}

/// The value at `i` of a polynomial, and zero beyond its end.
pub open spec fn entry(p: Seq<int>, i: int) -> int {
    if i < p.len() {
        p[i]
    } else {
        0
    }
}

/// `x` to the power `n`.
pub open spec fn power(x: int, n: nat) -> int
    decreases n,
{
    if n == 0 {
        1
    } else {
        power(x, (n - 1) as nat) * x
    }
}

/// The sum of the polynomials, each times a power of `x`, reduced.
pub open spec fn batched(polys: Seq<Seq<int>>, x: int, m: int) -> Seq<int> {
    Seq::new(
        polys[0].len(),
        |i: int|
            sum::sum_to(|k: int| power(x, k as nat) * entry(polys[k], i), polys.len()) % m,
    )
}

/// The sum of the claimed values, each times a power of `x`, reduced.
pub open spec fn batched_value(evals: Seq<EvaluationView>, x: int, m: int) -> int {
    sum::sum_to(|k: int| power(x, k as nat) * evals[k].value, evals.len()) % m
}

/// The columns of a list of machine integers.
pub open spec fn indices_vals(s: Seq<usize>) -> Seq<int> {
    s.map_values(|x: usize| x as int)
}

/// The integer that the first eight bytes of an encoding spell.
fn low_bytes(repr: &[u8; 32]) -> (r: u64)
    ensures
        r == field::le_value(repr@.take(8)),
{
    let ghost low = repr@.take(8);
    let mut r: u64 = 0;
    let mut i: usize = 8;
    assert(low.skip(8) =~= Seq::empty());
    assert(field::pow256(8) == 0x1_0000_0000_0000_0000int) by {
        reveal_with_fuel(field::pow256, 9);
    }
    while i > 0
        invariant
            i <= 8,
            low == repr@.take(8),
            field::pow256(8) == 0x1_0000_0000_0000_0000int,
            r == field::le_value(low.skip(i as int)),
        decreases i,
    {
        i = i - 1;
        let b = repr[i];
        proof {
            let rest = low.skip(i as int);
            assert(rest.drop_first() =~= low.skip(i + 1));
            assert(rest[0] == b);
            field::lemma_le_value_bounds(rest);
            lemma_pow256_monotone(rest.len(), 8);
            assert(field::le_value(rest) == b as int + 256 * r);
        }
        r = b as u64 + 256 * r;
    }
    assert(low.skip(0) =~= low);
    r
}

/// Powers of 256 grow with the exponent.
proof fn lemma_pow256_monotone(a: nat, b: nat)
    requires
        a <= b,
    ensures
        0 < field::pow256(a) <= field::pow256(b),
    decreases b,
{
    if a < b {
        lemma_pow256_monotone(a, (b - 1) as nat);
    } else if a > 0 {
        lemma_pow256_monotone((a - 1) as nat, (a - 1) as nat);
    }
}

/// Draws the columns to open, in increasing order. If the challenges never pick enough of
/// them, it gives up where they only repeat.
pub fn get_column_indices<C, F: PrimeField, T: Transcript<C, F>>(
    transcript: &mut T,
    num_cols: usize,
    num_openings: usize,
) -> (r: Vec<usize>)
    ensures
        (indices_vals(r@), final(transcript).state()) == column_indices::<F, C>(
            T::model(),
            old(transcript).state(),
            num_cols as nat,
            num_openings as nat,
        ),
        ordered::increasing(indices_vals(r@)),
        forall|i: int| 0 <= i < r@.len() ==> (#[trigger] r@[i]) < num_cols,
{
    let want = if num_openings < num_cols {
        num_openings
    } else {
        num_cols
    };
    let ghost mo = T::model();
    let ghost st = transcript.state();
    let ghost cols = num_cols as nat;
    let mut set = ordered::no_entries();
    let ghost mut n: nat = 0;
    let mut left = Countdown::new();
    proof {
        T::challenges_repeat();
        assert(transcript::num_digests()
            == 0x1_0000000000000000_0000000000000000_0000000000000000_0000000000000000int) by {
            reveal_with_fuel(field::pow256, 33);
        }
    }
    while ordered::num_entries(&set) < want && !left.is_over()
        invariant
            mo == T::model(),
            cols == num_cols,
            want <= num_cols,
            num_cols == 0 ==> n == 0,
            transcript.state() == transcript::squeeze_many(mo, st, n).1,
            ordered::lists(columns_after::<F, C>(mo, st, cols, n), set@),
            left.value() + n == transcript::num_digests(),
            forall|j: nat| j < n ==> !(#[trigger] enough::<F, C>(mo, st, cols, want as nat, j)),
        decreases left.value(),
    {
        let challenge = transcript.squeeze_challenge();
        let repr = challenge.to_repr();
        let idx = low_bytes(&repr) % (num_cols as u64);
        ordered::add_entry(&mut set, idx as i128);
        left.step();
        proof {
            assert(!enough::<F, C>(mo, st, cols, want as nat, n));
            n = n + 1;
        }
    }
    let ghost listed = columns_after::<F, C>(mo, st, cols, n);
    proof {
        if num_cols > 0 {
            lemma_columns_after::<F, C>(mo, st, cols, n);
        }
        if listed.len() >= want {
            lemma_num_draws::<F, C>(mo, st, cols, want as nat, n);
        } else {
            assert forall|j: nat| !(#[trigger] enough::<F, C>(mo, st, cols, want as nat, j)) by {
                lemma_no_more_columns::<F, C>(mo, st, cols, j);
            }
        }
    }
    let found = ordered::entries(&set);
    assert forall|i: int| 0 <= i < found@.len() implies 0 <= (#[trigger] found@[i]) < num_cols by {
        assert(ordered::ints(found@)[i] == found@[i]);
        assert(0 <= listed[i] < num_cols);
    }
    let mut r: Vec<usize> = Vec::new();
    let mut i: usize = 0;
    while i < found.len()
        invariant
            i <= found.len(),
            r@.len() == i,
            forall|j: int| 0 <= j < found@.len() ==> 0 <= (#[trigger] found@[j]) < num_cols,
            forall|j: int| 0 <= j < i ==> (#[trigger] r@[j]) == found@[j],
        decreases found.len() - i,
    {
        assert(0 <= found@[i as int] < num_cols);
        r.push(found[i] as usize);
        i = i + 1;
    }
    assert(indices_vals(r@) =~= ordered::ints(found@));
    r
}

/// The entries of the matrix lie within its values.
proof fn lemma_entry_in_range(row_len: nat, n: nat, size: nat, i: int, j: int)
    requires
        row_len > 0,
        n == size / row_len,
        0 <= i < n,
        0 <= j < row_len,
    ensures
        0 <= j * n <= j * n + i < size,
{
    lemma_fundamental_div_mod(size as int, row_len as int);
    assert(0 <= j * n && j * n + n <= row_len * n) by (nonlinear_arith)
        requires
            0 <= j < row_len,
            n >= 0,
    ;
}

/// The columns of the encoded matrix.
fn encode_columns<F: PrimeField>(code: &BrakedownCode<F>, evals: &[F]) -> (r: Vec<Vec<F>>)
    ensures
        merkle::columns_vals(r@) == columns(code@, field::vals(evals@), F::modulus()),
{
    let ghost m = F::modulus();
    let ghost c = code@;
    let ghost v = field::vals(evals@);
    let row_len = code.row_len();
    let codeword_len = code.codeword_len();
    let size = evals.len();
    let n = size / row_len;
    let mut encoded: Vec<Vec<F>> = Vec::new();
    let mut i: usize = 0;
    while i < n
        invariant
            i <= n,
            size == evals@.len(),
            n == evals@.len() / c.row_len,
            c == code@,
            c.wf(),
            row_len == c.row_len,
            codeword_len == c.codeword_len(),
            m == F::modulus(),
            v == field::vals(evals@),
            encoded@.len() == i,
            forall|t: int|
                0 <= t < i ==> field::represents(#[trigger] encoded@[t]@, codewords(c, v)[t]),
        decreases n - i,
    {
        let mut codeword: Vec<F> = Vec::new();
        let mut j: usize = 0;
        while j < row_len
            invariant
                i < n,
                j <= row_len,
                size == evals@.len(),
                n == evals@.len() / c.row_len,
                c == code@,
                c.wf(),
                row_len == c.row_len,
                v == field::vals(evals@),
                codeword@.len() == j,
                forall|t: int| 0 <= t < j ==> (#[trigger] codeword@[t]).val() == row(c, v, i as int)[t],
            decreases row_len - j,
        {
            proof {
                lemma_entry_in_range(c.row_len, n as nat, evals@.len(), i as int, j as int);
            }
            codeword.push(evals[j * n + i]);
            j = j + 1;
        }
        while j < codeword_len
            invariant
                row_len <= j <= codeword_len,
                codeword@.len() == j,
                row_len == c.row_len,
                forall|t: int|
                    0 <= t < row_len ==> (#[trigger] codeword@[t]).val() == row(c, v, i as int)[t],
            decreases codeword_len - j,
        {
            codeword.push(F::zero());
            j = j + 1;
        }
        assert(field::vals(codeword@).take(row_len as int) =~= row(c, v, i as int));
        code.encode(&mut codeword);
        encoded.push(codeword);
        i = i + 1;
    }
    let mut cols: Vec<Vec<F>> = Vec::new();
    let mut j: usize = 0;
    while j < codeword_len
        invariant
            j <= codeword_len,
            size == evals@.len(),
            n == evals@.len() / c.row_len,
            c.wf(),
            codeword_len == c.codeword_len(),
            m == F::modulus(),
            v == field::vals(evals@),
            encoded@.len() == n,
            forall|t: int|
                0 <= t < n ==> field::represents(#[trigger] encoded@[t]@, codewords(c, v)[t]),
            cols@.len() == j,
            forall|t: int| 0 <= t < j ==> field::vals(#[trigger] cols@[t]@) == columns(c, v, m)[t],
        decreases codeword_len - j,
    {
        let mut column: Vec<F> = Vec::new();
        let mut i: usize = 0;
        while i < n
            invariant
                i <= n,
                j < codeword_len,
                size == evals@.len(),
                n == evals@.len() / c.row_len,
                c.wf(),
                codeword_len == c.codeword_len(),
                m == F::modulus(),
                v == field::vals(evals@),
                encoded@.len() == n,
                forall|t: int|
                    0 <= t < n ==> field::represents(#[trigger] encoded@[t]@, codewords(c, v)[t]),
                column@.len() == i,
                forall|t: int|
                    0 <= t < i ==> (#[trigger] column@[t]).val() == columns(c, v, m)[j as int][t],
            decreases n - i,
        {
            proof {
                assert(field::represents(encoded@[i as int]@, codewords(c, v)[i as int]));
                code::law_code_is_systematic(c, row(c, v, i as int), c.parity.len());
            }
            let value = encoded[i][j];
            assert(encoded@[i as int]@[j as int].val() == codewords(c, v)[i as int][j as int] % m);
            column.push(value);
            i = i + 1;
        }
        assert(field::vals(column@) =~= columns(c, v, m)[j as int]);
        cols.push(column);
        j = j + 1;
    }
    assert(merkle::columns_vals(cols@) =~= columns(c, v, m));
    cols
}

/// `eq(x, point)` for all `x` on the hypercube.
fn tensor_of<F: PrimeField>(point: &[F]) -> (r: Vec<F>)
    requires
        pow2(point@.len()) <= usize::MAX,
    ensures
        field::vals(r@) == modular::reduce_seq(hypercube::tensor(field::vals(point@)), F::modulus()),
{
    let r = multilinear::compute_tensor_product(point);
    assert(field::vals(r@) =~= modular::reduce_seq(hypercube::tensor(field::vals(point@)), F::modulus()));
    r
}

/// The codeword of the combination of the rows with the factors `row_tensor`.
fn combine_rows<F: PrimeField>(
    code: &BrakedownCode<F>,
    evals: &[F],
    row_tensor: &Vec<F>,
    Ghost(row_point): Ghost<Seq<int>>,
) -> (r: Vec<F>)
    requires
        num_rows(code@, evals@.len()) == pow2(row_point.len()),
        field::vals(row_tensor@) == modular::reduce_seq(hypercube::tensor(row_point), F::modulus()),
    ensures
        field::vals(r@) == modular::reduce_seq(
            combined_row(code@, field::vals(evals@), row_point),
            F::modulus(),
        ),
{
    let ghost m = F::modulus();
    let ghost c = code@;
    let ghost v = field::vals(evals@);
    let ghost t = hypercube::tensor(row_point);
    let ghost all = code::linear_combination(t, rows(c, v), c.row_len);
    let row_len = code.row_len();
    let codeword_len = code.codeword_len();
    let size = evals.len();
    let n = size / row_len;
    proof {
        F::modulus_is_odd();
        assert(row_tensor@.len() == field::vals(row_tensor@).len());
    }
    let mut combined: Vec<F> = Vec::new();
    let mut j: usize = 0;
    while j < row_len
        invariant
            j <= row_len,
            size == evals@.len(),
            n == evals@.len() / c.row_len,
            n == row_tensor@.len(),
            n == t.len(),
            c.wf(),
            row_len == c.row_len,
            m == F::modulus(),
            m > 2,
            v == field::vals(evals@),
            field::vals(row_tensor@) == modular::reduce_seq(t, m),
            all == code::linear_combination(t, rows(c, v), c.row_len),
            combined@.len() == j,
            forall|x: int| 0 <= x < j ==> (#[trigger] combined@[x]).val() == all[x] % m,
        decreases row_len - j,
    {
        let ghost f = |i: int| t[i] * rows(c, v)[i][j as int];
        let mut acc = F::zero();
        let mut i: usize = 0;
        proof {
            modular::lemma_small(0, m);
        }
        while i < n
            invariant
                i <= n,
                j < row_len,
                size == evals@.len(),
                n == evals@.len() / c.row_len,
                n == row_tensor@.len(),
                n == t.len(),
                c.wf(),
                row_len == c.row_len,
                m == F::modulus(),
                m > 2,
                v == field::vals(evals@),
                field::vals(row_tensor@) == modular::reduce_seq(t, m),
                f == (|i: int| t[i] * rows(c, v)[i][j as int]),
                acc.val() == sum::sum_to(f, i as nat) % m,
            decreases n - i,
        {
            proof {
                lemma_entry_in_range(c.row_len, n as nat, evals@.len(), i as int, j as int);
                assert(field::vals(row_tensor@)[i as int] == row_tensor@[i as int].val());
                lemma_mul_mod_noop_left(t[i as int], evals@[j * n + i].val(), m);
                lemma_add_mod_noop(sum::sum_to(f, i as nat), f(i as int), m);
            }
            let x = row_tensor[i].mul(evals[j * n + i]);
            acc = acc.add(x);
            i = i + 1;
        }
        combined.push(acc);
        j = j + 1;
    }
    let ghost head = combined@;
    while j < codeword_len
        invariant
            row_len <= j <= codeword_len,
            combined@.len() == j,
            row_len == c.row_len,
            head.len() == row_len,
            combined@.take(row_len as int) == head,
        decreases codeword_len - j,
    {
        let ghost before = combined@;
        combined.push(F::zero());
        assert(combined@.take(row_len as int) =~= before.take(row_len as int));
        j = j + 1;
    }
    let ghost msg = field::vals(combined@).take(c.row_len as int);
    proof {
        assert(msg =~= field::vals(head));
        assert forall|x: int| 0 <= x < msg.len() implies modular::cong(#[trigger] msg[x], all[x], m) by {
            assert(head[x].val() == all[x] % m);
            modular::lemma_cong_reduced(all[x], m);
        }
        code::lemma_symbols_cong(c, msg, all, c.parity.len(), m);
    }
    code.encode(&mut combined);
    proof {
        multilinear::lemma_represents_trans(combined@, c.encode(msg), c.encode(all));
        assert(field::vals(combined@) =~= modular::reduce_seq(combined_row(c, v, row_point), m));
    }
    combined
}

/// An error while writing some nodes stops the whole.
proof fn lemma_write_nodes_prefix(
    mo: Model<[u8; 32]>,
    st: State<[u8; 32]>,
    path: Seq<MerkleNode>,
    k: int,
)
    requires
        0 <= k <= path.len(),
        write_nodes(mo, st, path.take(k)) is Err,
    ensures
        write_nodes(mo, st, path) == write_nodes(mo, st, path.take(k)),
    decreases path.len() - k,
{
    if k == path.len() {
        assert(path.take(k) =~= path);
    } else {
        assert(path.take(k + 1).drop_last() =~= path.take(k));
        lemma_write_nodes_prefix(mo, st, path, k + 1);
    }
}

/// Writes the nodes of a path.
fn write_path<F: PrimeField, T: TranscriptWrite<[u8; 32], F>>(
    path: &[MerkleNode],
    transcript: &mut T,
) -> (r: Result<(), Error>)
    ensures
        transcript::moved_to(
            r,
            final(transcript).state(),
            write_nodes(T::model(), old(transcript).state(), path@),
        ),
{
    let ghost st = transcript.state();
    let mut i: usize = 0;
    assert(path@.take(0) =~= Seq::empty());
    while i < path.len()
        invariant
            i <= path.len(),
            st == old(transcript).state(),
            write_nodes(T::model(), st, path@.take(i as int)) == Ok::<State<[u8; 32]>, Halt<[u8; 32]>>(
                transcript.state(),
            ),
        decreases path.len() - i,
    {
        assert(path@.take(i + 1).drop_last() =~= path@.take(i as int));
        match transcript.write_commitment(&path[i].0) {
            Err(e) => {
                proof {
                    lemma_write_nodes_prefix(T::model(), st, path@, i + 1);
                }
                return Err(e);
            },
            Ok(()) => {},
        }
        i = i + 1;
    }
    assert(path@.take(path@.len() as int) =~= path@);
    Ok(())
}

/// An error while writing some columns stops the whole.
proof fn lemma_write_columns_prefix<F: PrimeField, H: HashFunction>(
    mo: Model<[u8; 32]>,
    st: State<[u8; 32]>,
    cols: Seq<Seq<int>>,
    indices: Seq<int>,
    k: int,
)
    requires
        0 <= k <= indices.len(),
        write_columns::<F, H>(mo, st, cols, indices.take(k)) is Err,
    ensures
        write_columns::<F, H>(mo, st, cols, indices) == write_columns::<F, H>(
            mo,
            st,
            cols,
            indices.take(k),
        ),
    decreases indices.len() - k,
{
    if k == indices.len() {
        assert(indices.take(k) =~= indices);
    } else {
        assert(indices.take(k + 1).drop_last() =~= indices.take(k));
        lemma_write_columns_prefix::<F, H>(mo, st, cols, indices, k + 1);
    }
}

/// Writes the columns `indices`, each with its path.
fn write_openings<F: PrimeField, H: HashFunction, T: TranscriptWrite<[u8; 32], F>>(
    cols: &Vec<Vec<F>>,
    tree: &MerkleTree<H>,
    indices: &Vec<usize>,
    transcript: &mut T,
) -> (r: Result<(), Error>)
    requires
        tree.leaves() == merkle::leaves_spec::<F, H>(merkle::columns_vals(cols@)),
        forall|i: int| 0 <= i < indices@.len() ==> (#[trigger] indices@[i]) < cols@.len(),
    ensures
        transcript::moved_to(
            r,
            final(transcript).state(),
            write_columns::<F, H>(
                T::model(),
                old(transcript).state(),
                merkle::columns_vals(cols@),
                indices_vals(indices@),
            ),
        ),
{
    let ghost mo = T::model();
    let ghost st = transcript.state();
    let ghost cv = merkle::columns_vals(cols@);
    let ghost iv = indices_vals(indices@);
    let mut i: usize = 0;
    proof {
        integer::lemma_ceil_log2(cv.len());
    }
    assert(iv.take(0) =~= Seq::empty());
    while i < indices.len()
        invariant
            i <= indices.len(),
            mo == T::model(),
            st == old(transcript).state(),
            cv == merkle::columns_vals(cols@),
            iv == indices_vals(indices@),
            tree.leaves() == merkle::leaves_spec::<F, H>(cv),
            cv.len() <= tree.leaves().len(),
            forall|i: int| 0 <= i < indices@.len() ==> (#[trigger] indices@[i]) < cols@.len(),
            write_columns::<F, H>(mo, st, cv, iv.take(i as int)) == Ok::<
                State<[u8; 32]>,
                Halt<[u8; 32]>,
            >(transcript.state()),
        decreases indices.len() - i,
    {
        assert(iv.take(i + 1).drop_last() =~= iv.take(i as int));
        let idx = indices[i];
        assert(indices@[i as int] < cols@.len());
        let column = &cols[idx];
        let auth_path = tree.auth_path(idx);
        match transcript::write_field_elements(transcript, column) {
            Err(e) => {
                proof {
                    lemma_write_columns_prefix::<F, H>(mo, st, cv, iv, i + 1);
                }
                return Err(e);
            },
            Ok(()) => {},
        }
        match write_path::<F, T>(&auth_path, transcript) {
            Err(e) => {
                proof {
                    lemma_write_columns_prefix::<F, H>(mo, st, cv, iv, i + 1);
                }
                return Err(e);
            },
            Ok(()) => {},
        }
        i = i + 1;
    }
    assert(iv.take(iv.len() as int) =~= iv);
    Ok(())
}

/// The code's matrices and trees fit into memory.
pub open spec fn fits(c: CodeView) -> bool {
    2 * pow2(integer::ceil_log2(c.codeword_len())) - 1 <= usize::MAX
}

/// `size` values can be opened at points with `num_vars` coordinates: the variables
/// split evenly into those that select a row and those that select a column.
pub open spec fn can_open_evals(c: CodeView, size: nat, num_vars: nat) -> bool {
    &&& fits(c)
    &&& integer::is_pow2(num_rows(c, size) as int)
    &&& row_vars(c, size) <= num_vars
    &&& pow2((num_vars - row_vars(c, size)) as nat) == c.row_len
}

/// The number of rows is a power of the number of variables that select one.
proof fn lemma_row_vars(c: CodeView, size: nat)
    requires
        integer::is_pow2(num_rows(c, size) as int),
    ensures
        pow2(row_vars(c, size)) == num_rows(c, size),
{
    let k = choose|k: nat| #[trigger] pow2(k) == num_rows(c, size) as int;
    integer::lemma_log2_of_pow2(k);
}

/// Writes the opening of `evals` at `point`.
fn open_evals<F: PrimeField, H: HashFunction, T: TranscriptWrite<[u8; 32], F>>(
    code: &BrakedownCode<F>,
    evals: &Vec<F>,
    point: &Vec<F>,
    transcript: &mut T,
) -> (r: Result<(), Error>)
    requires
        can_open_evals(code@, evals@.len(), point@.len()),
    ensures
        transcript::moved_to(
            r,
            final(transcript).state(),
            open_evals_spec::<F, H>(
                code@,
                field::vals(evals@),
                field::vals(point@),
                T::model(),
                old(transcript).state(),
            ),
        ),
{
    let ghost m = F::modulus();
    let ghost c = code@;
    let ghost v = field::vals(evals@);
    let ghost p = field::vals(point@);
    let row_len = code.row_len();
    let codeword_len = code.codeword_len();
    let size = evals.len();
    let n = size / row_len;
    let cols = encode_columns(code, evals);
    assert(cols@.len() == merkle::columns_vals(cols@).len());
    let tree = MerkleTree::<H>::new(&cols);
    let num_row_vars = integer::floor_log2_usize(n);
    let (row_point, col_point) = point.as_slice().split_at(num_row_vars);
    proof {
        lemma_row_vars(c, v.len());
        lemma_div_is_ordered_by_denominator(size as int, 1, row_len as int);
        assert(size as int / 1 == size);
        assert(field::vals(row_point@) =~= p.take(num_row_vars as int));
        assert(field::vals(col_point@) =~= p.skip(num_row_vars as int));
    }
    let row_tensor = tensor_of(row_point);
    let combined = combine_rows(code, evals, &row_tensor, Ghost(p.take(num_row_vars as int)));
    match transcript::write_field_elements(transcript, &combined) {
        Err(e) => {
            return Err(e);
        },
        Ok(()) => {},
    }
    let indices = get_column_indices::<[u8; 32], F, T>(
        transcript,
        codeword_len,
        code.num_column_opening(),
    );
    match write_openings::<F, H, T>(&cols, &tree, &indices, transcript) {
        Err(e) => {
            return Err(e);
        },
        Ok(()) => {},
    }
    let col_tensor = tensor_of(col_point);
    transcript::write_field_elements(transcript, &col_tensor)
}

/// As many nodes are read as were asked for, or an early error stops the whole.
proof fn lemma_read_nodes(mo: Model<[u8; 32]>, st: State<[u8; 32]>, k: nat, n: nat)
    requires
        k <= n,
    ensures
        read_nodes(mo, st, k) is Err ==> read_nodes(mo, st, n) == read_nodes(mo, st, k),
        read_nodes(mo, st, n) matches Ok((path, s)) ==> path.len() == n,
    decreases n,
{
    if k < n {
        lemma_read_nodes(mo, st, k, (n - 1) as nat);
    } else if n > 0 {
        lemma_read_nodes(mo, st, (n - 1) as nat, (n - 1) as nat);
    }
}

/// Reads the nodes of a path.
fn read_path<F: PrimeField, T: TranscriptRead<[u8; 32], F>>(n: usize, transcript: &mut T) -> (r:
    Result<Vec<MerkleNode>, Error>)
    ensures
        pcs::yields_list(
            r,
            final(transcript).state(),
            read_nodes(T::model(), old(transcript).state(), n as nat),
        ),
{
    let ghost st = transcript.state();
    let mut path: Vec<MerkleNode> = Vec::new();
    let mut i: usize = 0;
    assert(path@ =~= Seq::empty());
    while i < n
        invariant
            i <= n,
            st == old(transcript).state(),
            read_nodes(T::model(), st, i as nat) == Ok::<
                (Seq<MerkleNode>, State<[u8; 32]>),
                Halt<[u8; 32]>,
            >((path@, transcript.state())),
        decreases n - i,
    {
        match transcript.read_commitment() {
            Err(e) => {
                proof {
                    lemma_read_nodes(T::model(), st, (i + 1) as nat, n as nat);
                }
                return Err(e);
            },
            Ok(bytes) => {
                path.push(MerkleNode(bytes));
            },
        }
        i = i + 1;
    }
    Ok(path)
}

/// An error in an early column stops the whole.
proof fn lemma_check_columns_prefix<F: PrimeField, H: HashFunction>(
    mo: Model<[u8; 32]>,
    st: State<[u8; 32]>,
    root: Option<MerkleNode>,
    combined: Seq<int>,
    row_tensor: Seq<int>,
    path_len: nat,
    indices: Seq<int>,
    k: int,
)
    requires
        0 <= k <= indices.len(),
        check_columns::<F, H>(mo, st, root, combined, row_tensor, path_len, indices.take(k)) is Err,
    ensures
        check_columns::<F, H>(mo, st, root, combined, row_tensor, path_len, indices)
            == check_columns::<F, H>(mo, st, root, combined, row_tensor, path_len, indices.take(k)),
    decreases indices.len() - k,
{
    if k == indices.len() {
        assert(indices.take(k) =~= indices);
    } else {
        assert(indices.take(k + 1).drop_last() =~= indices.take(k));
        lemma_check_columns_prefix::<F, H>(
            mo,
            st,
            root,
            combined,
            row_tensor,
            path_len,
            indices,
            k + 1,
        );
    }
}

/// Reads and checks one opened column.
fn verify_column<F: PrimeField, H: HashFunction, T: TranscriptRead<[u8; 32], F>>(
    root: Option<MerkleNode>,
    combined: &Vec<F>,
    row_tensor: &Vec<F>,
    path_len: usize,
    idx: usize,
    transcript: &mut T,
) -> (r: Result<(), Error>)
    requires
        idx < combined@.len(),
        idx < pow2(path_len as nat),
        2 * pow2(path_len as nat) - 1 <= usize::MAX,
    ensures
        transcript::moved_to(
            r,
            final(transcript).state(),
            check_column::<F, H>(
                T::model(),
                old(transcript).state(),
                root,
                field::vals(combined@),
                field::vals(row_tensor@),
                path_len as nat,
                idx as int,
            ),
        ),
{
    let n = row_tensor.len();
    let ghost mo = T::model();
    proof {
        transcript::lemma_read_fields_len(mo, transcript.state(), n as nat);
        power2::lemma_pow2_pos(path_len as nat);
        merkle::lemma_leaf_depth(path_len as nat, idx as nat);
        assert(field::vals(row_tensor@).len() == n);
    }
    let column = match transcript::read_field_elements::<[u8; 32], F, T>(transcript, n) {
        Err(e) => {
            return Err(e);
        },
        Ok(column) => column,
    };
    assert(column@.len() == field::vals(column@).len());
    proof {
        lemma_read_nodes(mo, transcript.state(), path_len as nat, path_len as nat);
    }
    let auth_path = match read_path::<F, T>(path_len, transcript) {
        Err(e) => {
            return Err(e);
        },
        Ok(path) => path,
    };
    if let Some(node) = root {
        let num_leaves = integer::pow2_usize(path_len);
        if !MerkleTree::<H>::verify_path(&node, idx, &column, &auth_path, num_leaves) {
            return Err(Error::InvalidPcsOpen("Merkle path verification failed".to_string()));
        }
    }
    let expected = field::inner_product(row_tensor, &column);
    assert(field::vals(combined@)[idx as int] == combined@[idx as int].val());
    if !combined[idx].equals(expected) {
        return Err(
            Error::InvalidPcsOpen(
                if root.is_some() {
                    "Column consistency check failed".to_string()
                } else {
                    "Batch column consistency check failed".to_string()
                },
            ),
        );
    }
    Ok(())
}

/// Reads and checks the opened columns.
fn verify_columns<F: PrimeField, H: HashFunction, T: TranscriptRead<[u8; 32], F>>(
    root: Option<MerkleNode>,
    combined: &Vec<F>,
    row_tensor: &Vec<F>,
    path_len: usize,
    indices: &Vec<usize>,
    transcript: &mut T,
) -> (r: Result<(), Error>)
    requires
        forall|i: int| 0 <= i < indices@.len() ==> (#[trigger] indices@[i]) < combined@.len(),
        combined@.len() <= pow2(path_len as nat),
        2 * pow2(path_len as nat) - 1 <= usize::MAX,
    ensures
        transcript::moved_to(
            r,
            final(transcript).state(),
            check_columns::<F, H>(
                T::model(),
                old(transcript).state(),
                root,
                field::vals(combined@),
                field::vals(row_tensor@),
                path_len as nat,
                indices_vals(indices@),
            ),
        ),
{
    let ghost mo = T::model();
    let ghost st = transcript.state();
    let ghost cv = field::vals(combined@);
    let ghost tv = field::vals(row_tensor@);
    let ghost iv = indices_vals(indices@);
    let mut i: usize = 0;
    assert(iv.take(0) =~= Seq::empty());
    while i < indices.len()
        invariant
            i <= indices.len(),
            mo == T::model(),
            st == old(transcript).state(),
            cv == field::vals(combined@),
            tv == field::vals(row_tensor@),
            iv == indices_vals(indices@),
            forall|i: int| 0 <= i < indices@.len() ==> (#[trigger] indices@[i]) < combined@.len(),
            combined@.len() <= pow2(path_len as nat),
            2 * pow2(path_len as nat) - 1 <= usize::MAX,
            check_columns::<F, H>(mo, st, root, cv, tv, path_len as nat, iv.take(i as int)) == Ok::<
                State<[u8; 32]>,
                Halt<[u8; 32]>,
            >(transcript.state()),
        decreases indices.len() - i,
    {
        assert(iv.take(i + 1).drop_last() =~= iv.take(i as int));
        assert(indices@[i as int] < combined@.len());
        match verify_column::<F, H, T>(root, combined, row_tensor, path_len, indices[i], transcript) {
            Err(e) => {
                proof {
                    lemma_check_columns_prefix::<F, H>(
                        mo,
                        st,
                        root,
                        cv,
                        tv,
                        path_len as nat,
                        iv,
                        i + 1,
                    );
                }
                return Err(e);
            },
            Ok(()) => {},
        }
        i = i + 1;
    }
    assert(iv.take(iv.len() as int) =~= iv);
    Ok(())
}

/// The message for a final vector of the wrong length.
fn length_message(got: usize, row_len: usize, num_col_vars: usize) -> (r: String)
    ensures
        r@ == length_text(got as nat, row_len as nat, num_col_vars as nat),
{
    let mut s = text::with_number("col_tensor length ", got, " != row_len ");
    text::append_number(&mut s, row_len, " (num_col_vars=");
    text::append_number(&mut s, num_col_vars, ")");
    assert(s@ =~= length_text(got as nat, row_len as nat, num_col_vars as nat));
    s
}

/// The message for a value that is not what was claimed.
fn mismatch_message<F: PrimeField>(batch: bool, expected: F, got: F) -> (r: String)
    ensures
        r@ == mismatch_text::<F>(batch, expected.val(), got.val()),
{
    let mut s = if batch {
        "Batch evaluation mismatch: expected ".to_string()
    } else {
        "Evaluation mismatch: expected ".to_string()
    };
    s.append(expected.debug_string().as_str());
    s.append(", got ");
    s.append(got.debug_string().as_str());
    assert(s@ =~= mismatch_text::<F>(batch, expected.val(), got.val()));
    s
}

/// Openings of `2^num_vars` values at points with `point_len` coordinates can be verified.
pub open spec fn can_verify_evals(c: CodeView, num_vars: nat, point_len: nat) -> bool {
    &&& fits(c)
    &&& pow2(num_vars) <= usize::MAX
    &&& integer::is_pow2(num_rows(c, pow2(num_vars)) as int)
    &&& row_vars(c, pow2(num_vars)) <= point_len
    &&& pow2((point_len - row_vars(c, pow2(num_vars))) as nat) <= usize::MAX
}

/// Reads and checks an opening of `2^num_vars` values at `point`.
fn verify_evals<F: PrimeField, H: HashFunction, T: TranscriptRead<[u8; 32], F>>(
    code: &BrakedownCode<F>,
    num_vars: usize,
    root: Option<MerkleNode>,
    point: &Vec<F>,
    eval: F,
    transcript: &mut T,
) -> (r: Result<(), Error>)
    requires
        can_verify_evals(code@, num_vars as nat, point@.len()),
    ensures
        transcript::moved_to(
            r,
            final(transcript).state(),
            verify_evals_spec::<F, H>(
                code@,
                num_vars as nat,
                root,
                field::vals(point@),
                eval.val(),
                T::model(),
                old(transcript).state(),
            ),
        ),
{
    let ghost c = code@;
    let ghost p = field::vals(point@);
    let ghost mo = T::model();
    let row_len = code.row_len();
    let codeword_len = code.codeword_len();
    let poly_size = integer::pow2_usize(num_vars);
    let n = poly_size / row_len;
    proof {
        transcript::lemma_read_fields_len(mo, transcript.state(), codeword_len as nat);
    }
    let combined = match transcript::read_field_elements::<[u8; 32], F, T>(transcript, codeword_len) {
        Err(e) => {
            return Err(e);
        },
        Ok(combined) => combined,
    };
    let ghost cv = field::vals(combined@);
    assert(combined@.len() == cv.len());
    let indices = get_column_indices::<[u8; 32], F, T>(
        transcript,
        codeword_len,
        code.num_column_opening(),
    );
    let num_row_vars = integer::floor_log2_usize(n);
    let num_col_vars = point.len() - num_row_vars;
    let (row_point, col_point) = point.as_slice().split_at(num_row_vars);
    proof {
        lemma_row_vars(c, poly_size as nat);
        lemma_div_is_ordered_by_denominator(poly_size as int, 1, row_len as int);
        assert(poly_size as int / 1 == poly_size);
        assert(field::vals(row_point@) =~= p.take(num_row_vars as int));
        assert(field::vals(col_point@) =~= p.skip(num_row_vars as int));
        integer::lemma_ceil_log2(codeword_len as nat);
    }
    let row_tensor = tensor_of(row_point);
    let path_len = integer::ceil_log2_usize(codeword_len);
    match verify_columns::<F, H, T>(root, &combined, &row_tensor, path_len, &indices, transcript) {
        Err(e) => {
            return Err(e);
        },
        Ok(()) => {},
    }
    let tensor_len = integer::pow2_usize(num_col_vars);
    proof {
        transcript::lemma_read_fields_len(mo, transcript.state(), tensor_len as nat);
    }
    let col_tensor = match transcript::read_field_elements::<[u8; 32], F, T>(transcript, tensor_len) {
        Err(e) => {
            return Err(e);
        },
        Ok(col_tensor) => col_tensor,
    };
    assert(col_tensor@.len() == field::vals(col_tensor@).len());
    if col_tensor.len() != row_len {
        return Err(
            Error::InvalidPcsOpen(length_message(col_tensor.len(), row_len, num_col_vars)),
        );
    }
    if !field::same_elements(&col_tensor, &tensor_of(col_point)) {
        return Err(
            Error::InvalidPcsOpen(
                if root.is_none() {
                    "Batch column tensor check failed".to_string()
                } else {
                    "Column tensor check failed".to_string()
                },
            ),
        );
    }
    let (head, _parity) = combined.as_slice().split_at(row_len);
    assert(field::vals(head@) =~= cv.take(c.row_len as int));
    let computed_eval = field::inner_product(&col_tensor, head);
    if !computed_eval.equals(eval) {
        return Err(
            Error::InvalidPcsOpen(mismatch_message(root.is_none(), eval, computed_eval)),
        );
    }
    Ok(())
}

/// The message for a polynomial that does not fill whole rows.
pub open spec fn size_text(size: nat, row_len: nat) -> Seq<char> {
    "Polynomial size "@ + text::decimal(size) + " doesn't match code parameters (row_len="@
        + text::decimal(row_len) + ", expected multiple)"@
}

/// The message for parameters that are too small.
pub open spec fn too_small_text(num_vars: nat, supported: nat) -> Seq<char> {
    "Requested "@ + text::decimal(num_vars) + " vars but param only supports "@ + text::decimal(
        supported,
    ) + ""@
}

/// What committing to the values `evals` comes to.
pub open spec fn commit_evals_spec<F: PrimeField, H: HashFunction>(c: CodeView, evals: Seq<int>) -> Result<
    BrakedownCommitment,
    ErrorView,
> {
    let n = num_rows(c, evals.len());
    if evals.len() != c.row_len * n {
        Err(ErrorView::InvalidPcsParam(size_text(evals.len(), c.row_len)))
    } else {
        Ok(
            BrakedownCommitment {
                root: merkle::node_at::<H>(
                    merkle::leaves_spec::<F, H>(columns(c, evals, F::modulus())),
                    0,
                ),
                num_rows: n as usize,
                num_cols: c.codeword_len() as usize,
            },
        )
    }
}

/// The commitments read off a proof, of which only the roots are known.
pub open spec fn read_roots(mo: Model<[u8; 32]>, st: State<[u8; 32]>, n: nat) -> Result<
    (Seq<BrakedownCommitment>, State<[u8; 32]>),
    Halt<[u8; 32]>,
>
    decreases n,
{
    if n == 0 {
        Ok((Seq::empty(), st))
    } else {
        match read_roots(mo, st, (n - 1) as nat) {
            Err(e) => Err(e),
            Ok((comms, s)) => match transcript::read_chunk(mo, s) {
                Err(e) => Err(e),
                Ok((chunk, t)) => Ok(
                    (
                        comms.push(
                            BrakedownCommitment {
                                root: MerkleNode(chunk),
                                num_rows: 0,
                                num_cols: 0,
                            },
                        ),
                        t,
                    ),
                ),
            },
        }
    }
}

/// An early error stops the whole.
proof fn lemma_read_roots_prefix(mo: Model<[u8; 32]>, st: State<[u8; 32]>, k: nat, n: nat)
    requires
        k <= n,
        read_roots(mo, st, k) is Err,
    ensures
        read_roots(mo, st, n) == read_roots(mo, st, k),
    decreases n - k,
{
    if k < n {
        lemma_read_roots_prefix(mo, st, k + 1, n);
    }
}

/// The sum of the polynomials, each times a power of `x`.
fn batch_polys<F: PrimeField>(polys: &[&MultilinearPolynomial<F>], x: F) -> (r: Vec<F>)
    requires
        polys@.len() > 0,
    ensures
        field::vals(r@) == batched(pcs::polys_vals(polys@), x.val(), F::modulus()),
{
    let ghost m = F::modulus();
    let ghost pv = pcs::polys_vals(polys@);
    proof {
        F::modulus_is_odd();
        modular::lemma_small(0, m);
        modular::lemma_small(1, m);
    }
    let size = polys[0].evals().len();
    let mut combined: Vec<F> = Vec::new();
    let mut i: usize = 0;
    while i < size
        invariant
            i <= size,
            combined@.len() == i,
            forall|t: int| 0 <= t < i ==> (#[trigger] combined@[t]).val() == 0,
        decreases size - i,
    {
        combined.push(F::zero());
        i = i + 1;
    }
    let mut factor = F::one();
    let mut k: usize = 0;
    while k < polys.len()
        invariant
            k <= polys.len(),
            m == F::modulus(),
            m > 2,
            pv == pcs::polys_vals(polys@),
            combined@.len() == size,
            factor.val() == power(x.val(), k as nat) % m,
            forall|t: int|
                0 <= t < size ==> (#[trigger] combined@[t]).val() == sum::sum_to(
                    |k: int| power(x.val(), k as nat) * entry(pv[k], t),
                    k as nat,
                ) % m,
        decreases polys.len() - k,
    {
        let evals = polys[k].evals();
        assert(pv[k as int] == field::vals(evals@));
        let ghost before = combined@;
        let mut i: usize = 0;
        while i < size
            invariant
                i <= size,
                m == F::modulus(),
                m > 2,
                pv[k as int] == field::vals(evals@),
                combined@.len() == size,
                before.len() == size,
                factor.val() == power(x.val(), k as nat) % m,
                forall|t: int|
                    0 <= t < size ==> (#[trigger] before[t]).val() == sum::sum_to(
                        |k: int| power(x.val(), k as nat) * entry(pv[k], t),
                        k as nat,
                    ) % m,
                forall|t: int| i <= t < size ==> #[trigger] combined@[t] == before[t],
                forall|t: int|
                    0 <= t < i ==> (#[trigger] combined@[t]).val() == sum::sum_to(
                        |k: int| power(x.val(), k as nat) * entry(pv[k], t),
                        (k + 1) as nat,
                    ) % m,
            decreases size - i,
        {
            let ghost f = |k: int| power(x.val(), k as nat) * entry(pv[k], i as int);
            let ghost w = power(x.val(), k as nat);
            assert(combined@[i as int] == before[i as int]);
            assert(sum::sum_to(f, (k + 1) as nat) == sum::sum_to(f, k as nat) + f(k as int));
            if i < evals.len() {
                let t = factor.mul(evals[i]);
                proof {
                    lemma_mul_mod_noop_left(w, evals@[i as int].val(), m);
                    lemma_add_mod_noop(sum::sum_to(f, k as nat), f(k as int), m);
                }
                let s = combined[i].add(t);
                combined.set(i, s);
            } else {
                assert(w * 0 == 0) by (nonlinear_arith);
            }
            i = i + 1;
        }
        proof {
            lemma_mul_mod_noop_left(power(x.val(), k as nat), x.val(), m);
        }
        factor = factor.mul(x);
        k = k + 1;
    }
    assert(field::vals(combined@) =~= batched(pv, x.val(), m));
    combined
}

/// The sum of the claimed values, each times a power of `x`.
fn batch_values<F: PrimeField>(evals: &[Evaluation<F>], x: F) -> (r: F)
    ensures
        r.val() == batched_value(pcs::evaluations_vals(evals@), x.val(), F::modulus()),
{
    let ghost m = F::modulus();
    let ghost ev = pcs::evaluations_vals(evals@);
    let ghost f = |k: int| power(x.val(), k as nat) * ev[k].value;
    proof {
        F::modulus_is_odd();
        modular::lemma_small(0, m);
        modular::lemma_small(1, m);
    }
    let mut acc = F::zero();
    let mut factor = F::one();
    let mut k: usize = 0;
    while k < evals.len()
        invariant
            k <= evals.len(),
            m == F::modulus(),
            m > 2,
            ev == pcs::evaluations_vals(evals@),
            f == (|k: int| power(x.val(), k as nat) * ev[k].value),
            factor.val() == power(x.val(), k as nat) % m,
            acc.val() == sum::sum_to(f, k as nat) % m,
        decreases evals.len() - k,
    {
        let t = factor.mul(*evals[k].value());
        proof {
            assert(ev[k as int].value == evals@[k as int].value.val());
            lemma_mul_mod_noop_left(power(x.val(), k as nat), ev[k as int].value, m);
            lemma_add_mod_noop(sum::sum_to(f, k as nat), f(k as int), m);
            lemma_mul_mod_noop_left(power(x.val(), k as nat), x.val(), m);
        }
        acc = acc.add(t);
        factor = factor.mul(x);
        k = k + 1;
    }
    acc
}

/// The message length below which the code no longer recurses.
pub open spec fn is_n_0(n_0: nat, poly_size: nat) -> bool {
    exists|r: nat| #[trigger]
        integer::is_isqrt(r, poly_size) && n_0 == if r / 4 > 8 {
            r / 4
        } else {
            8
        }
}

impl<F: PrimeField, H: HashFunction> BrakedownPcs<F, H> {
    /// Parameters for polynomials with `poly_size` values. The code is made by `new_code`
    /// from the number of variables and the message length below which it no longer recurses.
    pub fn setup<N: FnOnce(usize, usize) -> BrakedownCode<F>>(
        poly_size: usize,
        _batch_size: usize,
        new_code: N,
    ) -> (r: Result<BrakedownParam<F>, Error>)
        requires
            integer::is_pow2(poly_size as int),
            forall|n_0: usize|
                is_n_0(n_0 as nat, poly_size as nat) ==> call_requires(
                    new_code,
                    (integer::floor_log2(poly_size as nat) as usize, n_0),
                ),
        ensures
            r matches Ok(p) && {
                &&& p.num_vars == integer::floor_log2(poly_size as nat)
                &&& is_n_0(p.n_0 as nat, poly_size as nat)
                &&& call_ensures(new_code, (p.num_vars, p.n_0), p.code)
            },
    {
        let num_vars = integer::floor_log2_usize(poly_size);
        let root = integer::isqrt_usize(poly_size);
        let n_0 = if root / 4 > 8 {
            root / 4
        } else {
            8
        };
        assert(integer::is_isqrt(root as nat, poly_size as nat));
        assert(is_n_0(n_0 as nat, poly_size as nat));
        let code = new_code(num_vars, n_0);
        Ok(BrakedownParam { num_vars, code, n_0 })
    }
}

impl<F: PrimeField, H: HashFunction> PolynomialCommitmentScheme<F> for BrakedownPcs<F, H> {
    type Param = BrakedownParam<F>;

    type ProverParam = BrakedownProverParam<F>;

    type VerifierParam = BrakedownVerifierParam<F>;

    type Commitment = BrakedownCommitment;

    type CommitmentChunk = [u8; 32];

    open spec fn no_commitment() -> BrakedownCommitment {
        empty_commitment()
    }

    open spec fn chunks_spec(comm: BrakedownCommitment) -> Seq<[u8; 32]> {
        seq![comm.root.0]
    }

    open spec fn trimmed(
        param: BrakedownParam<F>,
        poly_size: nat,
        r: Result<(BrakedownProverParam<F>, BrakedownVerifierParam<F>), Error>,
    ) -> bool {
        let num_vars = integer::floor_log2(poly_size);
        if num_vars > param.num_vars {
            r is Err && r->Err_0@ == ErrorView::InvalidPcsParam(
                too_small_text(num_vars, param.num_vars as nat),
            )
        } else {
            r matches Ok((pp, vp)) && {
                &&& pp.param.num_vars == param.num_vars
                &&& pp.param.code@ == param.code@
                &&& pp.param.n_0 == param.n_0
                &&& vp.param.num_vars == param.num_vars
                &&& vp.param.code@ == param.code@
                &&& vp.param.n_0 == param.n_0
            }
        }
    }

    open spec fn can_commit(pp: BrakedownProverParam<F>, size: nat) -> bool {
        fits(pp.param.code@)
    }

    open spec fn commit_spec(pp: BrakedownProverParam<F>, evals: Seq<int>) -> Result<
        BrakedownCommitment,
        ErrorView,
    > {
        commit_evals_spec::<F, H>(pp.param.code@, evals)
    }

    open spec fn can_open(pp: BrakedownProverParam<F>, size: nat, num_vars: nat) -> bool {
        can_open_evals(pp.param.code@, size, num_vars)
    }

    open spec fn open_spec(
        pp: BrakedownProverParam<F>,
        evals: Seq<int>,
        comm: BrakedownCommitment,
        point: Seq<int>,
        eval: int,
        mo: Model<[u8; 32]>,
        st: State<[u8; 32]>,
    ) -> Result<State<[u8; 32]>, Halt<[u8; 32]>> {
        open_evals_spec::<F, H>(pp.param.code@, evals, point, mo, st)
    }

    open spec fn can_verify(vp: BrakedownVerifierParam<F>, num_vars: nat) -> bool {
        can_verify_evals(vp.param.code@, vp.param.num_vars as nat, num_vars)
    }

    open spec fn verify_spec(
        vp: BrakedownVerifierParam<F>,
        comm: BrakedownCommitment,
        point: Seq<int>,
        eval: int,
        mo: Model<[u8; 32]>,
        st: State<[u8; 32]>,
    ) -> Result<State<[u8; 32]>, Halt<[u8; 32]>> {
        verify_evals_spec::<F, H>(
            vp.param.code@,
            vp.param.num_vars as nat,
            Some(comm.root),
            point,
            eval,
            mo,
            st,
        )
    }

    open spec fn can_batch_open(
        pp: BrakedownProverParam<F>,
        polys: Seq<Seq<int>>,
        comms: Seq<BrakedownCommitment>,
        points: Seq<Seq<int>>,
        evals: Seq<EvaluationView>,
    ) -> bool {
        &&& polys.len() > 0
        &&& points.len() > 0
        &&& polys.len() == 1 ==> comms.len() > 0 && evals.len() > 0
        &&& forall|i: int| 0 <= i < polys.len() ==> (#[trigger] polys[i]).len() <= polys[0].len()
        &&& can_open_evals(pp.param.code@, polys[0].len(), points[0].len())
    }

    /// A single polynomial is opened as such. Several are combined with the powers of a
    /// challenge, and the combination is opened at the first point.
    open spec fn batch_open_spec(
        pp: BrakedownProverParam<F>,
        polys: Seq<Seq<int>>,
        comms: Seq<BrakedownCommitment>,
        points: Seq<Seq<int>>,
        evals: Seq<EvaluationView>,
        mo: Model<[u8; 32]>,
        st: State<[u8; 32]>,
    ) -> Result<State<[u8; 32]>, Halt<[u8; 32]>> {
        if polys.len() == 1 {
            open_evals_spec::<F, H>(pp.param.code@, polys[0], points[0], mo, st)
        } else {
            let (x, s) = transcript::squeeze(mo, st);
            open_evals_spec::<F, H>(
                pp.param.code@,
                batched(polys, x, F::modulus()),
                points[0],
                mo,
                s,
            )
        }
    }

    open spec fn can_batch_verify(
        vp: BrakedownVerifierParam<F>,
        comms: Seq<BrakedownCommitment>,
        points: Seq<Seq<int>>,
        evals: Seq<EvaluationView>,
    ) -> bool {
        &&& points.len() > 0
        &&& evals.len() > 0
        &&& can_verify_evals(vp.param.code@, vp.param.num_vars as nat, points[0].len())
    }

    /// A single polynomial is verified as such. For several, the claimed values are
    /// combined with the powers of a challenge, and the paths are not checked.
    open spec fn batch_verify_spec(
        vp: BrakedownVerifierParam<F>,
        comms: Seq<BrakedownCommitment>,
        points: Seq<Seq<int>>,
        evals: Seq<EvaluationView>,
        mo: Model<[u8; 32]>,
        st: State<[u8; 32]>,
    ) -> Result<State<[u8; 32]>, Halt<[u8; 32]>> {
        let c = vp.param.code@;
        let num_vars = vp.param.num_vars as nat;
        if comms.len() == 1 {
            verify_evals_spec::<F, H>(
                c,
                num_vars,
                Some(comms[0].root),
                points[0],
                evals[0].value,
                mo,
                st,
            )
        } else {
            let (x, s) = transcript::squeeze(mo, st);
            verify_evals_spec::<F, H>(
                c,
                num_vars,
                None,
                points[0],
                batched_value(evals, x, F::modulus()),
                mo,
                s,
            )
        }
    }

    open spec fn open_shift_spec(
        pp: BrakedownProverParam<F>,
        evals: Seq<int>,
        comm: BrakedownCommitment,
        point: Seq<int>,
        eval: int,
        rotation: int,
        mo: Model<[u8; 32]>,
        st: State<[u8; 32]>,
    ) -> Result<State<[u8; 32]>, Halt<[u8; 32]>> {
        Err(
            Halt {
                error: ErrorView::NotImplemented(
                    "Brakedown opens shifts through the shift-open protocol"@,
                ),
                state: st,
            },
        )
    }

    open spec fn verify_shifted_evaluation_spec(
        vp: BrakedownVerifierParam<F>,
        comm: BrakedownCommitment,
        point: Seq<int>,
        eval: int,
        rotation: int,
        mo: Model<[u8; 32]>,
        st: State<[u8; 32]>,
    ) -> Result<State<[u8; 32]>, Halt<[u8; 32]>> {
        Err(
            Halt {
                error: ErrorView::NotImplemented(
                    "Brakedown opens shifts through the shift-open protocol"@,
                ),
                state: st,
            },
        )
    }

    open spec fn read_commitments_spec(
        vp: BrakedownVerifierParam<F>,
        num_polys: nat,
        mo: Model<[u8; 32]>,
        st: State<[u8; 32]>,
    ) -> Result<(Seq<BrakedownCommitment>, State<[u8; 32]>), Halt<[u8; 32]>> {
        read_roots(mo, st, num_polys)
    }

    fn default_commitment() -> (r: BrakedownCommitment) {
        BrakedownCommitment::default()
    }

    fn chunks(comm: &BrakedownCommitment) -> (r: &[[u8; 32]]) {
        comm.as_ref()
    }

    fn trim(param: &BrakedownParam<F>, poly_size: usize, _batch_size: usize) -> (r: Result<
        (BrakedownProverParam<F>, BrakedownVerifierParam<F>),
        Error,
    >) {
        let num_vars = integer::floor_log2_usize(poly_size);
        if num_vars > param.num_vars {
            let mut s = text::with_number("Requested ", num_vars, " vars but param only supports ");
            text::append_number(&mut s, param.num_vars, "");
            assert(s@ =~= too_small_text(num_vars as nat, param.num_vars as nat));
            return Err(Error::InvalidPcsParam(s));
        }
        Ok(
            (
                BrakedownProverParam { param: param.clone() },
                BrakedownVerifierParam { param: param.clone() },
            ),
        )
    }

    fn commit(pp: &BrakedownProverParam<F>, poly: &MultilinearPolynomial<F>) -> (r: Result<
        BrakedownCommitment,
        Error,
    >) {
        let code = &pp.param.code;
        let row_len = code.row_len();
        let size = poly.evals().len();
        let n = size / row_len;
        proof {
            lemma_fundamental_div_mod(size as int, row_len as int);
            assert(0 <= row_len * n <= size) by (nonlinear_arith)
                requires
                    size == row_len * n + size as int % row_len as int,
                    row_len > 0,
                    n >= 0,
                    size as int % row_len as int >= 0,
            ;
        }
        if size != row_len * n {
            let mut s = text::with_number(
                "Polynomial size ",
                size,
                " doesn't match code parameters (row_len=",
            );
            text::append_number(&mut s, row_len, ", expected multiple)");
            assert(s@ =~= size_text(size as nat, row_len as nat));
            return Err(Error::InvalidPcsParam(s));
        }
        let codeword_len = code.codeword_len();
        let cols = encode_columns(code, poly.evals());
        assert(cols@.len() == merkle::columns_vals(cols@).len());
        let tree = MerkleTree::<H>::new(&cols);
        Ok(BrakedownCommitment { root: *tree.root(), num_rows: n, num_cols: codeword_len })
    }

    fn batch_commit(pp: &BrakedownProverParam<F>, polys: &[&MultilinearPolynomial<F>]) -> (r: Result<
        Vec<BrakedownCommitment>,
        Error,
    >) {
        let ghost pv = pcs::polys_vals(polys@);
        let ghost f = |e: Seq<int>| Self::commit_spec(*pp, e);
        let mut comms: Vec<BrakedownCommitment> = Vec::new();
        let mut i: usize = 0;
        assert(pv.take(0) =~= Seq::empty());
        assert(polys@.len() > 0 ==> Self::can_commit(*pp, pcs::polys_vals(polys@)[0].len()));
        while i < polys.len()
            invariant
                i <= polys.len(),
                pv == pcs::polys_vals(polys@),
                f == (|e: Seq<int>| Self::commit_spec(*pp, e)),
                polys@.len() > 0 ==> fits(pp.param.code@),
                pcs::commit_all(f, pv.take(i as int)) == Ok::<Seq<BrakedownCommitment>, ErrorView>(
                    comms@,
                ),
            decreases polys.len() - i,
        {
            assert(pv.take(i + 1).drop_last() =~= pv.take(i as int));
            assert(pv.take(i + 1).last() == polys@[i as int].vals());
            match Self::commit(pp, polys[i]) {
                Err(e) => {
                    proof {
                        pcs::lemma_commit_all_prefix(f, pv, i + 1);
                    }
                    return Err(e);
                },
                Ok(c) => {
                    comms.push(c);
                },
            }
            i = i + 1;
        }
        assert(pv.take(pv.len() as int) =~= pv);
        Ok(comms)
    }

    fn open<T: TranscriptWrite<[u8; 32], F>>(
        pp: &BrakedownProverParam<F>,
        poly: &MultilinearPolynomial<F>,
        _comm: &BrakedownCommitment,
        point: &Vec<F>,
        _eval: &F,
        transcript: &mut T,
    ) -> (r: Result<(), Error>) {
        open_evals::<F, H, T>(&pp.param.code, poly.evals(), point, transcript)
    }

    fn batch_open<T: TranscriptWrite<[u8; 32], F>>(
        pp: &BrakedownProverParam<F>,
        polys: &[&MultilinearPolynomial<F>],
        comms: &[&BrakedownCommitment],
        points: &[Vec<F>],
        evals: &[Evaluation<F>],
        transcript: &mut T,
    ) -> (r: Result<(), Error>) {
        let ghost pv = pcs::polys_vals(polys@);
        assert(pv[0] == polys@[0].vals());
        assert(pcs::points_vals(points@)[0] == field::vals(points@[0]@));
        if polys.len() == 1 {
            assert(pcs::pointees(comms@).len() == comms@.len());
            return Self::open(pp, polys[0], comms[0], &points[0], evals[0].value(), transcript);
        }
        let batch_challenge = transcript.squeeze_challenge();
        let combined = batch_polys(polys, batch_challenge);
        assert(combined@.len() == field::vals(combined@).len());
        open_evals::<F, H, T>(&pp.param.code, &combined, &points[0], transcript)
    }

    fn read_commitments<T: TranscriptRead<[u8; 32], F>>(
        _vp: &BrakedownVerifierParam<F>,
        num_polys: usize,
        transcript: &mut T,
    ) -> (r: Result<Vec<BrakedownCommitment>, Error>) {
        let ghost mo = T::model();
        let ghost st = transcript.state();
        let mut comms: Vec<BrakedownCommitment> = Vec::new();
        let mut i: usize = 0;
        assert(comms@ =~= Seq::empty());
        while i < num_polys
            invariant
                i <= num_polys,
                mo == T::model(),
                st == old(transcript).state(),
                read_roots(mo, st, i as nat) == Ok::<
                    (Seq<BrakedownCommitment>, State<[u8; 32]>),
                    Halt<[u8; 32]>,
                >((comms@, transcript.state())),
            decreases num_polys - i,
        {
            match transcript.read_commitment() {
                Err(e) => {
                    proof {
                        lemma_read_roots_prefix(mo, st, (i + 1) as nat, num_polys as nat);
                    }
                    return Err(e);
                },
                Ok(bytes) => {
                    comms.push(
                        BrakedownCommitment { root: MerkleNode(bytes), num_rows: 0, num_cols: 0 },
                    );
                },
            }
            i = i + 1;
        }
        Ok(comms)
    }

    fn verify<T: TranscriptRead<[u8; 32], F>>(
        vp: &BrakedownVerifierParam<F>,
        comm: &BrakedownCommitment,
        point: &Vec<F>,
        eval: &F,
        transcript: &mut T,
    ) -> (r: Result<(), Error>) {
        verify_evals::<F, H, T>(
            &vp.param.code,
            vp.num_vars(),
            Some(comm.root),
            point,
            *eval,
            transcript,
        )
    }

    fn batch_verify<T: TranscriptRead<[u8; 32], F>>(
        vp: &BrakedownVerifierParam<F>,
        comms: &[&BrakedownCommitment],
        points: &[Vec<F>],
        evals: &[Evaluation<F>],
        transcript: &mut T,
    ) -> (r: Result<(), Error>) {
        let ghost cv = pcs::pointees(comms@);
        let ghost ev = pcs::evaluations_vals(evals@);
        assert(pcs::points_vals(points@)[0] == field::vals(points@[0]@));
        assert(ev[0] == evals@[0].vals());
        if comms.len() == 1 {
            assert(cv[0] == *comms@[0]);
            return Self::verify(vp, comms[0], &points[0], evals[0].value(), transcript);
        }
        let batch_challenge = transcript.squeeze_challenge();
        let combined_eval = batch_values(evals, batch_challenge);
        verify_evals::<F, H, T>(
            &vp.param.code,
            vp.num_vars(),
            None,
            &points[0],
            combined_eval,
            transcript,
        )
    }

    fn open_shift<T: TranscriptWrite<[u8; 32], F>>(
        _pp: &BrakedownProverParam<F>,
        _poly: &MultilinearPolynomial<F>,
        _comm: &BrakedownCommitment,
        _point: &Vec<F>,
        _eval: &F,
        _rotation: &Rotation,
        _transcript: &mut T,
    ) -> (r: Result<(), Error>) {
        Err(
            Error::NotImplemented(
                "Brakedown opens shifts through the shift-open protocol".to_string(),
            ),
        )
    }

    fn verify_shifted_evaluation<T: TranscriptRead<[u8; 32], F>>(
        _vp: &BrakedownVerifierParam<F>,
        _comm: &BrakedownCommitment,
        _point: &Vec<F>,
        _eval: &F,
        _rotation: &Rotation,
        _transcript: &mut T,
    ) -> (r: Result<(), Error>) {
        Err(
            Error::NotImplemented(
                "Brakedown opens shifts through the shift-open protocol".to_string(),
            ),
        )
    }
}

} // verus!
