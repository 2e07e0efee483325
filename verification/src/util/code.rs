//! Systematic linear codes.

use crate::poly::multilinear;
use crate::util::field;
use crate::util::field::PrimeField;
use crate::util::modular;
use crate::util::sum;
use vstd::arithmetic::div_mod::*;
use vstd::prelude::*;

verus! {

/// A systematic linear code. A codeword is the message followed by one symbol per
/// entry of `parity`, each a combination of symbols before it: a list of positions,
/// with their coefficients.
#[verifier::ext_equal]
pub struct CodeView {
    pub row_len: nat,
    pub num_column_opening: nat,
    pub parity: Seq<Seq<(int, int)>>,
}

impl CodeView {
    /// The length of a codeword.
    pub open spec fn codeword_len(self) -> nat {
        self.row_len + self.parity.len()
    }

    /// The message is not empty, and every combination takes earlier symbols only.
    pub open spec fn wf(self) -> bool {
        &&& self.row_len > 0
        &&& forall|i: int, j: int|
            0 <= i < self.parity.len() && 0 <= j < self.parity[i].len() ==> 0 <= (
            #[trigger] self.parity[i][j]).0 < self.row_len + i
    }

    /// The message followed by the first `k` further symbols.
    pub open spec fn symbols(self, msg: Seq<int>, k: nat) -> Seq<int>
        decreases k,
    {
        if k == 0 {
            msg
        } else {
            let before = self.symbols(msg, (k - 1) as nat);
            before.push(combination(self.parity[k - 1], before))
        }
    }

    /// The codeword of `msg`.
    pub open spec fn encode(self, msg: Seq<int>) -> Seq<int> {
        self.symbols(msg, self.parity.len())
    }
}

/// The sum of the coefficients of `row` times the symbols at their positions.
pub open spec fn combination(row: Seq<(int, int)>, symbols: Seq<int>) -> int {
    sum::sum_to(|j: int| row[j].1 * symbols[row[j].0], row.len())
}

/// The sum of `rows`, each times its factor, entry by entry.
pub open spec fn linear_combination(factors: Seq<int>, rows: Seq<Seq<int>>, len: nat) -> Seq<int> {
    Seq::new(len, |j: int| sum::sum_to(|i: int| factors[i] * rows[i][j], rows.len()))
}

/// A code begins with its message.
pub proof fn law_code_is_systematic(c: CodeView, msg: Seq<int>, k: nat)
    ensures
        c.symbols(msg, k).len() == msg.len() + k,
        c.symbols(msg, k).take(msg.len() as int) == msg,
    decreases k,
{
    if k > 0 {
        law_code_is_systematic(c, msg, (k - 1) as nat);
        let before = c.symbols(msg, (k - 1) as nat);
        assert(c.symbols(msg, k).take(msg.len() as int) =~= before.take(msg.len() as int));
    } else {
        assert(msg.take(msg.len() as int) =~= msg);
    }
}

/// Further symbols leave those before them as they are.
proof fn lemma_symbols_stay(c: CodeView, msg: Seq<int>, i: nat, k: nat)
    requires
        i <= k,
    ensures
        c.symbols(msg, k).take((msg.len() + i) as int) == c.symbols(msg, i),
    decreases k - i,
{
    law_code_is_systematic(c, msg, i);
    law_code_is_systematic(c, msg, k);
    if i < k {
        let p = (k - 1) as nat;
        lemma_symbols_stay(c, msg, i, p);
        law_code_is_systematic(c, msg, p);
        assert(c.symbols(msg, k).take((msg.len() + i) as int) =~= c.symbols(msg, p).take(
            (msg.len() + i) as int,
        ));
    } else {
        assert(c.symbols(msg, k).take((msg.len() + i) as int) =~= c.symbols(msg, i));
    }
}

/// Every symbol of a codeword after the message is the combination that the code says of
/// symbols of the codeword.
pub proof fn law_further_symbols_are_combinations(c: CodeView, msg: Seq<int>, i: int)
    requires
        c.wf(),
        msg.len() == c.row_len,
        0 <= i < c.parity.len(),
    ensures
        c.encode(msg).len() == c.row_len + c.parity.len(),
        c.encode(msg)[c.row_len + i] == sum::sum_to(
            |j: int| c.parity[i][j].1 * c.encode(msg)[c.parity[i][j].0],
            c.parity[i].len(),
        ),
{
    let word = c.encode(msg);
    let row = c.parity[i];
    let before = c.symbols(msg, i as nat);
    law_code_is_systematic(c, msg, c.parity.len());
    law_code_is_systematic(c, msg, i as nat);
    lemma_symbols_stay(c, msg, i as nat, c.parity.len());
    lemma_symbols_stay(c, msg, (i + 1) as nat, c.parity.len());
    assert(word[c.row_len + i] == word.take(c.row_len + i + 1)[c.row_len + i]);
    assert(word[c.row_len + i] == combination(row, before));
    let f = |j: int| row[j].1 * before[row[j].0];
    let g = |j: int| row[j].1 * word[row[j].0];
    assert forall|j: int| 0 <= j < row.len() implies #[trigger] f(j) == g(j) by {
        assert(0 <= c.parity[i][j].0 < c.row_len + i);
        assert(word.take(c.row_len + i)[row[j].0] == word[row[j].0]);
    }
    sum::lemma_sum_eq(f, g, row.len());
    assert(word[c.row_len + i] == sum::sum_to(g, row.len()));
    sum::lemma_sum_eq(g, |j: int| c.parity[i][j].1 * c.encode(msg)[c.parity[i][j].0], row.len());
}

/// Codewords of congruent messages are congruent.
pub proof fn lemma_symbols_cong(c: CodeView, a: Seq<int>, b: Seq<int>, k: nat, m: int)
    requires
        m > 0,
        c.wf(),
        k <= c.parity.len(),
        a.len() == c.row_len,
        modular::cong_seq(a, b, m),
    ensures
        modular::cong_seq(c.symbols(a, k), c.symbols(b, k), m),
    decreases k,
{
    if k > 0 {
        let p = (k - 1) as nat;
        lemma_symbols_cong(c, a, b, p, m);
        let sa = c.symbols(a, p);
        let sb = c.symbols(b, p);
        law_code_is_systematic(c, a, p);
        let row = c.parity[k - 1];
        let f = |j: int| row[j].1 * sa[row[j].0];
        let g = |j: int| row[j].1 * sb[row[j].0];
        assert forall|j: int| 0 <= j < row.len() implies modular::cong(#[trigger] f(j), g(j), m) by {
            assert(0 <= c.parity[k - 1][j].0 < c.row_len + k - 1);
            assert(modular::cong(sa[row[j].0], sb[row[j].0], m));
            modular::lemma_cong_mul(row[j].1, row[j].1, sa[row[j].0], sb[row[j].0], m);
        }
        sum::lemma_sum_cong(f, g, row.len(), m);
    }
}

/// A combination of combined symbols is the combination of the combinations.
proof fn lemma_combination_linear(
    row: Seq<(int, int)>,
    factors: Seq<int>,
    rows: Seq<Seq<int>>,
    len: nat,
)
    requires
        forall|j: int| 0 <= j < row.len() ==> 0 <= (#[trigger] row[j]).0 < len,
    ensures
        combination(row, linear_combination(factors, rows, len)) == sum::sum_to(
            |i: int| factors[i] * combination(row, rows[i]),
            rows.len(),
        ),
{
    let n = rows.len();
    let all = linear_combination(factors, rows, len);
    let f = |i: int| |j: int| factors[i] * (row[j].1 * rows[i][row[j].0]);
    sum::lemma_sum_swap(f, n, row.len());
    let left = |j: int| row[j].1 * all[row[j].0];
    let left_sum = |j: int| sum::sum_to(|i: int| f(i)(j), n);
    assert forall|j: int| 0 <= j < row.len() implies #[trigger] left(j) == left_sum(j) by {
        let c = row[j].1;
        let x = row[j].0;
        assert(0 <= row[j].0 < len);
        let g = |i: int| factors[i] * rows[i][x];
        let h = |i: int| f(i)(j);
        assert forall|i: int| 0 <= i < n implies #[trigger] h(i) == c * g(i) by {
            let t = factors[i];
            let s = rows[i][x];
            assert(t * (c * s) == c * (t * s)) by (nonlinear_arith);
        }
        sum::lemma_sum_scale(g, h, c, n);
        sum::lemma_sum_eq(h, |i: int| f(i)(j), n);
    }
    sum::lemma_sum_eq(left, left_sum, row.len());
    let right = |i: int| factors[i] * combination(row, rows[i]);
    let right_sum = |i: int| sum::sum_to(|j: int| f(i)(j), row.len());
    assert forall|i: int| 0 <= i < n implies #[trigger] right_sum(i) == right(i) by {
        let g = |j: int| row[j].1 * rows[i][row[j].0];
        let h = |j: int| f(i)(j);
        assert forall|j: int| 0 <= j < row.len() implies #[trigger] h(j) == factors[i] * g(j) by {}
        sum::lemma_sum_scale(g, h, factors[i], row.len());
        sum::lemma_sum_eq(h, |j: int| f(i)(j), row.len());
    }
    sum::lemma_sum_eq(right_sum, right, n);
}

/// Encoding is linear: the codeword of a combination of messages is the combination of
/// their codewords.
pub proof fn law_code_is_linear(
    c: CodeView,
    factors: Seq<int>,
    rows: Seq<Seq<int>>,
    codewords: Seq<Seq<int>>,
    k: nat,
)
    requires
        c.wf(),
        k <= c.parity.len(),
        codewords.len() == rows.len(),
        forall|i: int|
            0 <= i < rows.len() ==> (#[trigger] rows[i]).len() == c.row_len && codewords[i]
                == c.symbols(rows[i], k),
    ensures
        c.symbols(linear_combination(factors, rows, c.row_len), k) == linear_combination(
            factors,
            codewords,
            c.row_len + k,
        ),
    decreases k,
{
    let msg = linear_combination(factors, rows, c.row_len);
    let goal = linear_combination(factors, codewords, c.row_len + k);
    law_code_is_systematic(c, msg, k);
    if k == 0 {
        assert forall|j: int| 0 <= j < goal.len() implies goal[j] == msg[j] by {
            let f = |i: int| factors[i] * rows[i][j];
            let g = |i: int| factors[i] * codewords[i][j];
            assert forall|i: int| 0 <= i < rows.len() implies #[trigger] f(i) == g(i) by {
                assert(codewords[i] == c.symbols(rows[i], 0));
            }
            sum::lemma_sum_eq(f, g, rows.len());
        }
        assert(goal =~= msg);
    } else {
        let p = (k - 1) as nat;
        let shorter = Seq::new(rows.len(), |i: int| c.symbols(rows[i], p));
        law_code_is_linear(c, factors, rows, shorter, p);
        let before = linear_combination(factors, shorter, c.row_len + p);
        let row = c.parity[k - 1];
        assert forall|j: int| 0 <= j < row.len() implies 0 <= (#[trigger] row[j]).0 < c.row_len + p by {
            assert(0 <= c.parity[k - 1][j].0 < c.row_len + k - 1);
        }
        lemma_combination_linear(row, factors, shorter, c.row_len + p);
        let now = c.symbols(msg, k);
        assert forall|j: int| 0 <= j < goal.len() implies goal[j] == now[j] by {
            let g = |i: int| factors[i] * codewords[i][j];
            if j < c.row_len + p {
                let f = |i: int| factors[i] * shorter[i][j];
                assert forall|i: int| 0 <= i < rows.len() implies #[trigger] f(i) == g(i) by {
                    assert(codewords[i] == c.symbols(rows[i], k));
                    law_code_is_systematic(c, rows[i], p);
                }
                sum::lemma_sum_eq(f, g, rows.len());
                assert(now[j] == before[j]);
            } else {
                let f = |i: int| factors[i] * combination(row, shorter[i]);
                assert forall|i: int| 0 <= i < rows.len() implies #[trigger] f(i) == g(i) by {
                    assert(codewords[i] == c.symbols(rows[i], k));
                    law_code_is_systematic(c, rows[i], p);
                }
                sum::lemma_sum_eq(f, g, rows.len());
            }
        }
        assert(goal =~= now);
    }
}

/// The entries of a combination, with coefficients by their representatives.
pub open spec fn entries_vals<F: PrimeField>(row: Seq<(usize, F)>) -> Seq<(int, int)> {
    row.map_values(|e: (usize, F)| (e.0 as int, e.1.val()))
}

/// The combinations of a code.
pub open spec fn parity_vals<F: PrimeField>(parity: Seq<Vec<(usize, F)>>) -> Seq<Seq<(int, int)>> {
    parity.map_values(|row: Vec<(usize, F)>| entries_vals(row@))
}

/// A systematic linear code with sparse combinations.
#[derive(Debug)]
pub struct BrakedownCode<F: PrimeField> {
    row_len: usize,
    num_column_opening: usize,
    parity: Vec<Vec<(usize, F)>>,
}

impl<F: PrimeField> View for BrakedownCode<F> {
    type V = CodeView;

    closed spec fn view(&self) -> CodeView {
        CodeView {
            row_len: self.row_len as nat,
            num_column_opening: self.num_column_opening as nat,
            parity: parity_vals(self.parity@),
        }
    }
}

impl<F: PrimeField> Clone for BrakedownCode<F> {
    fn clone(&self) -> (r: Self)
        ensures
            r@ == self@,
    {
        proof {
            use_type_invariant(self);
        }
        let mut parity: Vec<Vec<(usize, F)>> = Vec::new();
        let mut i: usize = 0;
        while i < self.parity.len()
            invariant
                i <= self.parity.len(),
                parity@.len() == i,
                forall|j: int| 0 <= j < i ==> (#[trigger] parity@[j])@ == self.parity@[j]@,
            decreases self.parity.len() - i,
        {
            parity.push(multilinear::clone_elements(&self.parity[i]));
            i = i + 1;
        }
        assert(parity_vals(parity@) =~= parity_vals(self.parity@));
        BrakedownCode {
            row_len: self.row_len,
            num_column_opening: self.num_column_opening,
            parity,
        }
    }
}

impl<F: PrimeField> BrakedownCode<F> {
    #[verifier::type_invariant]
    spec fn wf(self) -> bool {
        &&& self@.wf()
        &&& self@.codeword_len() <= usize::MAX
    }

    /// The code with messages of length `row_len`, of whose columns `num_column_opening`
    /// are to be opened, and with the given combinations; none if a combination takes a
    /// symbol that does not come before it, or if messages would be empty or codewords too long.
    pub fn new(
        row_len: usize,
        num_column_opening: usize,
        parity: Vec<Vec<(usize, F)>>,
    ) -> (r: Option<Self>)
        ensures
            ({
                let v = CodeView {
                    row_len: row_len as nat,
                    num_column_opening: num_column_opening as nat,
                    parity: parity_vals(parity@),
                };
                match r {
                    Some(c) => c@ == v && v.wf() && v.codeword_len() <= usize::MAX,
                    None => !(v.wf() && v.codeword_len() <= usize::MAX),
                }
            }),
    {
        let ghost v = CodeView {
            row_len: row_len as nat,
            num_column_opening: num_column_opening as nat,
            parity: parity_vals(parity@),
        };
        if row_len == 0 || parity.len() > usize::MAX - row_len {
            return None;
        }
        let mut i: usize = 0;
        while i < parity.len()
            invariant
                i <= parity.len(),
                row_len + parity@.len() <= usize::MAX,
                v.row_len == row_len,
                v.parity == parity_vals(parity@),
                forall|a: int, b: int|
                    0 <= a < i && 0 <= b < v.parity[a].len() ==> 0 <= (#[trigger] v.parity[a][b]).0
                        < row_len + a,
            decreases parity.len() - i,
        {
            let row = &parity[i];
            let mut j: usize = 0;
            while j < row.len()
                invariant
                    i < parity.len(),
                    j <= row.len(),
                    row_len + parity@.len() <= usize::MAX,
                    v.row_len == row_len,
                    v.parity == parity_vals(parity@),
                    v.parity[i as int] == entries_vals(row@),
                    forall|a: int, b: int|
                        0 <= a < i && 0 <= b < v.parity[a].len() ==> 0 <= (
                        #[trigger] v.parity[a][b]).0 < row_len + a,
                    forall|b: int|
                        0 <= b < j ==> 0 <= (#[trigger] v.parity[i as int][b]).0 < row_len + i,
                decreases row.len() - j,
            {
                assert(v.parity[i as int][j as int].0 == row@[j as int].0);
                if row[j].0 >= row_len + i {
                    return None;
                }
                j = j + 1;
            }
            i = i + 1;
        }
        Some(BrakedownCode { row_len, num_column_opening, parity })
    }

    /// The length of a message.
    pub fn row_len(&self) -> (r: usize)
        ensures
            r == self@.row_len,
            self@.wf(),
    {
        proof {
            use_type_invariant(self);
        }
        self.row_len
    }

    /// The length of a codeword.
    pub fn codeword_len(&self) -> (r: usize)
        ensures
            r == self@.codeword_len(),
            self@.wf(),
    {
        proof {
            use_type_invariant(self);
        }
        self.row_len + self.parity.len()
    }

    /// How many columns are to be opened.
    pub fn num_column_opening(&self) -> (r: usize)
        ensures
            r == self@.num_column_opening,
    {
        self.num_column_opening
    }

    /// Fills in the codeword of the message that `target` begins with.
    pub fn encode(&self, target: &mut Vec<F>)
        requires
            old(target)@.len() == self@.codeword_len(),
        ensures
            field::represents(
                final(target)@,
                self@.encode(field::vals(old(target)@).take(self@.row_len as int)),
            ),
    {
        let ghost m = F::modulus();
        let ghost c = self@;
        let ghost msg = field::vals(old(target)@).take(c.row_len as int);
        proof {
            use_type_invariant(self);
            F::modulus_is_odd();
            field::lemma_represents_vals(old(target)@);
        }
        let n = self.parity.len();
        let mut i: usize = 0;
        while i < n
            invariant
                i <= n,
                n == self.parity@.len(),
                m == F::modulus(),
                m > 2,
                c == self@,
                c.wf(),
                c.codeword_len() <= usize::MAX,
                msg.len() == c.row_len,
                target@.len() == c.codeword_len(),
                forall|j: int|
                    0 <= j < c.row_len + i ==> (#[trigger] target@[j]).val() == c.symbols(
                        msg,
                        i as nat,
                    )[j] % m,
            decreases n - i,
        {
            let row = &self.parity[i];
            let ghost rv = c.parity[i as int];
            let ghost syms = c.symbols(msg, i as nat);
            let ghost f = |j: int| rv[j].1 * syms[rv[j].0];
            assert(rv == entries_vals(row@));
            proof {
                modular::lemma_small(0, m);
                law_code_is_systematic(c, msg, i as nat);
                law_code_is_systematic(c, msg, (i + 1) as nat);
            }
            let mut acc = F::zero();
            let mut j: usize = 0;
            while j < row.len()
                invariant
                    i < n,
                    n == self.parity@.len(),
                    j <= row.len(),
                    m == F::modulus(),
                    m > 2,
                    c == self@,
                    c.wf(),
                    rv == c.parity[i as int],
                    rv == entries_vals(row@),
                    f == (|j: int| rv[j].1 * syms[rv[j].0]),
                    target@.len() == c.codeword_len(),
                    forall|j: int|
                        0 <= j < c.row_len + i ==> (#[trigger] target@[j]).val() == syms[j] % m,
                    acc.val() == sum::sum_to(f, j as nat) % m,
                decreases row.len() - j,
            {
                let (idx, coeff) = row[j];
                assert(0 <= c.parity[i as int][j as int].0 < c.row_len + i);
                assert(rv[j as int] == (idx as int, coeff.val()));
                let t = coeff.mul(target[idx]);
                proof {
                    lemma_mul_mod_noop_right(coeff.val(), syms[idx as int], m);
                    lemma_add_mod_noop(sum::sum_to(f, j as nat), f(j as int), m);
                }
                acc = acc.add(t);
                j = j + 1;
            }
            target.set(self.row_len + i, acc);
            i = i + 1;
        }
        proof {
            law_code_is_systematic(c, msg, c.parity.len());
        }
    }
}

} // verus!
