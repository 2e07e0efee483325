//! Expressions over polynomials, and rotations.

use crate::util::field::PrimeField;
use crate::util::integer;
use vstd::arithmetic::power2::pow2;
use vstd::prelude::*;

verus! {

/// By how many places a polynomial is rotated.
#[derive(Clone, Copy, Debug, PartialEq, Eq, PartialOrd, Ord, Hash, Structural)]
pub struct Rotation(pub i32);

impl Rotation {
    /// No rotation.
    pub fn cur() -> (r: Self)
        ensures
            r == Rotation(0),
    {
        Rotation(0)
    }

    /// How many places the rotation moves by, whatever its direction.
    pub fn distance(&self) -> (r: usize)
        ensures
            r == distance(*self),
    {
        if self.0 < 0 {
            (-(self.0 as i64)) as usize
        } else {
            self.0 as usize
        }
    }
}

/// How many places a rotation moves by, whatever its direction.
pub open spec fn distance(r: Rotation) -> int {
    if r.0 < 0 {
        -(r.0 as int)
    } else {
        r.0 as int
    }
}

/// A polynomial, by its index, under a rotation.
#[derive(Clone, Copy, Debug, PartialEq, Eq, PartialOrd, Ord, Hash, Structural)]
pub struct Query {
    pub poly: usize,
    pub rotation: Rotation,
}

impl Query {
    pub fn new(poly: usize, rotation: Rotation) -> (r: Self)
        ensures
            r.poly == poly,
            r.rotation == rotation,
    {
        Query { poly, rotation }
    }

    pub fn poly(&self) -> (r: usize)
        ensures
            r == self.poly,
    {
        self.poly
    }

    pub fn rotation(&self) -> (r: Rotation)
        ensures
            r == self.rotation,
    {
        self.rotation
    }
}

/// A polynomial that both sides know.
#[derive(Clone, Copy, Debug, PartialEq, Eq, PartialOrd, Ord, Hash, Structural)]
pub enum CommonPolynomial {
    Identity,
    Lagrange(i32),
    EqXY(usize),
}

/// An expression over polynomials and challenges.
#[derive(Debug)]
pub enum Expression<F> {
    Constant(F),
    CommonPolynomial(CommonPolynomial),
    Polynomial(Query),
    Challenge(usize),
    Negated(Box<Expression<F>>),
    Sum(Box<Expression<F>>, Box<Expression<F>>),
    Product(Box<Expression<F>>, Box<Expression<F>>),
    Scaled(Box<Expression<F>>, F),
    DistributePowers(Vec<Expression<F>>, Box<Expression<F>>),
}

/// The contents of an [`Expression`].
pub enum ExpressionView {
    Constant(int),
    CommonPolynomial(CommonPolynomial),
    Polynomial(Query),
    Challenge(int),
    Negated(Box<ExpressionView>),
    Sum(Box<ExpressionView>, Box<ExpressionView>),
    Product(Box<ExpressionView>, Box<ExpressionView>),
    Scaled(Box<ExpressionView>, int),
    DistributePowers(Seq<ExpressionView>, Box<ExpressionView>),
}

/// The contents of an expression.
pub open spec fn contents<F: PrimeField>(e: Expression<F>) -> ExpressionView
    decreases e, 0nat,
{
    match e {
        Expression::Constant(c) => ExpressionView::Constant(c.val()),
        Expression::CommonPolynomial(p) => ExpressionView::CommonPolynomial(p),
        Expression::Polynomial(q) => ExpressionView::Polynomial(q),
        Expression::Challenge(i) => ExpressionView::Challenge(i as int),
        Expression::Negated(a) => ExpressionView::Negated(Box::new(contents(*a))),
        Expression::Sum(a, b) => ExpressionView::Sum(
            Box::new(contents(*a)),
            Box::new(contents(*b)),
        ),
        Expression::Product(a, b) => ExpressionView::Product(
            Box::new(contents(*a)),
            Box::new(contents(*b)),
        ),
        Expression::Scaled(a, c) => ExpressionView::Scaled(Box::new(contents(*a)), c.val()),
        Expression::DistributePowers(es, b) => ExpressionView::DistributePowers(
            contents_of_all(es@, es@.len()),
            Box::new(contents(*b)),
        ),
    }
}

/// The contents of the first `n` expressions of a list.
pub open spec fn contents_of_all<F: PrimeField>(es: Seq<Expression<F>>, n: nat) -> Seq<ExpressionView>
    decreases es, n,
{
    if n == 0 || n > es.len() {
        Seq::empty()
    } else {
        contents_of_all(es, (n - 1) as nat).push(contents(es[n - 1]))
    }
}

impl<F: PrimeField> View for Expression<F> {
    type V = ExpressionView;

    open spec fn view(&self) -> ExpressionView {
        contents(*self)
    }
}

/// The contents of a list, by index.
pub proof fn lemma_contents_of_all<F: PrimeField>(es: Seq<Expression<F>>, n: nat)
    requires
        n <= es.len(),
    ensures
        contents_of_all(es, n).len() == n,
        forall|i: int| 0 <= i < n ==> #[trigger] contents_of_all(es, n)[i] == contents(es[i]),
    decreases n,
{
    if n > 0 {
        lemma_contents_of_all(es, (n - 1) as nat);
    }
}

impl<F: PrimeField> Clone for Expression<F> {
    fn clone(&self) -> (r: Self)
        ensures
            r@ == self@,
        decreases self,
    {
        match self {
            Expression::Constant(c) => Expression::Constant(*c),
            Expression::CommonPolynomial(p) => Expression::CommonPolynomial(*p),
            Expression::Polynomial(q) => Expression::Polynomial(*q),
            Expression::Challenge(i) => Expression::Challenge(*i),
            Expression::Negated(a) => Expression::Negated(Box::new((&**a).clone())),
            Expression::Sum(a, b) => Expression::Sum(
                Box::new((&**a).clone()),
                Box::new((&**b).clone()),
            ),
            Expression::Product(a, b) => Expression::Product(
                Box::new((&**a).clone()),
                Box::new((&**b).clone()),
            ),
            Expression::Scaled(a, c) => Expression::Scaled(Box::new((&**a).clone()), *c),
            Expression::DistributePowers(es, b) => {
                let mut copies: Vec<Expression<F>> = Vec::new();
                let mut i: usize = 0;
                while i < es.len()
                    invariant
                        i <= es.len(),
                        *self == Expression::DistributePowers(*es, *b),
                        copies@.len() == i,
                        contents_of_all(copies@, i as nat) == contents_of_all(es@, i as nat),
                    decreases es.len() - i,
                {
                    let e = &es[i];
                    assert(decreases_to!(*self => self->DistributePowers_0));
                    assert(decreases_to!(*es => es@));
                    assert(decreases_to!(es@ => es@[i as int]));
                    let c = e.clone();
                    let ghost before = copies@;
                    copies.push(c);
                    proof {
                        lemma_contents_prefix(before, copies@, i as nat);
                    }
                    i = i + 1;
                }
                Expression::DistributePowers(copies, Box::new((&**b).clone()))
            },
        }
    }
}

/// The contents of a list's beginning do not depend on what follows.
pub proof fn lemma_contents_prefix<F: PrimeField>(
    shorter: Seq<Expression<F>>,
    longer: Seq<Expression<F>>,
    n: nat,
)
    requires
        n <= shorter.len(),
        n <= longer.len(),
        forall|i: int| 0 <= i < n ==> shorter[i] == longer[i],
    ensures
        contents_of_all(shorter, n) == contents_of_all(longer, n),
    decreases n,
{
    if n > 0 {
        lemma_contents_prefix(shorter, longer, (n - 1) as nat);
    }
}

/// All polynomials and challenges of an expression have indices below the given bounds.
pub open spec fn indices_below(e: ExpressionView, polys: int, challenges: int) -> bool
    decreases e, 0nat,
{
    match e {
        ExpressionView::Constant(_) => true,
        ExpressionView::CommonPolynomial(_) => true,
        ExpressionView::Polynomial(q) => q.poly < polys,
        ExpressionView::Challenge(i) => i < challenges,
        ExpressionView::Negated(a) => indices_below(*a, polys, challenges),
        ExpressionView::Sum(a, b) => indices_below(*a, polys, challenges) && indices_below(
            *b,
            polys,
            challenges,
        ),
        ExpressionView::Product(a, b) => indices_below(*a, polys, challenges) && indices_below(
            *b,
            polys,
            challenges,
        ),
        ExpressionView::Scaled(a, _) => indices_below(*a, polys, challenges),
        ExpressionView::DistributePowers(es, b) => all_indices_below(
            es,
            es.len(),
            polys,
            challenges,
        ) && indices_below(*b, polys, challenges),
    }
}

/// As [`indices_below`], for the first `n` expressions of a list.
pub open spec fn all_indices_below(
    es: Seq<ExpressionView>,
    n: nat,
    polys: int,
    challenges: int,
) -> bool
    decreases es, n,
{
    if n == 0 || n > es.len() {
        true
    } else {
        all_indices_below(es, (n - 1) as nat, polys, challenges) && indices_below(
            es[n - 1],
            polys,
            challenges,
        )
    }
}

/// The larger of two numbers.
pub open spec fn max_nat(a: nat, b: nat) -> nat {
    if a < b {
        b
    } else {
        a
    }
}

/// The degree of an expression in its polynomials. The expression `DistributePowers` is the
/// sum of the listed expressions, each times a power of the base.
pub open spec fn degree(e: ExpressionView) -> nat
    decreases e, 0nat,
{
    match e {
        ExpressionView::Constant(_) => 0,
        ExpressionView::CommonPolynomial(_) => 1,
        ExpressionView::Polynomial(_) => 1,
        ExpressionView::Challenge(_) => 0,
        ExpressionView::Negated(a) => degree(*a),
        ExpressionView::Sum(a, b) => max_nat(degree(*a), degree(*b)),
        ExpressionView::Product(a, b) => degree(*a) + degree(*b),
        ExpressionView::Scaled(a, _) => degree(*a),
        ExpressionView::DistributePowers(es, b) => distributed_degree(es, es.len(), degree(*b)),
    }
}

/// The largest degree among the first `n` expressions, each times a power of a base of the
/// given degree.
pub open spec fn distributed_degree(es: Seq<ExpressionView>, n: nat, base: nat) -> nat
    decreases es, n,
{
    if n == 0 || n > es.len() {
        0
    } else {
        max_nat(
            distributed_degree(es, (n - 1) as nat, base),
            degree(es[n - 1]) + (n - 1) as nat * base,
        )
    }
}

impl<F: PrimeField> Expression<F> {
    /// Whether all polynomials and challenges have indices below the given bounds.
    pub fn has_indices_below(&self, polys: usize, challenges: usize) -> (r: bool)
        ensures
            r == indices_below(self@, polys as int, challenges as int),
        decreases self,
    {
        match self {
            Expression::Constant(_) => true,
            Expression::CommonPolynomial(_) => true,
            Expression::Polynomial(q) => q.poly < polys,
            Expression::Challenge(i) => *i < challenges,
            Expression::Negated(a) => a.has_indices_below(polys, challenges),
            Expression::Sum(a, b) => a.has_indices_below(polys, challenges) && b.has_indices_below(
                polys,
                challenges,
            ),
            Expression::Product(a, b) => a.has_indices_below(polys, challenges)
                && b.has_indices_below(polys, challenges),
            Expression::Scaled(a, _) => a.has_indices_below(polys, challenges),
            Expression::DistributePowers(es, b) => {
                let ghost ev = contents_of_all(es@, es@.len());
                let n = es.len();
                let mut ok = true;
                let mut i: usize = 0;
                proof {
                    lemma_contents_of_all(es@, es@.len());
                }
                while i < n
                    invariant
                        i <= n,
                        n == es@.len(),
                        *self == Expression::DistributePowers(*es, *b),
                        ev.len() == n,
                        forall|j: int| 0 <= j < n ==> #[trigger] ev[j] == contents(es@[j]),
                        ok == all_indices_below(ev, i as nat, polys as int, challenges as int),
                    decreases n - i,
                {
                    let e = &es[i];
                    assert(decreases_to!(*self => self->DistributePowers_0));
                    assert(decreases_to!(*es => es@));
                    assert(decreases_to!(es@ => es@[i as int]));
                    let below = e.has_indices_below(polys, challenges);
                    assert(ev[i as int] == contents(es@[i as int]));
                    ok = ok && below;
                    i = i + 1;
                }
                ok && b.has_indices_below(polys, challenges)
            },
        }
    }

    /// The degree, if it is at most `cap`.
    pub fn degree_within(&self, cap: usize) -> (r: Option<usize>)
        ensures
            match r {
                Some(d) => d == degree(self@) && d <= cap,
                None => degree(self@) > cap,
            },
        decreases self,
    {
        match self {
            Expression::Constant(_) => Some(0),
            Expression::CommonPolynomial(_) => if cap >= 1 {
                Some(1)
            } else {
                None
            },
            Expression::Polynomial(_) => if cap >= 1 {
                Some(1)
            } else {
                None
            },
            Expression::Challenge(_) => Some(0),
            Expression::Negated(a) => a.degree_within(cap),
            Expression::Sum(a, b) => {
                let x = a.degree_within(cap);
                let y = b.degree_within(cap);
                match (x, y) {
                    (Some(x), Some(y)) => Some(
                        if x < y {
                            y
                        } else {
                            x
                        },
                    ),
                    _ => None,
                }
            },
            Expression::Product(a, b) => {
                let x = a.degree_within(cap);
                let y = b.degree_within(cap);
                match (x, y) {
                    (Some(x), Some(y)) => if x <= cap - y {
                        Some(x + y)
                    } else {
                        None
                    },
                    _ => None,
                }
            },
            Expression::Scaled(a, _) => a.degree_within(cap),
            Expression::DistributePowers(es, b) => {
                let ghost ev = contents_of_all(es@, es@.len());
                let ghost base = degree(b@);
                let ghost whole = distributed_degree(ev, ev.len(), base);
                let n = es.len();
                proof {
                    lemma_contents_of_all(es@, es@.len());
                }
                let step = b.degree_within(cap);
                let mut largest: usize = 0;
                let mut shift: Option<usize> = Some(0);
                let mut i: usize = 0;
                while i < n
                    invariant
                        i <= n,
                        n == es@.len(),
                        *self == Expression::DistributePowers(*es, *b),
                        ev.len() == n,
                        forall|j: int| 0 <= j < n ==> #[trigger] ev[j] == contents(es@[j]),
                        base == degree(b@),
                        whole == distributed_degree(ev, ev.len(), base),
                        degree(self@) == whole,
                        match step {
                            Some(d) => d == base && d <= cap,
                            None => base > cap,
                        },
                        match shift {
                            Some(d) => d == i * base && d <= cap,
                            None => i * base > cap,
                        },
                        largest == distributed_degree(ev, i as nat, base),
                        largest <= cap,
                    decreases n - i,
                {
                    let e = &es[i];
                    assert(decreases_to!(*self => self->DistributePowers_0));
                    assert(decreases_to!(*es => es@));
                    assert(decreases_to!(es@ => es@[i as int]));
                    let d = e.degree_within(cap);
                    assert(ev[i as int] == contents(es@[i as int]));
                    proof {
                        lemma_distributed_monotone(ev, (i + 1) as nat, n as nat, base);
                        assert((i + 1) * base == i * base + base) by (nonlinear_arith);
                    }
                    match (d, shift) {
                        (Some(d), Some(s)) => if d <= cap - s {
                            if d + s > largest {
                                largest = d + s;
                            }
                        } else {
                            return None;
                        },
                        _ => {
                            return None;
                        },
                    }
                    shift = match (shift, step) {
                        (Some(s), Some(t)) => if s <= cap - t {
                            Some(s + t)
                        } else {
                            None
                        },
                        _ => None,
                    };
                    i = i + 1;
                }
                Some(largest)
            },
        }
    }
}

/// More expressions can only have a larger degree.
proof fn lemma_distributed_monotone(es: Seq<ExpressionView>, k: nat, n: nat, base: nat)
    requires
        k <= n <= es.len(),
    ensures
        distributed_degree(es, k, base) <= distributed_degree(es, n, base),
    decreases n - k,
{
    if k < n {
        lemma_distributed_monotone(es, k, (n - 1) as nat, base);
    }
}

/// How rows of a circuit are numbered.
pub trait Rotatable: Sized {
    /// The rows that a circuit with `num_vars` variables can use, in order.
    spec fn usable(num_vars: nat) -> Seq<int>;

    /// The usable rows are rows.
    proof fn usable_in_range(num_vars: nat)
        ensures
            forall|i: int|
                0 <= i < Self::usable(num_vars).len() ==> 0 <= (#[trigger] Self::usable(num_vars)[i])
                    < pow2(num_vars),
    ;

    spec fn num_vars(self) -> nat;

    fn from_num_vars(num_vars: usize) -> (r: Self)
        ensures
            r.num_vars() == num_vars,
    ;

    fn usable_indices(&self) -> (r: Vec<usize>)
        requires
            pow2(self.num_vars()) <= usize::MAX,
        ensures
            r@.map_values(|x: usize| x as int) == Self::usable(self.num_vars()),
    ;
}

/// Rows in the order of their indices, all of which can be used.
#[derive(Clone, Copy, Debug)]
pub struct Lexical(pub usize);

impl Rotatable for Lexical {
    open spec fn usable(num_vars: nat) -> Seq<int> {
        Seq::new(pow2(num_vars), |i: int| i)
    }

    proof fn usable_in_range(num_vars: nat) {
    }

    open spec fn num_vars(self) -> nat {
        self.0 as nat
    }

    fn from_num_vars(num_vars: usize) -> (r: Self) {
        Lexical(num_vars)
    }

    fn usable_indices(&self) -> (r: Vec<usize>) {
        let n = integer::pow2_usize(self.0);
        let mut r: Vec<usize> = Vec::new();
        let mut i: usize = 0;
        while i < n
            invariant
                i <= n,
                r@.len() == i,
                forall|j: int| 0 <= j < i ==> (#[trigger] r@[j]) == j,
            decreases n - i,
        {
            r.push(i);
            i = i + 1;
        }
        assert(r@.map_values(|x: usize| x as int) =~= Self::usable(self.num_vars()));
        r
    }
}

/// In lexical order every row can be used, and each once: row `i` is the `i`th.
pub proof fn law_lexical_rows(num_vars: nat, row: int)
    requires
        0 <= row < pow2(num_vars),
    ensures
        Lexical::usable(num_vars).len() == pow2(num_vars),
        Lexical::usable(num_vars)[row] == row,
{
}

} // verus!
