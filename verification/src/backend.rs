//! Circuits and proving backends.

pub mod hyperplonk;
pub mod hyperplonk_brakedown;
pub mod mock;

use crate::pcs;
use crate::util::expression;
use crate::util::expression::Expression;
use crate::util::field;
use crate::util::field::PrimeField;
use crate::{Error, ErrorView};
use vstd::prelude::*;

verus! {

/// What is known of a circuit before its witness.
#[derive(Debug)]
pub struct PlonkishCircuitInfo<F: PrimeField> {
    /// The circuit has `2^k` rows.
    pub k: usize,
    /// The number of values in each instance polynomial.
    pub num_instances: Vec<usize>,
    /// The values of the preprocessed polynomials.
    pub preprocess_polys: Vec<Vec<F>>,
    /// The number of witness polynomials in each phase.
    pub num_witness_polys: Vec<usize>,
    /// The number of challenges after each phase.
    pub num_challenges: Vec<usize>,
    /// The constraints, which must be zero on every row.
    pub constraints: Vec<Expression<F>>,
    /// The lookups, as pairs of input and table.
    pub lookups: Vec<Vec<(Expression<F>, Expression<F>)>>,
    /// The cycles of equal cells, as pairs of polynomial and row.
    pub permutations: Vec<Vec<(usize, usize)>>,
    /// The largest degree that a constraint may have.
    pub max_degree: Option<usize>,
}

/// The sum of a list.
pub open spec fn total(s: Seq<usize>) -> int
    decreases s.len(),
{
    if s.len() == 0 {
        0
    } else {
        total(s.drop_last()) + s.last()
    }
}

/// Adding up more entries gives no less.
pub proof fn lemma_total_prefix(s: Seq<usize>, k: int)
    requires
        0 <= k <= s.len(),
    ensures
        0 <= total(s.take(k)) <= total(s),
    decreases s.len(),
{
    if k == s.len() {
        assert(s.take(k) =~= s);
        if s.len() > 0 {
            lemma_total_prefix(s.drop_last(), k - 1);
        }
    } else {
        lemma_total_prefix(s.drop_last(), k);
        assert(s.drop_last().take(k) =~= s.take(k));
    }
}

/// The sum of a list.
fn add_up(s: &Vec<usize>) -> (r: usize)
    requires
        total(s@) <= usize::MAX,
    ensures
        r == total(s@),
{
    let mut r: usize = 0;
    let mut i: usize = 0;
    assert(s@.take(0) =~= Seq::empty());
    while i < s.len()
        invariant
            i <= s.len(),
            total(s@) <= usize::MAX,
            r == total(s@.take(i as int)),
        decreases s.len() - i,
    {
        proof {
            lemma_total_prefix(s@, i + 1);
            assert(s@.take(i + 1).drop_last() =~= s@.take(i as int));
        }
        r = r + s[i];
        i = i + 1;
    }
    assert(s@.take(s@.len() as int) =~= s@);
    r
}

impl<F: PrimeField> PlonkishCircuitInfo<F> {
    /// The number of polynomials.
    pub open spec fn num_polys(self) -> int {
        self.num_instances@.len() + self.preprocess_polys@.len() + total(self.num_witness_polys@)
    }

    /// The number of polynomials and challenges can be counted.
    pub open spec fn countable(self) -> bool {
        self.num_polys() <= usize::MAX && total(self.num_challenges@) <= usize::MAX
    }

    /// There are as many phases of witness polynomials as of challenges; every phase has
    /// witness polynomials, and every phase but the last challenges; all polynomials and
    /// challenges that are used exist; and no constraint has too large a degree.
    pub open spec fn well_formed(self) -> bool {
        let polys = self.num_polys();
        let challenges = total(self.num_challenges@);
        &&& self.num_witness_polys@.len() == self.num_challenges@.len()
        &&& forall|i: int| 0 <= i < self.num_witness_polys@.len() ==> self.num_witness_polys@[i] > 0
        &&& forall|i: int| 0 <= i < self.num_challenges@.len() - 1 ==> self.num_challenges@[i] > 0
        &&& forall|i: int|
            0 <= i < self.constraints@.len() ==> expression::indices_below(
                (#[trigger] self.constraints@[i])@,
                polys,
                challenges,
            )
        &&& forall|i: int, j: int|
            0 <= i < self.lookups@.len() && 0 <= j < self.lookups@[i]@.len() ==> {
                &&& expression::indices_below(
                    (#[trigger] self.lookups@[i]@[j]).0@,
                    polys,
                    challenges,
                )
                &&& expression::indices_below(self.lookups@[i]@[j].1@, polys, challenges)
            }
        &&& forall|i: int, j: int|
            0 <= i < self.permutations@.len() && 0 <= j < self.permutations@[i]@.len() ==> (
            #[trigger] self.permutations@[i]@[j]).0 < polys
        &&& self.max_degree is Some ==> forall|i: int|
            0 <= i < self.constraints@.len() ==> expression::degree(
                (#[trigger] self.constraints@[i])@,
            ) <= self.max_degree->Some_0
    }

    /// Whether the circuit is well formed.
    pub fn is_well_formed(&self) -> (r: bool)
        requires
            self.countable(),
        ensures
            r == self.well_formed(),
    {
        proof {
            lemma_total_prefix(self.num_witness_polys@, 0);
        }
        let polys = self.num_instances.len() + self.preprocess_polys.len() + add_up(
            &self.num_witness_polys,
        );
        let challenges = add_up(&self.num_challenges);
        if self.num_witness_polys.len() != self.num_challenges.len() {
            return false;
        }
        let phases = self.num_challenges.len();
        let mut i: usize = 0;
        while i < phases
            invariant
                i <= phases,
                phases == self.num_challenges@.len(),
                phases == self.num_witness_polys@.len(),
                forall|j: int| 0 <= j < i ==> self.num_witness_polys@[j] > 0,
                forall|j: int| 0 <= j < i && j < phases - 1 ==> self.num_challenges@[j] > 0,
            decreases phases - i,
        {
            if self.num_witness_polys[i] == 0 || (i < phases - 1 && self.num_challenges[i] == 0) {
                return false;
            }
            i = i + 1;
        }
        self.constraints_fit(polys, challenges) && self.lookups_fit(polys, challenges)
            && self.permutations_fit(polys)
    }

    /// Whether the constraints use polynomials and challenges that exist, and have no too
    /// large degree.
    fn constraints_fit(&self, polys: usize, challenges: usize) -> (r: bool)
        ensures
            r == ({
                &&& forall|i: int|
                    0 <= i < self.constraints@.len() ==> expression::indices_below(
                        (#[trigger] self.constraints@[i])@,
                        polys as int,
                        challenges as int,
                    )
                &&& self.max_degree is Some ==> forall|i: int|
                    0 <= i < self.constraints@.len() ==> expression::degree(
                        (#[trigger] self.constraints@[i])@,
                    ) <= self.max_degree->Some_0
            }),
    {
        let mut i: usize = 0;
        while i < self.constraints.len()
            invariant
                i <= self.constraints.len(),
                forall|j: int|
                    0 <= j < i ==> expression::indices_below(
                        (#[trigger] self.constraints@[j])@,
                        polys as int,
                        challenges as int,
                    ),
                self.max_degree is Some ==> forall|j: int|
                    0 <= j < i ==> expression::degree((#[trigger] self.constraints@[j])@)
                        <= self.max_degree->Some_0,
            decreases self.constraints.len() - i,
        {
            let e = &self.constraints[i];
            if !e.has_indices_below(polys, challenges) {
                return false;
            }
            if let Some(cap) = self.max_degree {
                if e.degree_within(cap).is_none() {
                    return false;
                }
            }
            i = i + 1;
        }
        true
    }

    /// Whether the lookups use polynomials and challenges that exist.
    fn lookups_fit(&self, polys: usize, challenges: usize) -> (r: bool)
        ensures
            r == (forall|i: int, j: int|
                0 <= i < self.lookups@.len() && 0 <= j < self.lookups@[i]@.len() ==> {
                    &&& expression::indices_below(
                        (#[trigger] self.lookups@[i]@[j]).0@,
                        polys as int,
                        challenges as int,
                    )
                    &&& expression::indices_below(
                        self.lookups@[i]@[j].1@,
                        polys as int,
                        challenges as int,
                    )
                }),
    {
        let mut i: usize = 0;
        while i < self.lookups.len()
            invariant
                i <= self.lookups.len(),
                forall|a: int, b: int|
                    0 <= a < i && 0 <= b < self.lookups@[a]@.len() ==> {
                        &&& expression::indices_below(
                            (#[trigger] self.lookups@[a]@[b]).0@,
                            polys as int,
                            challenges as int,
                        )
                        &&& expression::indices_below(
                            self.lookups@[a]@[b].1@,
                            polys as int,
                            challenges as int,
                        )
                    },
            decreases self.lookups.len() - i,
        {
            let mut j: usize = 0;
            while j < self.lookups[i].len()
                invariant
                    i < self.lookups@.len(),
                    j <= self.lookups@[i as int]@.len(),
                    forall|a: int, b: int|
                        0 <= a < i && 0 <= b < self.lookups@[a]@.len() ==> {
                            &&& expression::indices_below(
                                (#[trigger] self.lookups@[a]@[b]).0@,
                                polys as int,
                                challenges as int,
                            )
                            &&& expression::indices_below(
                                self.lookups@[a]@[b].1@,
                                polys as int,
                                challenges as int,
                            )
                        },
                    forall|b: int|
                        0 <= b < j ==> {
                            &&& expression::indices_below(
                                (#[trigger] self.lookups@[i as int]@[b]).0@,
                                polys as int,
                                challenges as int,
                            )
                            &&& expression::indices_below(
                                self.lookups@[i as int]@[b].1@,
                                polys as int,
                                challenges as int,
                            )
                        },
                decreases self.lookups@[i as int]@.len() - j,
            {
                let pair = &self.lookups[i][j];
                let fits = pair.0.has_indices_below(polys, challenges)
                    && pair.1.has_indices_below(polys, challenges);
                if !fits {
                    assert(self.lookups@[i as int]@[j as int] == *pair);
                    return false;
                }
                j = j + 1;
            }
            i = i + 1;
        }
        true
    }

    /// Whether the permutations use polynomials that exist.
    fn permutations_fit(&self, polys: usize) -> (r: bool)
        ensures
            r == (forall|i: int, j: int|
                0 <= i < self.permutations@.len() && 0 <= j < self.permutations@[i]@.len() ==> (
                #[trigger] self.permutations@[i]@[j]).0 < polys),
    {
        let mut i: usize = 0;
        while i < self.permutations.len()
            invariant
                i <= self.permutations.len(),
                forall|a: int, b: int|
                    0 <= a < i && 0 <= b < self.permutations@[a]@.len() ==> (
                    #[trigger] self.permutations@[a]@[b]).0 < polys,
            decreases self.permutations.len() - i,
        {
            let mut j: usize = 0;
            while j < self.permutations[i].len()
                invariant
                    i < self.permutations@.len(),
                    j <= self.permutations@[i as int]@.len(),
                    forall|a: int, b: int|
                        0 <= a < i && 0 <= b < self.permutations@[a]@.len() ==> (
                        #[trigger] self.permutations@[a]@[b]).0 < polys,
                    forall|b: int|
                        0 <= b < j ==> (#[trigger] self.permutations@[i as int]@[b]).0 < polys,
                decreases self.permutations@[i as int]@.len() - j,
            {
                let cell = self.permutations[i][j];
                if cell.0 >= polys {
                    assert(self.permutations@[i as int]@[j as int] == cell);
                    return false;
                }
                j = j + 1;
            }
            i = i + 1;
        }
        true
    }
}

/// A circuit with its witness.
pub trait PlonkishCircuit<F: PrimeField>: Sized {
    /// The instances' representatives.
    spec fn instances_spec(&self) -> Seq<Seq<int>>;

    /// Whether the witness of phase `round` can be made once `challenges` are drawn.
    spec fn can_synthesize(&self, round: nat, challenges: Seq<int>) -> bool;

    /// The values of the witness polynomials of phase `round`.
    spec fn synthesize_spec(&self, round: nat, challenges: Seq<int>) -> Result<
        Seq<Seq<int>>,
        ErrorView,
    >;

    fn instances(&self) -> (r: &Vec<Vec<F>>)
        ensures
            pcs::points_vals(r@) == self.instances_spec(),
    ;

    fn synthesize(&self, round: usize, challenges: &[F]) -> (r: Result<Vec<Vec<F>>, Error>)
        requires
            self.can_synthesize(round as nat, field::vals(challenges@)),
        ensures
            match self.synthesize_spec(round as nat, field::vals(challenges@)) {
                Ok(polys) => r is Ok && pcs::points_vals(r->Ok_0@) == polys,
                Err(e) => r is Err && r->Err_0@ == e,
            },
    ;
}

} // verus!
