//! A circuit that holds its witness.

use crate::backend::PlonkishCircuit;
use crate::pcs;
use crate::poly::multilinear;
use crate::util::field::PrimeField;
use crate::{Error, ErrorView};
use vstd::prelude::*;

verus! {

/// A circuit of a single phase, whose witness is given.
#[derive(Debug)]
pub struct MockCircuit<F: PrimeField> {
    pub instances: Vec<Vec<F>>,
    pub witnesses: Vec<Vec<F>>,
}

impl<F: PrimeField> MockCircuit<F> {
    pub fn new(instances: Vec<Vec<F>>, witnesses: Vec<Vec<F>>) -> (r: Self)
        ensures
            r.instances == instances,
            r.witnesses == witnesses,
    {
        MockCircuit { instances, witnesses }
    }
}

impl<F: PrimeField> PlonkishCircuit<F> for MockCircuit<F> {
    open spec fn instances_spec(&self) -> Seq<Seq<int>> {
        pcs::points_vals(self.instances@)
    }

    open spec fn can_synthesize(&self, round: nat, challenges: Seq<int>) -> bool {
        round == 0 && challenges.len() == 0
    }

    open spec fn synthesize_spec(&self, round: nat, challenges: Seq<int>) -> Result<
        Seq<Seq<int>>,
        ErrorView,
    > {
        Ok(pcs::points_vals(self.witnesses@))
    }

    fn instances(&self) -> (r: &Vec<Vec<F>>) {
        &self.instances
    }

    fn synthesize(&self, _round: usize, _challenges: &[F]) -> (r: Result<Vec<Vec<F>>, Error>) {
        let mut r: Vec<Vec<F>> = Vec::new();
        let mut i: usize = 0;
        while i < self.witnesses.len()
            invariant
                i <= self.witnesses.len(),
                r@.len() == i,
                forall|j: int| 0 <= j < i ==> (#[trigger] r@[j])@ == self.witnesses@[j]@,
            decreases self.witnesses.len() - i,
        {
            r.push(multilinear::clone_elements(&self.witnesses[i]));
            i = i + 1;
        }
        assert(pcs::points_vals(r@) =~= pcs::points_vals(self.witnesses@));
        Ok(r)
    }
}

/// Whatever the phase and the challenges, the witness is the one that is given, all of it, and
/// so are the instances.
pub proof fn law_mock_circuit_gives_what_it_holds<F: PrimeField>(
    circuit: MockCircuit<F>,
    round: nat,
    challenges: Seq<int>,
)
    ensures
        circuit.synthesize_spec(round, challenges) matches Ok(polys) && {
            &&& polys.len() == circuit.witnesses@.len()
            &&& forall|i: int, j: int|
                0 <= i < polys.len() && 0 <= j < circuit.witnesses@[i]@.len()
                    ==> #[trigger] polys[i][j] == circuit.witnesses@[i]@[j].val()
            &&& forall|i: int|
                0 <= i < polys.len() ==> (#[trigger] polys[i]).len() == circuit.witnesses@[i]@.len()
        },
        circuit.instances_spec().len() == circuit.instances@.len(),
        forall|i: int, j: int|
            0 <= i < circuit.instances@.len() && 0 <= j < circuit.instances@[i]@.len()
                ==> #[trigger] circuit.instances_spec()[i][j] == circuit.instances@[i]@[j].val(),
{
}

} // verus!
