//! Variation operators over chromosomes. Uniform crossover lives here, as
//! verified code over a random gene choice; parents are never modified and a
//! child always starts unevaluated.

use crate::individual::Individual;
use crate::rng::coin;
use crate::selection::copy_values;
use vstd::prelude::*;

verus! {

/// Uniform crossover: each of the child's genes comes from one of the two
/// parents, chosen independently at random.
#[verifier::loop_isolation(false)]
pub fn crossover(parent1: &Individual, parent2: &Individual) -> (child: Individual)
    requires
        parent1@.chromosome.len() <= parent2@.chromosome.len(),
    ensures
        child@.chromosome.len() == parent1@.chromosome.len(),
        forall|i: int|
            0 <= i < child@.chromosome.len() ==> #[trigger] child@.chromosome[i]
                == parent1@.chromosome[i] || child@.chromosome[i] == parent2@.chromosome[i],
        child@.fitness is None,
{
    let mut genes = copy_values(&parent1.chromosome);
    let n = genes.len();
    let mut i: usize = 0;
    while i < n
        invariant
            0 <= i <= n,
            genes@.len() == n,
            forall|j: int|
                0 <= j < n ==> #[trigger] genes@[j] == parent1@.chromosome[j] || genes@[j]
                    == parent2@.chromosome[j],
        decreases n - i,
    {
        if coin() {
            let gene = parent2.chromosome[i];
            genes[i] = gene;
        }
        i = i + 1;
    }
    Individual::from_vec(genes)
}

} // verus!
