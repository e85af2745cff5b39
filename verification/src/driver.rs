//! The shared state of the metaheuristic search strategies: the interpreter,
//! the evaluation-budget accounting, the best-of-run archive, and the common
//! population steps (initialization, evaluation, greedy replacement).

use crate::hall_of_fame::{hof_update_post, views_of, HallOfFame};
use crate::individual::Individual;
use crate::interpreter::{
    decoded_arena, lemma_eval_ready_same_instance, same_instance, AbsoluteScheduleInterpreter,
};
use crate::schedule::{index_permutation, ordered_pass_repaired};
use crate::rng::random_int_in;
use crate::utils::{is_smaller_or_equal_lexicographic, lex_le};
use vstd::prelude::*;

verus! {

/// How many of the first `n` individuals still lack a fitness.
pub open spec fn unset_count(s: Seq<Individual>, n: int) -> int
    decreases n,
{
    if n <= 0 {
        0
    } else {
        unset_count(s, n - 1) + if s[n - 1]@.fitness is None {
            1int
        } else {
            0int
        }
    }
}

proof fn lemma_unset_count_bounds(s: Seq<Individual>, n: int)
    requires
        0 <= n <= s.len(),
    ensures
        0 <= unset_count(s, n) <= n,
        (forall|i: int| 0 <= i < n ==> (#[trigger] s[i])@.fitness is None) ==> unset_count(s, n)
            == n,
    decreases n,
{
    if n > 0 {
        lemma_unset_count_bounds(s, n - 1);
    }
}

pub struct AlgorithmBase {
    pub mu: i32,
    pub repair_num: u32,
    pub repair_den: u32,
    pub max_evaluations: i32,
    pub pmin: i32,
    pub pmax: i32,
    pub interpreter: AbsoluteScheduleInterpreter,
    pub hall_of_fame: HallOfFame,
    pub original_penalty: i32,
    pub original_makespan: i32,
}

impl AlgorithmBase {
    /// What every strategy keeps true of its shared state.
    pub open spec fn wf(self) -> bool {
        &&& self.interpreter.schedule.wf()
        &&& self.interpreter.schedule.capacities_positive()
        &&& 0 < self.repair_den
        &&& self.repair_num <= self.repair_den
    }

    pub fn new(
        mu: i32,
        repair_num: u32,
        repair_den: u32,
        max_evaluations: i32,
        pmin: i32,
        pmax: i32,
        interpreter: AbsoluteScheduleInterpreter,
    ) -> (r: AlgorithmBase)
        requires
            interpreter.schedule.wf(),
            interpreter.schedule.capacities_positive(),
            interpreter.schedule.scores_fit(),
            0 < repair_den,
            repair_num <= repair_den,
        ensures
            r.wf(),
            r.mu == mu,
            r.repair_num == repair_num,
            r.repair_den == repair_den,
            r.max_evaluations == max_evaluations,
            r.pmin == pmin,
            r.pmax == pmax,
            r.interpreter == interpreter,
            r.hall_of_fame.items@.len() == 0,
            r.hall_of_fame.maxsize == 1,
            r.original_penalty as int == interpreter.schedule.total_penalty_spec(),
            r.original_makespan as int == interpreter.schedule.total_makespan_spec(),
    {
        let original_scores = interpreter.get_scores();
        let original_penalty = original_scores[0];
        let original_makespan = original_scores[1];
        AlgorithmBase {
            mu,
            repair_num,
            repair_den,
            max_evaluations,
            pmin,
            pmax,
            interpreter,
            hall_of_fame: HallOfFame::new(1),
            original_penalty,
            original_makespan,
        }
    }

    /// `n` fresh individuals, each a chromosome of the initial chromosome's
    /// length whose every gene is a uniform integer draw in `pmin..=pmax`.
    #[verifier::loop_isolation(false)]
    pub fn create_population(&self, n: i32, init: &Vec<i32>, pmin: i32, pmax: i32) -> (population:
        Vec<Individual>)
        requires
            pmin <= pmax,
        ensures
            population@.len() == (if n >= 0 {
                n as int
            } else {
                0
            }),
            forall|i: int|
                0 <= i < population@.len() ==> {
                    let ind = (#[trigger] population@[i])@;
                    &&& ind.chromosome.len() == init@.len()
                    &&& ind.fitness is None
                    &&& forall|g: int|
                        0 <= g < ind.chromosome.len() ==> pmin <= #[trigger] ind.chromosome[g]
                            <= pmax
                },
    {
        let mut population: Vec<Individual> = Vec::new();
        let mut count: i32 = 0;
        while count < n
            invariant
                0 <= count,
                n >= 0 ==> count <= n,
                n <= 0 ==> count == 0,
                population@.len() == count as int,
                forall|i: int|
                    0 <= i < population@.len() ==> {
                        let ind = (#[trigger] population@[i])@;
                        &&& ind.chromosome.len() == init@.len()
                        &&& ind.fitness is None
                        &&& forall|g: int|
                            0 <= g < ind.chromosome.len() ==> pmin <= #[trigger] ind.chromosome[g]
                                <= pmax
                    },
            decreases n - count,
        {
            let len = init.len();
            let mut chromosome: Vec<i32> = Vec::new();
            let mut g: usize = 0;
            while g < len
                invariant
                    0 <= g <= len,
                    chromosome@.len() == g,
                    forall|j: int| 0 <= j < g ==> pmin <= #[trigger] chromosome@[j] <= pmax,
                decreases len - g,
            {
                chromosome.push(random_int_in(pmin, pmax));
                g = g + 1;
            }
            population.push(Individual::from_vec(chromosome));
            count = count + 1;
        }
        population
    }

    /// Evaluate the individual if its fitness is unset: decode, repair,
    /// score, and read the re-encoded chromosome back into it. Returns
    /// whether a fresh evaluation was spent. At repair probability 1 the
    /// schedule a fresh evaluation leaves is the fold of every constraint's
    /// repair over the decoded chromosome, in some order.
    pub fn evaluate_single(&mut self, individual: &mut Individual) -> (fresh: bool)
        requires
            old(self).wf(),
            old(individual)@.fitness is None ==> old(self).interpreter.eval_ready(
                old(individual)@.chromosome,
            ),
        ensures
            final(self).wf(),
            same_instance(final(self).interpreter.schedule, old(self).interpreter.schedule),
            final(self).mu == old(self).mu,
            final(self).repair_num == old(self).repair_num,
            final(self).repair_den == old(self).repair_den,
            final(self).max_evaluations == old(self).max_evaluations,
            final(self).pmin == old(self).pmin,
            final(self).pmax == old(self).pmax,
            final(self).hall_of_fame == old(self).hall_of_fame,
            final(self).original_penalty == old(self).original_penalty,
            final(self).original_makespan == old(self).original_makespan,
            fresh == (old(individual)@.fitness is None),
            !fresh ==> final(individual)@ == old(individual)@ && *final(self) == *old(self),
            fresh ==> {
                let schedule = final(self).interpreter.schedule;
                &&& final(individual)@.fitness matches Some(f) && f.len() == 2 && f[0] as int
                    == schedule.total_penalty_spec() && f[1] as int
                    == schedule.total_makespan_spec() && f[0] >= 0 && f[1] >= 0
                &&& final(individual)@.chromosome.len() == 2 * schedule.assignments@.len()
                &&& forall|i: int|
                    0 <= i < schedule.assignments@.len()
                        ==> final(individual)@.chromosome[2 * i] == (
                    #[trigger] schedule.assignments@[i]).start
                        && final(individual)@.chromosome[2 * i + 1]
                        == schedule.assignments@[i].duration
            },
            fresh && old(self).repair_num == old(self).repair_den ==> (exists|order: Seq<usize>|
                #[trigger] index_permutation(
                    order,
                    old(self).interpreter.schedule.constraints@.len() as int,
                ) && final(self).interpreter.schedule.assignments@ == ordered_pass_repaired(
                    old(self).interpreter.schedule.constraints@,
                    order,
                    old(self).interpreter.schedule.constraints@.len() as int,
                    decoded_arena(
                        old(self).interpreter.schedule.assignments@,
                        old(individual)@.chromosome,
                    ),
                )),
    {
        match &individual.fitness {
            Some(_) => {
                return false;
            },
            None => {},
        }
        let fitness = self.interpreter.evaluate(
            &individual.chromosome,
            self.repair_num,
            self.repair_den,
        );
        individual.fitness = Some(fitness);
        let chromosome = self.interpreter.get_chromosome();
        individual.chromosome = chromosome;
        true
    }

    /// Evaluate every individual that still lacks a fitness; the result is
    /// the number of fresh evaluations spent.
    #[verifier::loop_isolation(false)]
    pub fn evaluate(&mut self, population: &mut Vec<Individual>) -> (evaluations: i32)
        requires
            old(self).wf(),
            old(population)@.len() <= i32::MAX,
            forall|i: int|
                0 <= i < old(population)@.len()
                    ==> ((#[trigger] old(population)@[i])@.fitness is None
                    ==> old(self).interpreter.eval_ready(old(population)@[i]@.chromosome)),
        ensures
            final(self).wf(),
            same_instance(final(self).interpreter.schedule, old(self).interpreter.schedule),
            final(self).mu == old(self).mu,
            final(self).repair_num == old(self).repair_num,
            final(self).repair_den == old(self).repair_den,
            final(self).max_evaluations == old(self).max_evaluations,
            final(self).pmin == old(self).pmin,
            final(self).pmax == old(self).pmax,
            final(self).hall_of_fame == old(self).hall_of_fame,
            final(self).original_penalty == old(self).original_penalty,
            final(self).original_makespan == old(self).original_makespan,
            final(population)@.len() == old(population)@.len(),
            forall|i: int|
                0 <= i < final(population)@.len()
                    ==> (#[trigger] final(population)@[i])@.fitness is Some,
            forall|i: int|
                0 <= i < old(population)@.len()
                    && (#[trigger] old(population)@[i])@.fitness is Some
                    ==> final(population)@[i]@ == old(population)@[i]@,
            evaluations == unset_count(old(population)@, old(population)@.len() as int),
    {
        let n = population.len();
        let mut evaluations: i32 = 0;
        let mut i: usize = 0;
        while i < n
            invariant
                0 <= i <= n,
                self.wf(),
                same_instance(self.interpreter.schedule, old(self).interpreter.schedule),
                self.mu == old(self).mu,
                self.repair_num == old(self).repair_num,
                self.repair_den == old(self).repair_den,
                self.max_evaluations == old(self).max_evaluations,
                self.pmin == old(self).pmin,
                self.pmax == old(self).pmax,
                self.hall_of_fame == old(self).hall_of_fame,
                self.original_penalty == old(self).original_penalty,
                self.original_makespan == old(self).original_makespan,
                population@.len() == n,
                forall|j: int| i <= j < n ==> #[trigger] population@[j] == old(population)@[j],
                forall|j: int| 0 <= j < i ==> (#[trigger] population@[j])@.fitness is Some,
                forall|j: int|
                    0 <= j < i && (#[trigger] old(population)@[j])@.fitness is Some
                        ==> population@[j]@ == old(population)@[j]@,
                evaluations == unset_count(old(population)@, i as int),
                0 <= evaluations <= i,
            decreases n - i,
        {
            proof {
                lemma_unset_count_bounds(old(population)@, i as int);
                if old(population)@[i as int]@.fitness is None {
                    lemma_eval_ready_same_instance(
                        old(self).interpreter,
                        self.interpreter,
                        old(population)@[i as int]@.chromosome,
                    );
                }
            }
            let fresh = self.evaluate_single(&mut population[i]);
            if fresh {
                evaluations = evaluations + 1;
            }
            i = i + 1;
        }
        evaluations
    }

    /// The start state: build `mu` individuals from the current chromosome's
    /// shape, evaluate them all, and seed the archive.
    #[verifier::loop_isolation(false)]
    pub fn run_start(&mut self) -> (r: (Vec<Individual>, i32))
        requires
            old(self).wf(),
            old(self).pmin <= old(self).pmax,
            forall|c: Seq<i32>|
                (c.len() == 2 * old(self).interpreter.schedule.assignments@.len() && (forall|g: int|
                    0 <= g < c.len() ==> old(self).pmin <= #[trigger] c[g] <= old(self).pmax))
                    ==> #[trigger] old(self).interpreter.eval_ready(c),
        ensures
            final(self).wf(),
            same_instance(final(self).interpreter.schedule, old(self).interpreter.schedule),
            r.0@.len() == (if old(self).mu >= 0 {
                old(self).mu as int
            } else {
                0
            }),
            forall|i: int| 0 <= i < r.0@.len() ==> (#[trigger] r.0@[i])@.fitness is Some,
            r.1 as int == r.0@.len(),
            hof_update_post(
                views_of(old(self).hall_of_fame.items@),
                views_of(r.0@),
                old(self).hall_of_fame.maxsize as int,
                views_of(final(self).hall_of_fame.items@),
            ),
    {
        let init = self.interpreter.get_chromosome();
        let mu = self.mu;
        let pmin = self.pmin;
        let pmax = self.pmax;
        let mut population = self.create_population(mu, &init, pmin, pmax);
        proof {
            assert forall|i: int|
                0 <= i < population@.len() implies ((#[trigger] population@[i])@.fitness is None
                ==> self.interpreter.eval_ready(population@[i]@.chromosome)) by {
                assert(population@[i]@.chromosome.len() == 2
                    * self.interpreter.schedule.assignments@.len());
            }
            lemma_unset_count_bounds(population@, population@.len() as int);
        }
        let evaluations = self.evaluate(&mut population);
        self.hall_of_fame.update(&population);
        (population, evaluations)
    }
}

/// Unevaluated copies of a population: the offspring of the repair-only
/// strategy, whose whole effect comes from re-evaluation with repair.
#[verifier::loop_isolation(false)]
pub fn unevaluated_copies(population: &Vec<Individual>) -> (r: Vec<Individual>)
    ensures
        r@.len() == population@.len(),
        forall|i: int|
            0 <= i < r@.len() ==> (#[trigger] r@[i])@.chromosome == population@[i]@.chromosome
                && r@[i]@.fitness is None,
{
    let n = population.len();
    let mut offspring: Vec<Individual> = Vec::new();
    let mut i: usize = 0;
    while i < n
        invariant
            0 <= i <= n,
            offspring@.len() == i,
            forall|j: int|
                0 <= j < i ==> (#[trigger] offspring@[j])@.chromosome
                    == population@[j]@.chromosome && offspring@[j]@.fitness is None,
        decreases n - i,
    {
        let copy = crate::selection::copy_values(&population[i].chromosome);
        offspring.push(Individual::from_vec(copy));
        i = i + 1;
    }
    offspring
}

/// The greedy replacement rule shared by the hill-climbing and repair-only
/// strategies: an offspring replaces its parent exactly when its fitness is
/// lexicographically smaller than or equal to the parent's.
#[verifier::loop_isolation(false)]
pub fn replace_if_smaller_or_equal(population: &mut Vec<Individual>, offspring: &Vec<Individual>)
    requires
        old(population)@.len() == offspring@.len(),
        forall|i: int|
            0 <= i < offspring@.len() ==> (#[trigger] old(population)@[i])@.fitness is Some && (
            #[trigger] offspring@[i])@.fitness is Some,
        forall|i: int|
            0 <= i < offspring@.len() ==> ((#[trigger] offspring@[i])@.fitness)->Some_0.len() <= ((
            #[trigger] old(population)@[i])@.fitness)->Some_0.len(),
    ensures
        final(population)@.len() == old(population)@.len(),
        forall|i: int|
            0 <= i < final(population)@.len() ==> (#[trigger] final(population)@[i])@ == (if lex_le(
                (offspring@[i])@.fitness->Some_0,
                (old(population)@[i])@.fitness->Some_0,
            ) {
                offspring@[i]@
            } else {
                old(population)@[i]@
            }),
{
    let n = offspring.len();
    let mut i: usize = 0;
    while i < n
        invariant
            0 <= i <= n,
            population@.len() == n,
            forall|j: int| i <= j < n ==> #[trigger] population@[j] == old(population)@[j],
            forall|j: int|
                0 <= j < i ==> (#[trigger] population@[j])@ == (if lex_le(
                    (offspring@[j])@.fitness->Some_0,
                    (old(population)@[j])@.fitness->Some_0,
                ) {
                    offspring@[j]@
                } else {
                    old(population)@[j]@
                }),
        decreases n - i,
    {
        let better = match (&offspring[i].fitness, &population[i].fitness) {
            (Some(of), Some(pf)) => is_smaller_or_equal_lexicographic(of, pf),
            _ => false,
        };
        if better {
            let replacement = offspring[i].duplicate();
            population[i] = replacement;
        }
        i = i + 1;
    }
}

} // verus!
