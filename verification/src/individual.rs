//! One candidate solution: an integer gene chromosome and an optional
//! `[penalty, makespan]` fitness, present only after evaluation.

use crate::selection::copy_values;
use vstd::prelude::*;

verus! {

pub struct Individual {
    pub chromosome: Vec<i32>,
    pub fitness: Option<Vec<i32>>,
}

/// What an individual amounts to: its gene values and its fitness values.
pub struct IndividualView {
    pub chromosome: Seq<i32>,
    pub fitness: Option<Seq<i32>>,
}

impl View for Individual {
    type V = IndividualView;

    open spec fn view(&self) -> IndividualView {
        IndividualView {
            chromosome: self.chromosome@,
            fitness: match self.fitness {
                Some(f) => Some(f@),
                None => None,
            },
        }
    }
}

impl Individual {
    /// An all-zero chromosome of the given length, not yet evaluated.
    #[verifier::loop_isolation(false)]
    pub fn new(size: usize) -> (r: Individual)
        ensures
            r@.chromosome.len() == size,
            forall|i: int| 0 <= i < size ==> r@.chromosome[i] == 0,
            r@.fitness is None,
    {
        let mut chromosome: Vec<i32> = Vec::new();
        let mut i: usize = 0;
        while i < size
            invariant
                0 <= i <= size,
                chromosome@.len() == i,
                forall|j: int| 0 <= j < i ==> chromosome@[j] == 0,
            decreases size - i,
        {
            chromosome.push(0);
            i = i + 1;
        }
        Individual { chromosome, fitness: None }
    }

    /// Wrap a chromosome, not yet evaluated.
    pub fn from_vec(chromosome: Vec<i32>) -> (r: Individual)
        ensures
            r@.chromosome == chromosome@,
            r@.fitness is None,
    {
        Individual { chromosome, fitness: None }
    }

    /// An owned copy equal to `self` in every observable part.
    pub fn duplicate(&self) -> (r: Individual)
        ensures
            r@ == self@,
    {
        let chromosome = copy_values(&self.chromosome);
        let fitness = match &self.fitness {
            Some(f) => Some(copy_values(f)),
            None => None,
        };
        Individual { chromosome, fitness }
    }
}

} // verus!
