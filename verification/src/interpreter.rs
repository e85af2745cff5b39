//! The absolute interpreter: a bidirectional mapping between a flat integer
//! chromosome and the schedule's timing state. Gene `2i` is assignment `i`'s
//! start, gene `2i + 1` its duration; durations are clamped on decode exactly
//! as the assignment setters clamp them.

use crate::assignment::{ceil_div, clamp_duration, Assignment};
use crate::schedule::{
    arena_ready, index_permutation, ordered_pass_repaired, radius, score_headroom, step_bound,
    Schedule,
};
use vstd::prelude::*;

verus! {

/// An assignment as decoding rewrites it from its gene pair.
pub open spec fn decoded_assignment(a: Assignment, start_gene: i32, duration_gene: i32) -> Assignment {
    let d = clamp_duration(duration_gene as int);
    Assignment {
        start: start_gene,
        duration: d as i32,
        hours_per_day: ceil_div(a.hours as int, d) as i32,
        ..a
    }
}

/// The arena as decoding the chromosome leaves it.
pub open spec fn decoded_arena(arena: Seq<Assignment>, c: Seq<i32>) -> Seq<Assignment> {
    Seq::new(arena.len(), |i: int| decoded_assignment(arena[i], c[2 * i], c[2 * i + 1]))
}

pub struct AbsoluteScheduleInterpreter {
    pub schedule: Schedule,
}

impl AbsoluteScheduleInterpreter {
    pub fn new(schedule: Schedule) -> (r: AbsoluteScheduleInterpreter)
        ensures
            r.schedule == schedule,
    {
        AbsoluteScheduleInterpreter { schedule }
    }

    pub fn get_schedule(&self) -> (r: &Schedule)
        ensures
            r == &self.schedule,
    {
        &self.schedule
    }

    /// The machine-range room one evaluation needs: after decoding, one
    /// repair pass has headroom, and every score of any reachable state fits
    /// the stored score type.
    pub open spec fn eval_ready(self, c: Seq<i32>) -> bool {
        let dec = decoded_arena(self.schedule.assignments@, c);
        let cnt = self.schedule.constraints@.len() as int;
        let b = radius(dec) + 2 * step_bound(dec) * cnt;
        &&& c.len() >= 2 * self.schedule.assignments@.len()
        &&& radius(dec) + 2 * step_bound(dec) * (cnt + 1) <= i32::MAX
        &&& score_headroom(self.schedule.constraints@, b, step_bound(dec))
    }

    /// Write the chromosome into the schedule: gene `2i` becomes assignment
    /// `i`'s start and gene `2i + 1` its duration (clamped to at least 1).
    #[verifier::loop_isolation(false)]
    pub fn interpret(&mut self, chromosome: &Vec<i32>)
        requires
            old(self).schedule.wf(),
            chromosome@.len() >= 2 * old(self).schedule.assignments@.len(),
        ensures
            final(self).schedule.wf(),
            final(self).schedule.constraints@ == old(self).schedule.constraints@,
            final(self).schedule.assignments@ == decoded_arena(
                old(self).schedule.assignments@,
                chromosome@,
            ),
            arena_ready(final(self).schedule.assignments@),
    {
        let n = self.schedule.assignments.len();
        let genes = chromosome.len();
        let ghost orig = self.schedule.assignments@;
        let mut i: usize = 0;
        while i < n
            invariant
                0 <= i <= n,
                self.schedule.assignments@.len() == n,
                self.schedule.constraints@ == old(self).schedule.constraints@,
                forall|k: int|
                    0 <= k < i ==> (#[trigger] self.schedule.assignments@[k])
                        == decoded_assignment(orig[k], chromosome@[2 * k], chromosome@[2 * k + 1]),
                forall|k: int| i <= k < n ==> (#[trigger] self.schedule.assignments@[k]) == orig[k],
                self.schedule.wf(),
            decreases n - i,
        {
            proof {
                assert(2 * i + 1 < genes);
            }
            self.schedule.assignments[i].set_start(chromosome[2 * i]);
            self.schedule.assignments[i].set_duration(chromosome[2 * i + 1]);
            i = i + 1;
        }
        proof {
            assert(self.schedule.assignments@ =~= decoded_arena(orig, chromosome@));
        }
    }

    /// Read the schedule's timing state back out as a chromosome.
    #[verifier::loop_isolation(false)]
    pub fn get_chromosome(&self) -> (r: Vec<i32>)
        ensures
            r@.len() == 2 * self.schedule.assignments@.len(),
            forall|i: int|
                0 <= i < self.schedule.assignments@.len() ==> r@[2 * i] == (
                #[trigger] self.schedule.assignments@[i]).start && r@[2 * i + 1]
                    == self.schedule.assignments@[i].duration,
    {
        let n = self.schedule.assignments.len();
        let mut chromosome: Vec<i32> = Vec::new();
        let mut i: usize = 0;
        while i < n
            invariant
                0 <= i <= n,
                chromosome@.len() == 2 * i,
                forall|k: int|
                    0 <= k < i ==> chromosome@[2 * k] == (
                    #[trigger] self.schedule.assignments@[k]).start && chromosome@[2 * k + 1]
                        == self.schedule.assignments@[k].duration,
            decreases n - i,
        {
            let a = &self.schedule.assignments[i];
            chromosome.push(a.start);
            chromosome.push(a.duration);
            i = i + 1;
        }
        chromosome
    }

    /// The current `[penalty, makespan]` pair.
    pub fn get_scores(&self) -> (r: Vec<i32>)
        requires
            self.schedule.wf(),
            self.schedule.scores_fit(),
        ensures
            r@.len() == 2,
            r@[0] as int == self.schedule.total_penalty_spec(),
            r@[1] as int == self.schedule.total_makespan_spec(),
            r@[0] >= 0,
            r@[1] >= 0,
    {
        let penalty = self.schedule.get_total_penalty();
        let makespan = self.schedule.get_total_makespan();
        let mut scores: Vec<i32> = Vec::new();
        scores.push(penalty);
        scores.push(makespan);
        scores
    }

    /// Decode the chromosome, optionally run one shuffled repair pass with
    /// per-constraint probability `repair_num / repair_den`, and report the
    /// resulting `[penalty, makespan]`. The chromosome the schedule now
    /// stands for is read back with `get_chromosome`. The probability
    /// endpoints are exact: at 0 the schedule is exactly the decoded
    /// chromosome; at 1 every constraint's repair is attempted once, so the
    /// schedule is the fold of the repairs over the decoded state in some
    /// order of the constraints.
    pub fn evaluate(&mut self, chromosome: &Vec<i32>, repair_num: u32, repair_den: u32) -> (r: Vec<
        i32,
    >)
        requires
            old(self).schedule.wf(),
            old(self).schedule.capacities_positive(),
            0 < repair_den,
            repair_num <= repair_den,
            old(self).eval_ready(chromosome@),
        ensures
            final(self).schedule.wf(),
            arena_ready(final(self).schedule.assignments@),
            final(self).schedule.capacities_positive(),
            final(self).schedule.constraints@ == old(self).schedule.constraints@,
            final(self).schedule.assignments@.len() == old(self).schedule.assignments@.len(),
            forall|i: int|
                0 <= i < old(self).schedule.assignments@.len()
                    ==> (#[trigger] final(self).schedule.assignments@[i]).id == old(
                    self,
                ).schedule.assignments@[i].id && final(self).schedule.assignments@[i].hours == old(
                    self,
                ).schedule.assignments@[i].hours,
            r@.len() == 2,
            r@[0] as int == final(self).schedule.total_penalty_spec(),
            r@[1] as int == final(self).schedule.total_makespan_spec(),
            r@[0] >= 0,
            r@[1] >= 0,
            repair_num == 0 ==> final(self).schedule.assignments@ == decoded_arena(
                old(self).schedule.assignments@,
                chromosome@,
            ),
            repair_num == repair_den ==> (exists|order: Seq<usize>|
                #[trigger] index_permutation(order, old(self).schedule.constraints@.len() as int)
                    && final(self).schedule.assignments@ == ordered_pass_repaired(
                    old(self).schedule.constraints@,
                    order,
                    old(self).schedule.constraints@.len() as int,
                    decoded_arena(old(self).schedule.assignments@, chromosome@),
                )),
    {
        let ghost dec = decoded_arena(old(self).schedule.assignments@, chromosome@);
        let ghost cnt = self.schedule.constraints@.len() as int;
        let ghost b = radius(dec) + 2 * step_bound(dec) * cnt;
        let ghost d = step_bound(dec);
        self.interpret(chromosome);
        proof {
            crate::schedule::lemma_step_nonneg(dec);
            crate::schedule::lemma_radius_nonneg(dec);
            assert(2 * step_bound(dec) * cnt >= 0) by (nonlinear_arith)
                requires
                    step_bound(dec) >= 1,
                    cnt >= 0,
            ;
        }
        if repair_num > 0 {
            proof {
                assert(cnt * 1 == cnt);
            }
            self.schedule.repair_constraints(repair_num, repair_den, 1, true);
            proof {
                if repair_num == repair_den {
                    let order0 = choose|order: Seq<usize>|
                        #[trigger] index_permutation(order, cnt) && self.schedule.assignments@
                            == ordered_pass_repaired(
                            old(self).schedule.constraints@,
                            order,
                            cnt,
                            dec,
                        );
                    assert(index_permutation(order0, cnt) && self.schedule.assignments@
                        == ordered_pass_repaired(
                        old(self).schedule.constraints@,
                        order0,
                        cnt,
                        dec,
                    ));
                }
            }
        }
        proof {
            self.schedule.lemma_scores_fit(b, d);
        }
        self.get_scores()
    }
}


/// Two schedules over the same instance: the same constraints and the same
/// assignment identities and work; only timing may differ.
pub open spec fn same_instance(a: Schedule, b: Schedule) -> bool {
    &&& a.constraints@ == b.constraints@
    &&& a.assignments@.len() == b.assignments@.len()
    &&& forall|i: int|
        0 <= i < a.assignments@.len() ==> (#[trigger] a.assignments@[i]).id == b.assignments@[i].id
            && a.assignments@[i].hours == b.assignments@[i].hours
}

/// Whether an evaluation is in range depends only on the instance, not on
/// the timing state decoding is about to overwrite.
pub proof fn lemma_eval_ready_same_instance(
    a: AbsoluteScheduleInterpreter,
    b: AbsoluteScheduleInterpreter,
    c: Seq<i32>,
)
    requires
        same_instance(a.schedule, b.schedule),
    ensures
        a.eval_ready(c) == b.eval_ready(c),
{
    assert(decoded_arena(a.schedule.assignments@, c) =~= decoded_arena(
        b.schedule.assignments@,
        c,
    ));
}

} // verus!
