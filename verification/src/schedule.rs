//! The schedule aggregate: the arena of assignments and the constraints over
//! them, with the penalty and makespan aggregations and the stochastic
//! constraint-repair procedure.

use crate::assignment::Assignment;
use crate::constraint::{
    same_resource_constraint, BaseConstraint, Constraint, RelationConstraint, ResourceConstraint,
};
use crate::rng::{chance, shuffle_order};
use vstd::prelude::*;

verus! {

/// The earliest start among the first `n` assignments (0 when there are none).
pub open spec fn min_start_upto(arena: Seq<Assignment>, n: int) -> int
    decreases n,
{
    if n <= 0 {
        0
    } else {
        let s = arena[n - 1].start as int;
        if n == 1 {
            s
        } else {
            let m = min_start_upto(arena, n - 1);
            if s < m {
                s
            } else {
                m
            }
        }
    }
}

/// The latest end among the first `n` assignments (0 when there are none).
pub open spec fn max_end_upto(arena: Seq<Assignment>, n: int) -> int
    decreases n,
{
    if n <= 0 {
        0
    } else {
        let e = arena[n - 1].end_spec();
        if n == 1 {
            e
        } else {
            let m = max_end_upto(arena, n - 1);
            if e > m {
                e
            } else {
                m
            }
        }
    }
}

#[derive(Debug)]
pub struct Schedule {
    pub assignments: Vec<Assignment>,
    pub constraints: Vec<Constraint>,
}

impl Schedule {
    /// Every assignment carries a consistent daily rate and every constraint
    /// refers only to assignments the arena holds.
    pub open spec fn wf(self) -> bool {
        &&& forall|i: int| 0 <= i < self.assignments@.len() ==> (#[trigger] self.assignments@[i]).wf()
        &&& forall|j: int|
            0 <= j < self.constraints@.len() ==> (#[trigger] self.constraints@[j]).valid(
                self.assignments@,
            )
    }

    /// The summed penalty of the first `n` constraints.
    pub open spec fn penalty_prefix(self, n: int) -> int
        decreases n,
    {
        if n <= 0 {
            0
        } else {
            self.penalty_prefix(n - 1) + self.constraints@[n - 1].penalty_spec(self.assignments@)
        }
    }

    /// The summed penalty of all constraints.
    pub open spec fn total_penalty_spec(self) -> int {
        self.penalty_prefix(self.constraints@.len() as int)
    }

    pub open spec fn start_spec(self) -> int {
        min_start_upto(self.assignments@, self.assignments@.len() as int)
    }

    pub open spec fn end_spec(self) -> int {
        max_end_upto(self.assignments@, self.assignments@.len() as int)
    }

    /// Last end minus first start; 0 for an empty schedule.
    pub open spec fn total_makespan_spec(self) -> int {
        self.end_spec() - self.start_spec()
    }

    /// Every score the schedule reports fits the stored score type.
    pub open spec fn scores_fit(self) -> bool {
        &&& forall|j: int|
            0 <= j < self.constraints@.len() ==> (#[trigger] self.constraints@[j]).penalty_fits(
                self.assignments@,
            )
        &&& self.total_penalty_spec() <= i32::MAX
        &&& forall|i: int|
            0 <= i < self.assignments@.len() ==> i32::MIN <= (
            #[trigger] self.assignments@[i]).end_spec() <= i32::MAX
        &&& self.total_makespan_spec() <= i32::MAX
    }

    pub fn new() -> (r: Schedule)
        ensures
            r.assignments@ == Seq::<Assignment>::empty(),
            r.constraints@ == Seq::<Constraint>::empty(),
            r.wf(),
    {
        Schedule { assignments: Vec::new(), constraints: Vec::new() }
    }

    pub fn add_assignment(&mut self, assignment: Assignment)
        requires
            old(self).wf(),
            assignment.wf(),
        ensures
            final(self).assignments@ == old(self).assignments@.push(assignment),
            final(self).constraints@ == old(self).constraints@,
            final(self).wf(),
    {
        proof {
            let arena = self.assignments@;
            let longer = arena.push(assignment);
            assert forall|j: int|
                0 <= j < self.constraints@.len() implies (#[trigger] self.constraints@[j]).valid(
                longer,
            ) by {
                self.lemma_valid_grows(j, arena, longer);
            }
        }
        self.assignments.push(assignment);
    }

    pub fn add_assignments(&mut self, assignments: Vec<Assignment>)
        requires
            old(self).wf(),
            forall|i: int| 0 <= i < assignments@.len() ==> (#[trigger] assignments@[i]).wf(),
        ensures
            final(self).assignments@ == old(self).assignments@ + assignments@,
            final(self).constraints@ == old(self).constraints@,
            final(self).wf(),
    {
        let n = assignments.len();
        let mut k: usize = 0;
        while k < n
            invariant
                0 <= k <= n,
                n == assignments@.len(),
                forall|i: int| 0 <= i < assignments@.len() ==> (#[trigger] assignments@[i]).wf(),
                self.assignments@ == old(self).assignments@ + assignments@.take(k as int),
                self.constraints@ == old(self).constraints@,
                self.wf(),
            decreases n - k,
        {
            self.add_assignment(assignments[k]);
            proof {
                assert(self.assignments@ == old(self).assignments@ + assignments@.take(
                    k + 1,
                )) by {
                    assert(assignments@.take(k + 1) == assignments@.take(k as int).push(
                        assignments@[k as int],
                    ));
                }
            }
            k = k + 1;
        }
        proof {
            assert(assignments@.take(n as int) == assignments@);
        }
    }

    pub fn add_constraint(&mut self, constraint: Constraint)
        requires
            old(self).wf(),
            constraint.valid(old(self).assignments@),
        ensures
            final(self).constraints@ == old(self).constraints@.push(constraint),
            final(self).assignments@ == old(self).assignments@,
            final(self).wf(),
    {
        self.constraints.push(constraint);
    }

    pub fn add_constraints(&mut self, constraints: Vec<Constraint>)
        requires
            old(self).wf(),
            forall|j: int|
                0 <= j < constraints@.len() ==> (#[trigger] constraints@[j]).valid(
                    old(self).assignments@,
                ),
        ensures
            final(self).constraints@ == old(self).constraints@ + constraints@,
            final(self).assignments@ == old(self).assignments@,
            final(self).wf(),
    {
        let ghost orig = constraints@;
        let mut constraints = constraints;
        while constraints.len() > 0
            invariant
                self.constraints@ + constraints@ == old(self).constraints@ + orig,
                forall|j: int|
                    0 <= j < constraints@.len() ==> (#[trigger] constraints@[j]).valid(
                        old(self).assignments@,
                    ),
                self.assignments@ == old(self).assignments@,
                self.wf(),
            decreases constraints@.len(),
        {
            let c = constraints.remove(0);
            self.add_constraint(c);
            proof {
                assert(self.constraints@ + constraints@ == old(self).constraints@ + orig);
            }
        }
        proof {
            assert(self.constraints@ == self.constraints@ + constraints@);
        }
    }

    /// A constraint stays valid when the arena only grows.
    proof fn lemma_valid_grows(self, j: int, arena: Seq<Assignment>, longer: Seq<Assignment>)
        requires
            0 <= j < self.constraints@.len(),
            self.constraints@[j].valid(arena),
            arena.len() <= longer.len(),
        ensures
            self.constraints@[j].valid(longer),
    {
    }

    pub fn get_start(&self) -> (r: i32)
        ensures
            r as int == self.start_spec(),
    {
        let n = self.assignments.len();
        if n == 0 {
            return 0;
        }
        let mut mn: i32 = self.assignments[0].start;
        let mut k: usize = 1;
        while k < n
            invariant
                1 <= k <= n,
                n == self.assignments@.len(),
                mn as int == min_start_upto(self.assignments@, k as int),
            decreases n - k,
        {
            let s = self.assignments[k].start;
            if s < mn {
                mn = s;
            }
            k = k + 1;
        }
        mn
    }

    #[verifier::loop_isolation(false)]
    pub fn get_end(&self) -> (r: i32)
        requires
            forall|i: int|
                0 <= i < self.assignments@.len() ==> i32::MIN <= (
                #[trigger] self.assignments@[i]).end_spec() <= i32::MAX,
        ensures
            r as int == self.end_spec(),
    {
        let n = self.assignments.len();
        if n == 0 {
            return 0;
        }
        let first = &self.assignments[0];
        let mut mx: i64 = first.start as i64 + first.duration as i64;
        let mut k: usize = 1;
        while k < n
            invariant
                1 <= k <= n,
                n == self.assignments@.len(),
                mx as int == max_end_upto(self.assignments@, k as int),
                i32::MIN <= mx <= i32::MAX,
            decreases n - k,
        {
            let a = &self.assignments[k];
            let e = a.start as i64 + a.duration as i64;
            if e > mx {
                mx = e;
            }
            k = k + 1;
        }
        mx as i32
    }

    pub fn get_total_makespan(&self) -> (r: i32)
        requires
            self.wf(),
            forall|i: int|
                0 <= i < self.assignments@.len() ==> i32::MIN <= (
                #[trigger] self.assignments@[i]).end_spec() <= i32::MAX,
            self.total_makespan_spec() <= i32::MAX,
        ensures
            r as int == self.total_makespan_spec(),
            r >= 0,
    {
        proof {
            if self.assignments@.len() > 0 {
                self.lemma_makespan_nonneg();
            }
        }
        let end = self.get_end();
        let start = self.get_start();
        let span = end as i64 - start as i64;
        span as i32
    }

    /// The latest end is never before the earliest start: the assignment with
    /// the earliest start ends at or after it.
    proof fn lemma_makespan_nonneg(self)
        requires
            self.wf(),
            self.assignments@.len() > 0,
        ensures
            self.end_spec() >= self.start_spec(),
    {
        let arena = self.assignments@;
        let n = arena.len() as int;
        let k = lemma_min_start_attained(arena, n);
        lemma_max_end_ge_upto(arena, k, n);
    }

    pub fn get_total_penalty(&self) -> (r: i32)
        requires
            self.wf(),
            forall|j: int|
                0 <= j < self.constraints@.len() ==> (#[trigger] self.constraints@[j]).penalty_fits(
                    self.assignments@,
                ),
            self.total_penalty_spec() <= i32::MAX,
        ensures
            r as int == self.total_penalty_spec(),
            r >= 0,
    {
        let n = self.constraints.len();
        let mut acc: i64 = 0;
        let mut k: usize = 0;
        while k < n
            invariant
                0 <= k <= n,
                n == self.constraints@.len(),
                self.wf(),
                forall|j: int|
                    0 <= j < self.constraints@.len() ==> (
                    #[trigger] self.constraints@[j]).penalty_fits(self.assignments@),
                self.total_penalty_spec() <= i32::MAX,
                acc == self.penalty_prefix(k as int),
                0 <= acc <= i32::MAX,
            decreases n - k,
        {
            let p = self.constraints[k].get_penalty(&self.assignments);
            proof {
                self.lemma_penalty_prefix_mono(k + 1, n as int);
            }
            acc = acc + p as i64;
            k = k + 1;
        }
        acc as i32
    }

    /// Prefix sums of penalties only grow: every constraint's penalty is
    /// non-negative.
    proof fn lemma_penalty_prefix_mono(self, k: int, n: int)
        requires
            0 <= k <= n <= self.constraints@.len(),
        ensures
            self.penalty_prefix(k) <= self.penalty_prefix(n),
        decreases n - k,
    {
        if k < n {
            self.lemma_penalty_prefix_mono(k, n - 1);
            self.constraints@[n - 1].penalty_nonneg(self.assignments@);
        }
    }
}

/// Some assignment among the first `n` attains the earliest start.
proof fn lemma_min_start_attained(arena: Seq<Assignment>, n: int) -> (k: int)
    requires
        1 <= n <= arena.len(),
    ensures
        0 <= k < n,
        arena[k].start as int == min_start_upto(arena, n),
    decreases n,
{
    if n == 1 {
        0
    } else {
        let s = arena[n - 1].start as int;
        let m = min_start_upto(arena, n - 1);
        if s < m {
            n - 1
        } else {
            lemma_min_start_attained(arena, n - 1)
        }
    }
}

/// The latest end among the first `n` assignments is at least the end of any
/// one of them; with non-negative durations it is at least that one's start.
proof fn lemma_max_end_ge_upto(arena: Seq<Assignment>, k: int, n: int)
    requires
        0 <= k < n <= arena.len(),
    ensures
        max_end_upto(arena, n) >= arena[k].end_spec(),
    decreases n,
{
    if k < n - 1 {
        lemma_max_end_ge_upto(arena, k, n - 1);
    }
}


/// The magnitude of a value.
pub open spec fn mag(x: int) -> int {
    if x < 0 {
        -x
    } else {
        x
    }
}

/// The largest `|start| + duration` among the first `n` assignments: a bound
/// on how far any timing value lies from zero.
pub open spec fn radius_upto(arena: Seq<Assignment>, n: int) -> int
    decreases n,
{
    if n <= 0 {
        0
    } else {
        let v = mag(arena[n - 1].start as int) + arena[n - 1].duration;
        let m = radius_upto(arena, n - 1);
        if v > m {
            v
        } else {
            m
        }
    }
}

pub open spec fn radius(arena: Seq<Assignment>) -> int {
    radius_upto(arena, arena.len() as int)
}

/// A bound on every duration and every `|hours|` among the first `n`
/// assignments, and at least 1: the most one repair step can move a start.
pub open spec fn step_bound_upto(arena: Seq<Assignment>, n: int) -> int
    decreases n,
{
    if n <= 0 {
        1
    } else {
        let v = vstd::math::max(arena[n - 1].duration as int, mag(arena[n - 1].hours as int));
        let m = step_bound_upto(arena, n - 1);
        if v > m {
            v
        } else {
            m
        }
    }
}

pub open spec fn step_bound(arena: Seq<Assignment>) -> int {
    step_bound_upto(arena, arena.len() as int)
}

/// Every assignment is well-formed with a duration of at least one day, as
/// the schedule invariant keeps them after decoding.
pub open spec fn arena_ready(arena: Seq<Assignment>) -> bool {
    forall|i: int|
        0 <= i < arena.len() ==> (#[trigger] arena[i]).wf() && arena[i].duration >= 1
}

proof fn lemma_radius_elem(arena: Seq<Assignment>, i: int, n: int)
    requires
        0 <= i < n <= arena.len(),
    ensures
        mag(arena[i].start as int) + arena[i].duration <= radius_upto(arena, n),
    decreases n,
{
    if i < n - 1 {
        lemma_radius_elem(arena, i, n - 1);
    }
}

proof fn lemma_radius_nonneg_upto(arena: Seq<Assignment>, n: int)
    ensures
        radius_upto(arena, n) >= 0,
    decreases n,
{
    if n > 0 {
        lemma_radius_nonneg_upto(arena, n - 1);
    }
}

proof fn lemma_radius_from_elementwise(arena: Seq<Assignment>, n: int, b: int)
    requires
        0 <= n <= arena.len(),
        b >= 0,
        forall|i: int| 0 <= i < n ==> mag((#[trigger] arena[i]).start as int) + arena[i].duration <= b,
    ensures
        radius_upto(arena, n) <= b,
    decreases n,
{
    if n > 0 {
        lemma_radius_from_elementwise(arena, n - 1, b);
    }
}

proof fn lemma_step_elem(arena: Seq<Assignment>, i: int, n: int)
    requires
        0 <= i < n <= arena.len(),
    ensures
        arena[i].duration <= step_bound_upto(arena, n),
        mag(arena[i].hours as int) <= step_bound_upto(arena, n),
        step_bound_upto(arena, n) >= 1,
    decreases n,
{
    lemma_step_nonneg_upto(arena, n);
    if i < n - 1 {
        lemma_step_elem(arena, i, n - 1);
    }
}

proof fn lemma_step_nonneg_upto(arena: Seq<Assignment>, n: int)
    ensures
        step_bound_upto(arena, n) >= 1,
    decreases n,
{
    if n > 0 {
        lemma_step_nonneg_upto(arena, n - 1);
    }
}

proof fn lemma_step_from_elementwise(arena: Seq<Assignment>, n: int, b: int)
    requires
        0 <= n <= arena.len(),
        b >= 1,
        forall|i: int|
            0 <= i < n ==> (#[trigger] arena[i]).duration <= b && mag(arena[i].hours as int) <= b,
    ensures
        step_bound_upto(arena, n) <= b,
    decreases n,
{
    if n > 0 {
        lemma_step_from_elementwise(arena, n - 1, b);
    }
}

/// After the capacity-repair walk, every duration is bounded by its old value
/// or by `max(1, |hours|)`.
proof fn lemma_stretched_durations(rc: ResourceConstraint, arena: Seq<Assignment>, n: int)
    requires
        0 <= n <= rc.assignments@.len(),
        rc.indices_in(arena),
        rc.resource.capacity >= 1,
    ensures
        forall|i: int|
            0 <= i < arena.len() ==> {
                let d = (#[trigger] rc.stretched_prefix(arena, n)[i]).duration as int;
                d <= arena[i].duration || d <= vstd::math::max(1, mag(arena[i].hours as int))
            },
    decreases n,
{
    rc.lemma_stretched_prefix_props(arena, n);
    if n > 0 {
        lemma_stretched_durations(rc, arena, n - 1);
        rc.lemma_stretched_prefix_props(arena, n - 1);
        let prev = rc.stretched_prefix(arena, n - 1);
        let idx = rc.assignments@[n - 1] as int;
        if prev[idx].hours_per_day > rc.resource.capacity {
            let a = prev[idx];
            let cap = rc.resource.capacity as int;
            crate::assignment::lemma_ceil_div_bounds(a.hours as int, cap);
        }
    }
}

/// Bounds on the arena one repair attempt leaves: the radius grows by at most
/// two steps, and the step bound never grows.
proof fn lemma_repair_growth(c: Constraint, arena: Seq<Assignment>)
    requires
        c.valid(arena),
        c.repair_fits(arena),
        arena_ready(arena),
    ensures
        radius(c.repaired(arena)) <= radius(arena) + 2 * step_bound(arena),
        step_bound(c.repaired(arena)) <= step_bound(arena),
{
    let after = c.repaired(arena);
    let n = arena.len() as int;
    let r0 = radius(arena);
    let d0 = step_bound(arena);
    lemma_radius_nonneg_upto(arena, n);
    lemma_step_nonneg_upto(arena, n);
    c.repaired_properties(arena);
    match c {
        Constraint::Relation(rel) => {
            if rel.violation(arena) > 0 {
                let p = arena[rel.predecessor as int];
                let su = arena[rel.successor as int];
                lemma_radius_elem(arena, rel.predecessor as int, n);
                lemma_radius_elem(arena, rel.successor as int, n);
                lemma_step_elem(arena, rel.predecessor as int, n);
                lemma_step_elem(arena, rel.successor as int, n);
                assert forall|i: int| 0 <= i < n implies mag((#[trigger] after[i]).start as int)
                    + after[i].duration <= r0 + 2 * d0 by {
                    lemma_radius_elem(arena, i, n);
                }
                lemma_radius_from_elementwise(after, n, r0 + 2 * d0);
                assert forall|i: int| 0 <= i < n implies (#[trigger] after[i]).duration <= d0 && mag(
                    after[i].hours as int,
                ) <= d0 by {
                    lemma_step_elem(arena, i, n);
                }
                lemma_step_from_elementwise(after, n, d0);
            }
        },
        Constraint::Resource(rc) => {
            if c.penalty_spec(arena) > 0 {
                let m = rc.assignments@.len() as int;
                rc.lemma_stretched_prefix_props(arena, m);
                lemma_stretched_durations(rc, arena, m);
                assert forall|i: int| 0 <= i < n implies mag((#[trigger] after[i]).start as int)
                    + after[i].duration <= r0 + 2 * d0 by {
                    lemma_radius_elem(arena, i, n);
                    lemma_step_elem(arena, i, n);
                }
                lemma_radius_from_elementwise(after, n, r0 + 2 * d0);
                assert forall|i: int| 0 <= i < n implies (#[trigger] after[i]).duration <= d0 && mag(
                    after[i].hours as int,
                ) <= d0 by {
                    lemma_step_elem(arena, i, n);
                }
                lemma_step_from_elementwise(after, n, d0);
            }
        },
    }
}

/// Under the radius and step bounds, any violated relation's repair writes
/// values the machine range holds, and a capacity repair only needs its
/// positive capacity.
proof fn lemma_repair_fits_from_bounds(c: Constraint, arena: Seq<Assignment>)
    requires
        c.valid(arena),
        arena_ready(arena),
        c matches Constraint::Resource(rc) ==> rc.resource.capacity >= 1,
        radius(arena) + 2 * step_bound(arena) <= i32::MAX,
    ensures
        c.repair_fits(arena),
{
    let n = arena.len() as int;
    lemma_radius_nonneg_upto(arena, n);
    lemma_step_nonneg_upto(arena, n);
    match c {
        Constraint::Relation(rel) => {
            lemma_radius_elem(arena, rel.predecessor as int, n);
            lemma_radius_elem(arena, rel.successor as int, n);
            lemma_step_elem(arena, rel.successor as int, n);
        },
        Constraint::Resource(rc) => {},
    }
}

/// Every index a permutation of `0..bound` holds is below `bound`.
proof fn lemma_permuted_indices_bounded(a: Seq<usize>, b: Seq<usize>, bound: int)
    requires
        a.to_multiset() == b.to_multiset(),
        forall|k: int| 0 <= k < a.len() ==> (#[trigger] a[k]) < bound,
    ensures
        forall|k: int| 0 <= k < b.len() ==> (#[trigger] b[k]) < bound,
{
    a.to_multiset_ensures();
    b.to_multiset_ensures();
    assert forall|k: int| 0 <= k < b.len() implies (#[trigger] b[k]) < bound by {
        assert(b.contains(b[k]));
        assert(b.to_multiset().count(b[k]) > 0);
        assert(a.contains(b[k]));
    }
}

/// The arena after the first `n` constraints' repair attempts, made in
/// order, each on the arena the previous attempts left.
pub open spec fn repaired_prefix(cs: Seq<Constraint>, n: int, arena: Seq<Assignment>) -> Seq<
    Assignment,
>
    decreases n,
{
    if n <= 0 {
        arena
    } else {
        cs[n - 1].repaired(repaired_prefix(cs, n - 1, arena))
    }
}

/// Whether any of the first `n` in-order repair attempts reports a change.
pub open spec fn pass_changes_prefix(cs: Seq<Constraint>, n: int, arena: Seq<Assignment>) -> bool
    decreases n,
{
    if n <= 0 {
        false
    } else {
        pass_changes_prefix(cs, n - 1, arena) || cs[n - 1].repair_changes(
            repaired_prefix(cs, n - 1, arena),
        )
    }
}

/// The arena after `p` whole in-order repair passes.
pub open spec fn passes_repaired(cs: Seq<Constraint>, p: int, arena: Seq<Assignment>) -> Seq<
    Assignment,
>
    decreases p,
{
    if p <= 0 {
        arena
    } else {
        repaired_prefix(cs, cs.len() as int, passes_repaired(cs, p - 1, arena))
    }
}

/// How many of up to `max_loops` in-order passes actually run: the change
/// flag is never reset, so the run stops after the first pass exactly when
/// that pass reports no change, and otherwise every pass runs.
pub open spec fn executed_passes(cs: Seq<Constraint>, max_loops: int, arena: Seq<Assignment>) -> int {
    if max_loops <= 0 {
        0
    } else if !pass_changes_prefix(cs, cs.len() as int, arena) {
        1
    } else {
        max_loops
    }
}

/// The arena after the first `n` repair attempts of a pass that visits the
/// constraints in the order the index list gives.
pub open spec fn ordered_pass_repaired(
    cs: Seq<Constraint>,
    order: Seq<usize>,
    n: int,
    arena: Seq<Assignment>,
) -> Seq<Assignment>
    decreases n,
{
    if n <= 0 {
        arena
    } else {
        cs[order[n - 1] as int].repaired(ordered_pass_repaired(cs, order, n - 1, arena))
    }
}

/// Whether any of those `n` attempts reports a change.
pub open spec fn ordered_pass_changes(
    cs: Seq<Constraint>,
    order: Seq<usize>,
    n: int,
    arena: Seq<Assignment>,
) -> bool
    decreases n,
{
    if n <= 0 {
        false
    } else {
        ordered_pass_changes(cs, order, n - 1, arena) || cs[order[n - 1] as int].repair_changes(
            ordered_pass_repaired(cs, order, n - 1, arena),
        )
    }
}

/// The index list names each of `0..n` exactly once.
pub open spec fn index_permutation(order: Seq<usize>, n: int) -> bool {
    &&& order.len() == n
    &&& forall|k: int| 0 <= k < order.len() ==> (#[trigger] order[k]) < n
    &&& forall|x: int, y: int|
        #![trigger order[x], order[y]]
        0 <= x < y < order.len() ==> order[x] != order[y]
}

/// Visiting the constraints in identity order is the in-order pass.
proof fn lemma_identity_pass(cs: Seq<Constraint>, order: Seq<usize>, n: int, arena: Seq<Assignment>)
    requires
        0 <= n <= order.len(),
        forall|k: int| 0 <= k < order.len() ==> (#[trigger] order[k]) as int == k,
    ensures
        ordered_pass_repaired(cs, order, n, arena) == repaired_prefix(cs, n, arena),
        ordered_pass_changes(cs, order, n, arena) == pass_changes_prefix(cs, n, arena),
    decreases n,
{
    if n > 0 {
        lemma_identity_pass(cs, order, n - 1, arena);
    }
}

/// A sequence of pairwise-distinct values holds each value at most once.
proof fn lemma_distinct_counts(s: Seq<usize>)
    requires
        forall|x: int, y: int|
            #![trigger s[x], s[y]]
            0 <= x < y < s.len() ==> s[x] != s[y],
    ensures
        forall|v: usize| s.to_multiset().count(v) <= 1,
    decreases s.len(),
{
    s.to_multiset_ensures();
    if s.len() > 0 {
        let sub = s.drop_last();
        sub.to_multiset_ensures();
        lemma_distinct_counts(sub);
        assert(s =~= sub.push(s.last()));
        assert forall|v: usize| s.to_multiset().count(v) <= 1 by {
            assert(s.to_multiset() =~= sub.to_multiset().insert(s.last()));
            if v == s.last() && sub.to_multiset().count(v) > 0 {
                assert(sub.contains(v));
                let i = choose|i: int| 0 <= i < sub.len() && sub[i] == v;
                assert(s[i] == s[s.len() - 1]);
            }
        }
    }
}

/// Two equal positions force a count of at least two.
proof fn lemma_dup_counts(s: Seq<usize>, x: int, y: int)
    requires
        0 <= x < y < s.len(),
        s[x] == s[y],
    ensures
        s.to_multiset().count(s[x]) >= 2,
{
    broadcast use vstd::multiset::group_multiset_axioms;

    s.to_multiset_ensures();
    let r = s.remove(x);
    r.to_multiset_ensures();
    assert(r.to_multiset() =~= s.to_multiset().remove(s[x]));
    assert(r[y - 1] == s[y]);
    assert(r.contains(s[x]));
    assert(s.contains(s[x]));
    assert(r.to_multiset().count(s[x]) >= 1);
    let m = s.to_multiset();
    vstd::multiset::lemma_update_same::<usize>(m, s[x], (m.count(s[x]) - 1) as nat);
    assert(m.remove(s[x]).count(s[x]) == (m.count(s[x]) - 1) as nat);
}

/// A multiset-preserving reordering of the identity index list is a
/// permutation of those indices.
proof fn lemma_index_permutation_holds(identity: Seq<usize>, b: Seq<usize>, n: int)
    requires
        identity.len() == n,
        forall|k: int| 0 <= k < identity.len() ==> (#[trigger] identity[k]) as int == k,
        b.to_multiset() == identity.to_multiset(),
        b.len() == n,
        n >= 0,
    ensures
        index_permutation(b, n),
{
    lemma_permuted_indices_bounded(identity, b, n);
    lemma_distinct_counts(identity);
    assert forall|x: int, y: int|
        #![trigger b[x], b[y]]
        0 <= x < y < b.len() implies b[x] != b[y] by {
        if b[x] == b[y] {
            lemma_dup_counts(b, x, y);
        }
    }
}

impl Schedule {
    /// Every resource constraint's capacity is positive, so capacity repair
    /// is meaningful.
    pub open spec fn capacities_positive(self) -> bool {
        forall|j: int|
            0 <= j < self.constraints@.len() ==> ((#[trigger] self.constraints@[j]) matches
                Constraint::Resource(rc) ==> rc.resource.capacity >= 1)
    }

    /// Room left in the machine range for `attempts` repair steps from the
    /// current state.
    pub open spec fn repair_headroom(self, attempts: int) -> bool {
        radius(self.assignments@) + 2 * step_bound(self.assignments@) * (attempts + 1) <= i32::MAX
    }

    /// Run up to `max_loops` passes over the constraints, in an optionally
    /// shuffled order, attempting each constraint's repair with probability
    /// `num / den`; stop early after a pass in which no attempted repair has
    /// reported a change since the start. Repair rewrites timing only: the
    /// schedule's structure, every assignment's identity and work, and
    /// well-formedness are kept, and every timing value stays within the
    /// headroom the precondition grants. The probability endpoints are exact:
    /// at 0 nothing is attempted and the arena is unchanged; at 1 every
    /// constraint's repair is attempted each pass, so an unshuffled run is
    /// the deterministic in-order fold of the repairs over the executed
    /// passes, and a single shuffled pass is that fold over some permutation
    /// of the constraints.
    #[verifier::loop_isolation(false)]
    pub fn repair_constraints(&mut self, num: u32, den: u32, max_loops: i32, shuffle: bool)
        requires
            old(self).wf(),
            arena_ready(old(self).assignments@),
            old(self).capacities_positive(),
            0 < den,
            num <= den,
            old(self).repair_headroom(
                old(self).constraints@.len() * (if max_loops >= 0 {
                    max_loops as int
                } else {
                    0
                }),
            ),
        ensures
            final(self).wf(),
            arena_ready(final(self).assignments@),
            final(self).capacities_positive(),
            final(self).constraints@ == old(self).constraints@,
            final(self).assignments@.len() == old(self).assignments@.len(),
            forall|i: int|
                0 <= i < old(self).assignments@.len()
                    ==> (#[trigger] final(self).assignments@[i]).id == old(self).assignments@[i].id
                    && final(self).assignments@[i].hours == old(self).assignments@[i].hours,
            radius(final(self).assignments@) + 2 * step_bound(final(self).assignments@)
                <= i32::MAX,
            radius(final(self).assignments@) <= radius(old(self).assignments@) + 2 * step_bound(
                old(self).assignments@,
            ) * (old(self).constraints@.len() * (if max_loops >= 0 {
                max_loops as int
            } else {
                0
            })),
            step_bound(final(self).assignments@) <= step_bound(old(self).assignments@),
            num == 0 ==> final(self).assignments@ == old(self).assignments@,
            num == den && !shuffle ==> final(self).assignments@ == passes_repaired(
                old(self).constraints@,
                executed_passes(old(self).constraints@, max_loops as int, old(self).assignments@),
                old(self).assignments@,
            ),
            num == den && max_loops == 1 ==> (exists|order: Seq<usize>|
                #[trigger] index_permutation(order, old(self).constraints@.len() as int)
                    && final(self).assignments@ == ordered_pass_repaired(
                    old(self).constraints@,
                    order,
                    old(self).constraints@.len() as int,
                    old(self).assignments@,
                )),
    {
        let ghost big_l: int = if max_loops >= 0 {
            max_loops as int
        } else {
            0
        };
        let ghost cnt: int = self.constraints@.len() as int;
        let ghost cs0: Seq<Constraint> = self.constraints@;
        let ghost arena0: Seq<Assignment> = self.assignments@;
        let ghost d0: int = step_bound(old(self).assignments@);
        let ghost r0: int = radius(old(self).assignments@);
        proof {
            lemma_step_nonneg_upto(old(self).assignments@, old(self).assignments@.len() as int);
            lemma_radius_nonneg_upto(old(self).assignments@, old(self).assignments@.len() as int);
        }
        let n_constraints = self.constraints.len();
        let mut order: Vec<usize> = Vec::new();
        let mut i: usize = 0;
        while i < n_constraints
            invariant
                0 <= i <= n_constraints,
                order@.len() == i,
                forall|k: int| 0 <= k < i ==> (#[trigger] order@[k]) as int == k,
            decreases n_constraints - i,
        {
            order.push(i);
            i = i + 1;
        }
        let ghost identity_order = order@;
        let mut corrected = false;
        let mut stop = false;
        let mut pass: i32 = 0;
        while pass < max_loops && !stop
            invariant
                0 <= pass,
                max_loops >= 0 ==> pass <= max_loops,
                self.wf(),
                arena_ready(self.assignments@),
                self.capacities_positive(),
                self.constraints@ == old(self).constraints@,
                self.assignments@.len() == old(self).assignments@.len(),
                forall|i: int|
                    0 <= i < old(self).assignments@.len() ==> (
                    #[trigger] self.assignments@[i]).id == old(self).assignments@[i].id
                        && self.assignments@[i].hours == old(self).assignments@[i].hours,
                step_bound(self.assignments@) <= d0,
                pass <= big_l,
                radius(self.assignments@) + 2 * d0 * (cnt * (big_l - pass) + 1) <= i32::MAX,
                radius(self.assignments@) <= r0 + 2 * d0 * (cnt * pass),
                num == 0 ==> self.assignments@ == old(self).assignments@,
                order@.to_multiset() == identity_order.to_multiset(),
                order@.len() == n_constraints,
                !shuffle ==> order@ == identity_order,
                pass == 0 ==> !corrected && !stop && self.assignments@ == arena0,
                num == den && !shuffle ==> self.assignments@ == passes_repaired(
                    cs0,
                    pass as int,
                    arena0,
                ),
                num == den && !shuffle && stop ==> pass == 1 && !pass_changes_prefix(
                    cs0,
                    cnt,
                    arena0,
                ),
                num == den && !shuffle && pass >= 1 && !stop ==> corrected
                    && pass_changes_prefix(cs0, cnt, arena0),
                num == den && pass == 1 ==> (exists|order2: Seq<usize>|
                    #[trigger] index_permutation(order2, cnt) && self.assignments@
                        == ordered_pass_repaired(cs0, order2, cnt, arena0)),
            decreases (if max_loops >= 0 { max_loops as int } else { 0int }) - pass + (if stop { 0int } else { 1int }),
        {
            if shuffle {
                shuffle_order(&mut order);
            }
            let ghost pass_arena: Seq<Assignment> = self.assignments@;
            let ghost corr_start: bool = corrected;
            proof {
                lemma_permuted_indices_bounded(identity_order, order@, n_constraints as int);
                assert(cnt * (big_l - pass - 1) + cnt == cnt * (big_l - pass)) by (nonlinear_arith);
            }
            let mut j: usize = 0;
            while j < n_constraints
                invariant
                    0 <= j <= n_constraints,
                    self.wf(),
                    arena_ready(self.assignments@),
                    self.capacities_positive(),
                    self.constraints@ == old(self).constraints@,
                    self.assignments@.len() == old(self).assignments@.len(),
                    forall|i: int|
                        0 <= i < old(self).assignments@.len() ==> (
                        #[trigger] self.assignments@[i]).id == old(self).assignments@[i].id
                            && self.assignments@[i].hours == old(self).assignments@[i].hours,
                    step_bound(self.assignments@) <= d0,
                    radius(self.assignments@) + 2 * d0 * (cnt * (big_l - pass - 1) + (cnt - j)
                        + 1) <= i32::MAX,
                    radius(self.assignments@) <= r0 + 2 * d0 * (cnt * pass + j),
                    num == 0 ==> self.assignments@ == old(self).assignments@,
                    forall|k: int| 0 <= k < order@.len() ==> (#[trigger] order@[k]) < n_constraints,
                    order@.to_multiset() == identity_order.to_multiset(),
                    order@.len() == n_constraints,
                    num == den ==> self.assignments@ == ordered_pass_repaired(
                        cs0,
                        order@,
                        j as int,
                        pass_arena,
                    ),
                    num == den ==> corrected == (corr_start || ordered_pass_changes(
                        cs0,
                        order@,
                        j as int,
                        pass_arena,
                    )),
                decreases n_constraints - j,
            {
                if chance(num, den) {
                    let idx = order[j];
                    let ghost arena_before = self.assignments@;
                    proof {
                        lemma_step_nonneg_upto(arena_before, arena_before.len() as int);
                        lemma_radius_nonneg_upto(arena_before, arena_before.len() as int);
                        assert(cnt * (big_l - pass - 1) >= 0) by (nonlinear_arith)
                            requires
                                cnt >= 0,
                                big_l - pass - 1 >= 0,
                        ;
                        let f = cnt * (big_l - pass - 1) + (cnt - j) + 1;
                        assert(2 * d0 * f >= 2 * d0 * 2) by (nonlinear_arith)
                            requires
                                d0 >= 1,
                                f >= 2,
                        ;
                        assert(radius(arena_before) + 2 * step_bound(arena_before) <= i32::MAX);
                        lemma_repair_fits_from_bounds(
                            self.constraints@[idx as int],
                            arena_before,
                        );
                    }
                    let changed = self.constraints[idx].attempt_repair(&mut self.assignments);
                    corrected = corrected || changed;
                    proof {
                        let c = self.constraints@[idx as int];
                        c.repaired_properties(arena_before);
                        lemma_repair_growth(c, arena_before);
                    }
                }
                proof {
                    let f_old = cnt * (big_l - pass - 1) + (cnt - j) + 1;
                    let f_new = cnt * (big_l - pass - 1) + (cnt - (j + 1)) + 1;
                    assert(2 * d0 * f_new == 2 * d0 * f_old - 2 * d0) by (nonlinear_arith)
                        requires
                            f_new == f_old - 1,
                    ;
                    let g_old = cnt * pass + j;
                    let g_new = cnt * pass + (j + 1);
                    assert(2 * d0 * g_new == 2 * d0 * g_old + 2 * d0) by (nonlinear_arith)
                        requires
                            g_new == g_old + 1,
                    ;
                }
                j = j + 1;
            }
            proof {
                assert(cnt * (big_l - pass - 1) + 1 <= cnt * (big_l - (pass + 1)) + 1);
                assert(cnt * pass + cnt == cnt * (pass + 1)) by (nonlinear_arith);
                if num == den {
                    if pass == 0 {
                        lemma_index_permutation_holds(identity_order, order@, cnt);
                        assert(index_permutation(order@, cnt) && self.assignments@
                            == ordered_pass_repaired(cs0, order@, cnt, arena0));
                    }
                    if !shuffle {
                        lemma_identity_pass(cs0, order@, cnt, pass_arena);
                        assert(self.assignments@ == repaired_prefix(cs0, cnt, pass_arena));
                        assert(corrected == (corr_start || pass_changes_prefix(
                            cs0,
                            cnt,
                            pass_arena,
                        )));
                        assert(passes_repaired(cs0, pass + 1, arena0) == repaired_prefix(
                            cs0,
                            cnt,
                            passes_repaired(cs0, pass as int, arena0),
                        ));
                    }
                }
            }
            if !corrected {
                stop = true;
            }
            pass = pass + 1;
        }
        proof {
            lemma_step_nonneg_upto(self.assignments@, self.assignments@.len() as int);
            assert(cnt * (big_l - pass) >= 0) by (nonlinear_arith)
                requires
                    cnt >= 0,
                    big_l - pass >= 0,
            ;
            assert(2 * d0 * (cnt * (big_l - pass) + 1) >= 2 * d0) by (nonlinear_arith)
                requires
                    d0 >= 1,
                    cnt * (big_l - pass) >= 0,
            ;
            assert(2 * step_bound(self.assignments@) <= 2 * d0);
            assert(cnt * pass <= cnt * big_l) by (nonlinear_arith)
                requires
                    cnt >= 0,
                    pass <= big_l,
            ;
            assert(2 * d0 * (cnt * pass) <= 2 * d0 * (cnt * big_l)) by (nonlinear_arith)
                requires
                    d0 >= 1,
                    cnt * pass <= cnt * big_l,
            ;
            if num == den && !shuffle {
                if max_loops <= 0 {
                    assert(pass == 0);
                    assert(executed_passes(cs0, max_loops as int, arena0) == 0);
                } else if stop {
                    assert(pass == 1 && !pass_changes_prefix(cs0, cnt, arena0));
                    assert(executed_passes(cs0, max_loops as int, arena0) == 1);
                } else {
                    assert(pass == max_loops);
                    assert(pass >= 1);
                    assert(pass_changes_prefix(cs0, cnt, arena0));
                    assert(executed_passes(cs0, max_loops as int, arena0) == max_loops as int);
                }
            }
        }
    }
}


/// The relation constraints among the first `n` constraints, in order.
pub open spec fn relations_upto(cs: Seq<Constraint>, n: int) -> Seq<RelationConstraint>
    decreases n,
{
    if n <= 0 {
        Seq::empty()
    } else {
        let prev = relations_upto(cs, n - 1);
        match cs[n - 1] {
            Constraint::Relation(c) => prev.push(c),
            Constraint::Resource(_) => prev,
        }
    }
}

/// The resource constraints among the first `n` constraints, in order.
pub open spec fn resources_upto(cs: Seq<Constraint>, n: int) -> Seq<ResourceConstraint>
    decreases n,
{
    if n <= 0 {
        Seq::empty()
    } else {
        let prev = resources_upto(cs, n - 1);
        match cs[n - 1] {
            Constraint::Relation(_) => prev,
            Constraint::Resource(c) => prev.push(c),
        }
    }
}

impl Schedule {
    /// Split the constraint list by kind, keeping each kind's order.
    #[verifier::loop_isolation(false)]
    pub fn get_constraints_per_type(&self) -> (r: (Vec<ResourceConstraint>, Vec<RelationConstraint>))
        ensures
            r.1@ == relations_upto(self.constraints@, self.constraints@.len() as int),
            r.0@.len() == resources_upto(self.constraints@, self.constraints@.len() as int).len(),
            forall|k: int|
                0 <= k < r.0@.len() ==> same_resource_constraint(
                    #[trigger] r.0@[k],
                    resources_upto(self.constraints@, self.constraints@.len() as int)[k],
                ),
    {
        let n = self.constraints.len();
        let mut resource_constraints: Vec<ResourceConstraint> = Vec::new();
        let mut relation_constraints: Vec<RelationConstraint> = Vec::new();
        let mut j: usize = 0;
        while j < n
            invariant
                0 <= j <= n,
                relation_constraints@ == relations_upto(self.constraints@, j as int),
                resource_constraints@.len() == resources_upto(self.constraints@, j as int).len(),
                forall|k: int|
                    0 <= k < resource_constraints@.len() ==> same_resource_constraint(
                        #[trigger] resource_constraints@[k],
                        resources_upto(self.constraints@, j as int)[k],
                    ),
            decreases n - j,
        {
            match &self.constraints[j] {
                Constraint::Relation(c) => {
                    relation_constraints.push(*c);
                },
                Constraint::Resource(c) => {
                    resource_constraints.push(c.duplicate());
                },
            }
            j = j + 1;
        }
        (resource_constraints, relation_constraints)
    }
}


/// A bound on one constraint's penalty over any arena with radius at most `b`
/// and step bound at most `d`.
pub open spec fn constraint_penalty_cap(c: Constraint, b: int, d: int) -> int {
    match c {
        Constraint::Relation(_) => 2 * b,
        Constraint::Resource(rc) => 2 * b * (rc.assignments@.len() * d + mag(
            rc.resource.capacity as int,
        )),
    }
}

/// The summed penalty bound of the first `n` constraints.
pub open spec fn penalty_cap_prefix(cs: Seq<Constraint>, n: int, b: int, d: int) -> int
    decreases n,
{
    if n <= 0 {
        0
    } else {
        penalty_cap_prefix(cs, n - 1, b, d) + constraint_penalty_cap(cs[n - 1], b, d)
    }
}

/// Room in the stored score type for every penalty, the total penalty and the
/// makespan, over any arena with radius at most `b` and step bound at most
/// `d`.
pub open spec fn score_headroom(cs: Seq<Constraint>, b: int, d: int) -> bool {
    &&& 2 * b <= i32::MAX
    &&& penalty_cap_prefix(cs, cs.len() as int, b, d) <= i32::MAX
}

/// A well-formed assignment's daily rate is bounded by its work.
proof fn lemma_hpd_bounded(a: Assignment, d: int)
    requires
        a.wf(),
        a.duration >= 1,
        mag(a.hours as int) <= d,
    ensures
        mag(a.hours_per_day as int) <= d,
{
    crate::assignment::lemma_ceil_div_bounds(a.hours as int, a.duration as int);
}

proof fn lemma_abs_rates_bound(rc: ResourceConstraint, arena: Seq<Assignment>, n: int, d: int)
    requires
        arena_ready(arena),
        rc.indices_in(arena),
        0 <= n <= rc.assignments@.len(),
        step_bound(arena) <= d,
        d >= 1,
    ensures
        rc.abs_rates_prefix(arena, n) <= n * d,
    decreases n,
{
    if n > 0 {
        lemma_abs_rates_bound(rc, arena, n - 1, d);
        let i = rc.assignments@[n - 1] as int;
        lemma_step_elem(arena, i, arena.len() as int);
        lemma_hpd_bounded(arena[i], d);
        assert((n - 1) * d + d == n * d) by (nonlinear_arith);
    }
}

proof fn lemma_excess_bound(rc: ResourceConstraint, arena: Seq<Assignment>, day: int, d: int)
    requires
        arena_ready(arena),
        rc.indices_in(arena),
        step_bound(arena) <= d,
        d >= 1,
    ensures
        0 <= rc.excess_on(arena, day) <= rc.assignments@.len() * d + mag(
            rc.resource.capacity as int,
        ),
{
    let n = rc.assignments@.len() as int;
    rc.lemma_required_prefix_bound(arena, n, day);
    lemma_abs_rates_bound(rc, arena, n, d);
}

proof fn lemma_penalty_range_bound(
    rc: ResourceConstraint,
    arena: Seq<Assignment>,
    lo: int,
    hi: int,
    d: int,
)
    requires
        arena_ready(arena),
        rc.indices_in(arena),
        step_bound(arena) <= d,
        d >= 1,
        lo <= hi,
    ensures
        rc.penalty_range(arena, lo, hi) <= (hi - lo) * (rc.assignments@.len() * d + mag(
            rc.resource.capacity as int,
        )),
    decreases hi - lo,
{
    let e = rc.assignments@.len() * d + mag(rc.resource.capacity as int);
    if lo < hi {
        lemma_penalty_range_bound(rc, arena, lo, hi - 1, d);
        lemma_excess_bound(rc, arena, hi - 1, d);
        assert((hi - 1 - lo) * e + e == (hi - lo) * e) by (nonlinear_arith);
    }
}

/// With radius at most `b`, every member's start and end lie within `-b..=b`,
/// so the members' combined day range does too.
proof fn lemma_day_range_within(rc: ResourceConstraint, arena: Seq<Assignment>, n: int, b: int)
    requires
        arena_ready(arena),
        rc.indices_in(arena),
        0 <= n <= rc.assignments@.len(),
        radius(arena) <= b,
        b >= 0,
    ensures
        -b <= rc.min_start_prefix(arena, n) <= b,
        -b <= rc.max_end_prefix(arena, n) <= b,
    decreases n,
{
    if n > 0 {
        lemma_day_range_within(rc, arena, n - 1, b);
        let i = rc.assignments@[n - 1] as int;
        lemma_radius_elem(arena, i, arena.len() as int);
    }
}

proof fn lemma_resource_penalty_bound(
    rc: ResourceConstraint,
    arena: Seq<Assignment>,
    b: int,
    d: int,
)
    requires
        arena_ready(arena),
        rc.indices_in(arena),
        radius(arena) <= b,
        step_bound(arena) <= d,
        b >= 0,
        d >= 1,
    ensures
        rc.penalty_spec(arena) <= 2 * b * (rc.assignments@.len() * d + mag(
            rc.resource.capacity as int,
        )),
{
    let n = rc.assignments@.len() as int;
    let lo = rc.days_lo(arena);
    let hi = rc.days_hi(arena);
    let cap_m = mag(rc.resource.capacity as int);
    let e = n * d + cap_m;
    lemma_day_range_within(rc, arena, n, b);
    if lo <= hi {
        lemma_penalty_range_bound(rc, arena, lo, hi, d);
        assert(e >= 0) by (nonlinear_arith)
            requires
                e == n * d + cap_m,
                n >= 0,
                d >= 1,
                cap_m >= 0,
        ;
        assert((hi - lo) * e <= 2 * b * e) by (nonlinear_arith)
            requires
                hi - lo <= 2 * b,
                e >= 0,
        ;
    }
}

proof fn lemma_relation_penalty_bound(
    rel: RelationConstraint,
    arena: Seq<Assignment>,
    b: int,
)
    requires
        arena_ready(arena),
        rel.indices_in(arena),
        radius(arena) <= b,
        b >= 0,
    ensures
        rel.penalty_spec(arena) <= 2 * b,
{
    lemma_radius_elem(arena, rel.predecessor as int, arena.len() as int);
    lemma_radius_elem(arena, rel.successor as int, arena.len() as int);
}

proof fn lemma_penalty_cap_nonneg(c: Constraint, b: int, d: int)
    requires
        b >= 0,
        d >= 1,
    ensures
        constraint_penalty_cap(c, b, d) >= 0,
{
    match c {
        Constraint::Relation(_) => {},
        Constraint::Resource(rc) => {
            assert(2 * b * (rc.assignments@.len() * d + mag(rc.resource.capacity as int)) >= 0)
                by (nonlinear_arith)
                requires
                    b >= 0,
                    d >= 1,
                    rc.assignments@.len() >= 0,
                    mag(rc.resource.capacity as int) >= 0,
            ;
        },
    }
}

proof fn lemma_penalty_cap_prefix_mono(cs: Seq<Constraint>, k: int, n: int, b: int, d: int)
    requires
        0 <= k <= n <= cs.len(),
        b >= 0,
        d >= 1,
    ensures
        penalty_cap_prefix(cs, k, b, d) <= penalty_cap_prefix(cs, n, b, d),
    decreases n - k,
{
    if k < n {
        lemma_penalty_cap_prefix_mono(cs, k, n - 1, b, d);
        lemma_penalty_cap_nonneg(cs[n - 1], b, d);
    }
}

/// Over the whole arena, the earliest start and latest end lie within
/// `-b..=b` when the radius does.
proof fn lemma_span_within(arena: Seq<Assignment>, n: int, b: int)
    requires
        arena_ready(arena),
        0 <= n <= arena.len(),
        radius(arena) <= b,
        b >= 0,
    ensures
        -b <= min_start_upto(arena, n) <= b,
        -b <= max_end_upto(arena, n) <= b,
    decreases n,
{
    if n > 0 {
        lemma_span_within(arena, n - 1, b);
        lemma_radius_elem(arena, n - 1, arena.len() as int);
    }
}

impl Schedule {
    proof fn lemma_penalty_prefix_capped(self, n: int, b: int, d: int)
        requires
            self.wf(),
            arena_ready(self.assignments@),
            0 <= n <= self.constraints@.len(),
            radius(self.assignments@) <= b,
            step_bound(self.assignments@) <= d,
            b >= 0,
            d >= 1,
        ensures
            self.penalty_prefix(n) <= penalty_cap_prefix(self.constraints@, n, b, d),
        decreases n,
    {
        if n > 0 {
            self.lemma_penalty_prefix_capped(n - 1, b, d);
            match self.constraints@[n - 1] {
                Constraint::Relation(rel) => {
                    lemma_relation_penalty_bound(rel, self.assignments@, b);
                },
                Constraint::Resource(rc) => {
                    lemma_resource_penalty_bound(rc, self.assignments@, b, d);
                },
            }
        }
    }

    /// Under the radius and step bounds and the granted headroom, every score
    /// the schedule reports fits the stored score type.
    pub proof fn lemma_scores_fit(self, b: int, d: int)
        requires
            self.wf(),
            arena_ready(self.assignments@),
            radius(self.assignments@) <= b,
            step_bound(self.assignments@) <= d,
            b >= 0,
            d >= 1,
            score_headroom(self.constraints@, b, d),
        ensures
            forall|j: int|
                0 <= j < self.constraints@.len() ==> (#[trigger] self.constraints@[j]).penalty_fits(
                    self.assignments@,
                ),
            self.total_penalty_spec() <= i32::MAX,
            forall|i: int|
                0 <= i < self.assignments@.len() ==> i32::MIN <= (
                #[trigger] self.assignments@[i]).end_spec() <= i32::MAX,
            self.total_makespan_spec() <= i32::MAX,
    {
        let cs = self.constraints@;
        let arena = self.assignments@;
        let n = cs.len() as int;
        assert forall|j: int| 0 <= j < n implies (#[trigger] cs[j]).penalty_fits(arena) by {
            match cs[j] {
                Constraint::Relation(rel) => {
                    lemma_relation_penalty_bound(rel, arena, b);
                },
                Constraint::Resource(rc) => {
                    lemma_resource_penalty_bound(rc, arena, b, d);
                    lemma_penalty_cap_nonneg(cs[j], b, d);
                    lemma_penalty_cap_prefix_mono(cs, j, n, b, d);
                    lemma_penalty_cap_prefix_mono(cs, j + 1, n, b, d);
                    assert(penalty_cap_prefix(cs, j + 1, b, d) == penalty_cap_prefix(cs, j, b, d)
                        + constraint_penalty_cap(cs[j], b, d));
                    lemma_penalty_cap_prefix_nonneg(cs, j, b, d);
                },
            }
        }
        self.lemma_penalty_prefix_capped(n, b, d);
        assert forall|i: int| 0 <= i < arena.len() implies i32::MIN <= (
        #[trigger] arena[i]).end_spec() <= i32::MAX by {
            lemma_radius_elem(arena, i, arena.len() as int);
        }
        lemma_span_within(arena, arena.len() as int, b);
    }
}

proof fn lemma_penalty_cap_prefix_nonneg(cs: Seq<Constraint>, n: int, b: int, d: int)
    requires
        0 <= n <= cs.len(),
        b >= 0,
        d >= 1,
    ensures
        penalty_cap_prefix(cs, n, b, d) >= 0,
    decreases n,
{
    if n > 0 {
        lemma_penalty_cap_prefix_nonneg(cs, n - 1, b, d);
        lemma_penalty_cap_nonneg(cs[n - 1], b, d);
    }
}


pub proof fn lemma_radius_nonneg(arena: Seq<Assignment>)
    ensures
        radius(arena) >= 0,
{
    lemma_radius_nonneg_upto(arena, arena.len() as int);
}

pub proof fn lemma_step_nonneg(arena: Seq<Assignment>)
    ensures
        step_bound(arena) >= 1,
{
    lemma_step_nonneg_upto(arena, arena.len() as int);
}

} // verus!
