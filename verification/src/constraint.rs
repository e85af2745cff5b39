//! The two kinds of schedule constraint: precedence relations between two
//! assignments, and daily capacity limits on a shared resource. Both answer
//! for a penalty (how far the schedule violates them) and a best-effort local
//! repair that rewrites assignment timing in the owning arena.

use crate::assignment::{ceil_div, clamp_duration, lemma_ceil_div_bounds, Assignment};
use crate::relation_type::RelationType;
use crate::resource::Resource;
use std::collections::HashMap;
use vstd::prelude::*;

verus! {

/// What both constraint kinds promise: a non-negative penalty, pinned to the
/// kind's own penalty function, and a repair step whose effect on the arena is
/// exactly the kind's own rewrite.
pub trait BaseConstraint: Sized {
    /// The constraint refers only to assignments the arena holds.
    spec fn valid(&self, arena: Seq<Assignment>) -> bool;

    /// The penalty as an unbounded integer.
    spec fn penalty_spec(&self, arena: Seq<Assignment>) -> int;

    /// The arena as one repair attempt leaves it.
    spec fn repaired(&self, arena: Seq<Assignment>) -> Seq<Assignment>;

    /// Whether one repair attempt reports a change.
    spec fn repair_changes(&self, arena: Seq<Assignment>) -> bool;

    /// The machine-range condition under which the penalty can be returned.
    spec fn penalty_fits(&self, arena: Seq<Assignment>) -> bool;

    /// The machine-range condition under which a repair stays in bounds.
    spec fn repair_fits(&self, arena: Seq<Assignment>) -> bool;

    /// The constraint kind's name, for reporting.
    spec fn name_spec(&self) -> Seq<char>;

    fn get_penalty(&self, arena: &Vec<Assignment>) -> (r: i32)
        requires
            self.valid(arena@),
            self.penalty_fits(arena@),
        ensures
            r as int == self.penalty_spec(arena@),
            r >= 0,
    ;

    fn attempt_repair(&self, arena: &mut Vec<Assignment>) -> (changed: bool)
        requires
            self.valid(old(arena)@),
            self.repair_fits(old(arena)@),
        ensures
            final(arena)@ == self.repaired(old(arena)@),
            changed == self.repair_changes(old(arena)@),
    ;

    fn get_name(&self) -> (r: String)
        ensures
            r@ == self.name_spec(),
    ;

    /// Repair only rewrites timing: it keeps the arena's length and every
    /// assignment's identity, work and well-formedness.
    proof fn repaired_properties(&self, arena: Seq<Assignment>)
        requires
            self.valid(arena),
            self.repair_fits(arena),
        ensures
            self.repaired(arena).len() == arena.len(),
            forall|i: int|
                0 <= i < arena.len() ==> (#[trigger] self.repaired(arena)[i]).id == arena[i].id
                    && self.repaired(arena)[i].hours == arena[i].hours,
            forall|i: int|
                0 <= i < arena.len() && arena[i].wf() ==> (#[trigger] self.repaired(arena)[i]).wf(),
            forall|i: int|
                0 <= i < arena.len() && arena[i].duration >= 1 ==> (#[trigger] self.repaired(
                    arena,
                )[i]).duration >= 1,
    ;

    /// A penalty is never negative.
    proof fn penalty_nonneg(&self, arena: Seq<Assignment>)
        ensures
            self.penalty_spec(arena) >= 0,
    ;
}

/// A precedence relation between a predecessor and a successor assignment,
/// both named by their index in the owning arena.
#[derive(Clone, Copy, PartialEq, Eq, Structural, Debug)]
pub struct RelationConstraint {
    pub kind: RelationType,
    pub predecessor: usize,
    pub successor: usize,
}

impl RelationConstraint {
    /// The signed amount by which the relation's temporal inequality is
    /// violated; positive means violated.
    pub open spec fn violation(self, arena: Seq<Assignment>) -> int
        recommends
            self.indices_in(arena),
    {
        let p = arena[self.predecessor as int];
        let s = arena[self.successor as int];
        match self.kind {
            RelationType::FinishToFinish => p.end_spec() - s.end_spec(),
            RelationType::FinishToStart => p.end_spec() - s.start,
            RelationType::StartToFinish => s.end_spec() - p.start,
            RelationType::StartToStart => p.start - s.start,
        }
    }

    pub open spec fn indices_in(self, arena: Seq<Assignment>) -> bool {
        self.predecessor < arena.len() && self.successor < arena.len()
    }

    /// The successor as a violated relation's repair rewrites it: moved so the
    /// relation holds exactly.
    pub open spec fn repaired_successor(self, arena: Seq<Assignment>) -> Assignment
        recommends
            self.indices_in(arena),
    {
        let p = arena[self.predecessor as int];
        let s = arena[self.successor as int];
        match self.kind {
            RelationType::FinishToFinish => Assignment {
                start: (p.end_spec() - s.duration) as i32,
                hours_per_day: ceil_div(s.hours as int, s.duration as int) as i32,
                ..s
            },
            RelationType::FinishToStart => Assignment { start: p.end_spec() as i32, ..s },
            RelationType::StartToFinish => Assignment {
                start: (p.start - s.duration) as i32,
                hours_per_day: ceil_div(s.hours as int, s.duration as int) as i32,
                ..s
            },
            RelationType::StartToStart => Assignment { start: p.start, ..s },
        }
    }

    /// The machine-range conditions for the values a repair writes back.
    pub open spec fn write_fits(self, arena: Seq<Assignment>) -> bool
        recommends
            self.indices_in(arena),
    {
        let p = arena[self.predecessor as int];
        let s = arena[self.successor as int];
        match self.kind {
            RelationType::FinishToFinish => s.duration >= 1 && i32::MIN <= p.end_spec()
                <= i32::MAX && i32::MIN <= p.end_spec() - s.duration <= i32::MAX,
            RelationType::FinishToStart => i32::MIN <= p.end_spec() <= i32::MAX,
            RelationType::StartToFinish => s.duration >= 1 && i32::MIN <= p.start
                - s.duration <= i32::MAX,
            RelationType::StartToStart => true,
        }
    }

    pub fn new(kind: RelationType, predecessor: usize, successor: usize) -> (r: RelationConstraint)
        ensures
            r == (RelationConstraint { kind, predecessor, successor }),
    {
        RelationConstraint { kind, predecessor, successor }
    }

    pub fn set_predecessor(&mut self, predecessor: usize)
        ensures
            *final(self) == (RelationConstraint { predecessor, ..*old(self) }),
    {
        self.predecessor = predecessor;
    }

    pub fn set_successor(&mut self, successor: usize)
        ensures
            *final(self) == (RelationConstraint { successor, ..*old(self) }),
    {
        self.successor = successor;
    }
}

impl BaseConstraint for RelationConstraint {
    open spec fn valid(&self, arena: Seq<Assignment>) -> bool {
        self.indices_in(arena)
    }

    /// The positive part of the violation.
    open spec fn penalty_spec(&self, arena: Seq<Assignment>) -> int {
        if self.violation(arena) > 0 {
            self.violation(arena)
        } else {
            0
        }
    }

    open spec fn repaired(&self, arena: Seq<Assignment>) -> Seq<Assignment> {
        if self.violation(arena) > 0 {
            arena.update(self.successor as int, self.repaired_successor(arena))
        } else {
            arena
        }
    }

    open spec fn repair_changes(&self, arena: Seq<Assignment>) -> bool {
        self.violation(arena) > 0
    }

    open spec fn penalty_fits(&self, arena: Seq<Assignment>) -> bool {
        self.penalty_spec(arena) <= i32::MAX
    }

    open spec fn repair_fits(&self, arena: Seq<Assignment>) -> bool {
        self.violation(arena) > 0 ==> self.write_fits(arena)
    }

    open spec fn name_spec(&self) -> Seq<char> {
        "RelationConstraint"@
    }

    fn get_penalty(&self, arena: &Vec<Assignment>) -> (r: i32) {
        let p = &arena[self.predecessor];
        let s = &arena[self.successor];
        let p_start = p.start as i64;
        let p_end = p.start as i64 + p.duration as i64;
        let s_start = s.start as i64;
        let s_end = s.start as i64 + s.duration as i64;
        let violation: i64 = match self.kind {
            RelationType::FinishToFinish => p_end - s_end,
            RelationType::FinishToStart => p_end - s_start,
            RelationType::StartToFinish => s_end - p_start,
            RelationType::StartToStart => p_start - s_start,
        };
        if violation <= 0 {
            0
        } else {
            violation as i32
        }
    }

    fn attempt_repair(&self, arena: &mut Vec<Assignment>) -> (changed: bool) {
        let p = arena[self.predecessor];
        let s = arena[self.successor];
        let p_start = p.start as i64;
        let p_end = p.start as i64 + p.duration as i64;
        let s_start = s.start as i64;
        let s_end = s.start as i64 + s.duration as i64;
        match self.kind {
            RelationType::FinishToFinish => {
                if p_end > s_end {
                    arena[self.successor].set_end(p_end as i32);
                    return true;
                }
            },
            RelationType::FinishToStart => {
                if p_end > s_start {
                    arena[self.successor].set_start(p_end as i32);
                    return true;
                }
            },
            RelationType::StartToFinish => {
                if s_end > p_start {
                    arena[self.successor].set_end(p.start);
                    return true;
                }
            },
            RelationType::StartToStart => {
                if p_start > s_start {
                    arena[self.successor].set_start(p.start);
                    return true;
                }
            },
        }
        false
    }

    fn get_name(&self) -> (r: String) {
        "RelationConstraint".to_owned()
    }

    proof fn repaired_properties(&self, arena: Seq<Assignment>) {
    }

    proof fn penalty_nonneg(&self, arena: Seq<Assignment>) {
    }
}


/// Whether the assignment occupies `day`: its active days are
/// `start <= day < start + duration`.
pub open spec fn active_on(a: Assignment, day: int) -> bool {
    a.start <= day < a.start + a.duration
}

/// An assignment as capacity repair stretches it: its duration becomes
/// `ceil(hours / capacity)` (clamped to at least one day), so its daily rate
/// no longer exceeds the capacity.
pub open spec fn stretched(a: Assignment, capacity: int) -> Assignment
    recommends
        capacity >= 1,
{
    let d = clamp_duration(ceil_div(a.hours as int, capacity));
    Assignment {
        duration: d as i32,
        hours_per_day: ceil_div(a.hours as int, d) as i32,
        ..a
    }
}

/// A shared capacity limit: the named assignments together may not require
/// more than the resource's capacity on any one day.
#[derive(Clone, Debug)]
pub struct ResourceConstraint {
    pub resource: Resource,
    pub assignments: Vec<usize>,
}

impl ResourceConstraint {
    pub open spec fn indices_in(self, arena: Seq<Assignment>) -> bool {
        forall|k: int|
            0 <= k < self.assignments@.len() ==> (#[trigger] self.assignments@[k]) < arena.len()
    }

    /// The daily rate the first `n` member assignments together require on
    /// `day`.
    pub open spec fn required_prefix(self, arena: Seq<Assignment>, n: int, day: int) -> int
        decreases n,
    {
        if n <= 0 {
            0
        } else {
            let a = arena[self.assignments@[n - 1] as int];
            self.required_prefix(arena, n - 1, day) + if active_on(a, day) {
                a.hours_per_day as int
            } else {
                0
            }
        }
    }

    /// The daily rate all member assignments together require on `day`.
    pub open spec fn required_on(self, arena: Seq<Assignment>, day: int) -> int {
        self.required_prefix(arena, self.assignments@.len() as int, day)
    }

    /// Whether any of the first `n` member assignments occupies `day`.
    pub open spec fn some_active_prefix(self, arena: Seq<Assignment>, n: int, day: int) -> bool {
        exists|k: int|
            0 <= k < n && active_on(arena[#[trigger] self.assignments@[k] as int], day)
    }

    pub open spec fn some_active_on(self, arena: Seq<Assignment>, day: int) -> bool {
        self.some_active_prefix(arena, self.assignments@.len() as int, day)
    }

    /// How far the required rate exceeds the capacity on `day`; days no member
    /// occupies carry no excess.
    pub open spec fn excess_on(self, arena: Seq<Assignment>, day: int) -> int {
        if self.some_active_on(arena, day) && self.required_on(arena, day)
            > self.resource.capacity {
            self.required_on(arena, day) - self.resource.capacity
        } else {
            0
        }
    }

    /// The earliest start among the first `n` members (0 when there are none).
    pub open spec fn min_start_prefix(self, arena: Seq<Assignment>, n: int) -> int
        decreases n,
    {
        if n <= 0 {
            0
        } else {
            let s = arena[self.assignments@[n - 1] as int].start as int;
            if n == 1 {
                s
            } else {
                let m = self.min_start_prefix(arena, n - 1);
                if s < m {
                    s
                } else {
                    m
                }
            }
        }
    }

    /// The latest end among the first `n` members (0 when there are none).
    pub open spec fn max_end_prefix(self, arena: Seq<Assignment>, n: int) -> int
        decreases n,
    {
        if n <= 0 {
            0
        } else {
            let e = arena[self.assignments@[n - 1] as int].end_spec();
            if n == 1 {
                e
            } else {
                let m = self.max_end_prefix(arena, n - 1);
                if e > m {
                    e
                } else {
                    m
                }
            }
        }
    }

    pub open spec fn days_lo(self, arena: Seq<Assignment>) -> int {
        self.min_start_prefix(arena, self.assignments@.len() as int)
    }

    pub open spec fn days_hi(self, arena: Seq<Assignment>) -> int {
        self.max_end_prefix(arena, self.assignments@.len() as int)
    }

    /// The summed excess over the days in `lo..hi`.
    pub open spec fn penalty_range(self, arena: Seq<Assignment>, lo: int, hi: int) -> int
        decreases hi - lo,
    {
        if lo >= hi {
            0
        } else {
            self.penalty_range(arena, lo, hi - 1) + self.excess_on(arena, hi - 1)
        }
    }

    /// The summed absolute daily rates of the first `n` members: a bound on
    /// any day's required rate.
    pub open spec fn abs_rates_prefix(self, arena: Seq<Assignment>, n: int) -> int
        decreases n,
    {
        if n <= 0 {
            0
        } else {
            let r = arena[self.assignments@[n - 1] as int].hours_per_day as int;
            self.abs_rates_prefix(arena, n - 1) + if r >= 0 {
                r
            } else {
                -r
            }
        }
    }

    /// The arena after capacity repair has walked the first `n` members, in
    /// order, stretching each whose current daily rate exceeds the capacity.
    pub open spec fn stretched_prefix(self, arena: Seq<Assignment>, n: int) -> Seq<Assignment>
        decreases n,
    {
        if n <= 0 {
            arena
        } else {
            let prev = self.stretched_prefix(arena, n - 1);
            let idx = self.assignments@[n - 1] as int;
            if prev[idx].hours_per_day > self.resource.capacity {
                prev.update(idx, stretched(prev[idx], self.resource.capacity as int))
            } else {
                prev
            }
        }
    }

    /// Whether that walk stretches any of the first `n` members.
    pub open spec fn stretch_changes_prefix(self, arena: Seq<Assignment>, n: int) -> bool
        decreases n,
    {
        if n <= 0 {
            false
        } else {
            self.stretch_changes_prefix(arena, n - 1) || self.stretched_prefix(
                arena,
                n - 1,
            )[self.assignments@[n - 1] as int].hours_per_day > self.resource.capacity
        }
    }

    proof fn lemma_member_within_day_range(self, arena: Seq<Assignment>, k: int, day: int)
        requires
            self.indices_in(arena),
            0 <= k < self.assignments@.len(),
            active_on(arena[self.assignments@[k] as int], day),
        ensures
            self.days_lo(arena) <= day < self.days_hi(arena),
    {
        let n = self.assignments@.len() as int;
        self.lemma_min_start_le(arena, k, n);
        self.lemma_max_end_ge(arena, k, n);
    }

    proof fn lemma_min_start_le(self, arena: Seq<Assignment>, k: int, n: int)
        requires
            0 <= k < n <= self.assignments@.len(),
        ensures
            self.min_start_prefix(arena, n) <= arena[self.assignments@[k] as int].start as int,
        decreases n,
    {
        if k < n - 1 {
            self.lemma_min_start_le(arena, k, n - 1);
        }
    }

    proof fn lemma_max_end_ge(self, arena: Seq<Assignment>, k: int, n: int)
        requires
            0 <= k < n <= self.assignments@.len(),
        ensures
            self.max_end_prefix(arena, n) >= arena[self.assignments@[k] as int].end_spec(),
        decreases n,
    {
        if k < n - 1 {
            self.lemma_max_end_ge(arena, k, n - 1);
        }
    }

    /// On a day outside the members' combined range nothing is active, so
    /// there is no excess.
    proof fn lemma_excess_zero_outside(self, arena: Seq<Assignment>, day: int)
        requires
            self.indices_in(arena),
            day < self.days_lo(arena) || day >= self.days_hi(arena),
        ensures
            self.excess_on(arena, day) == 0,
    {
        if self.some_active_on(arena, day) {
            let k = choose|k: int|
                0 <= k < self.assignments@.len() && active_on(
                    arena[#[trigger] self.assignments@[k] as int],
                    day,
                );
            self.lemma_member_within_day_range(arena, k, day);
        }
    }

    proof fn lemma_penalty_range_nonneg(self, arena: Seq<Assignment>, lo: int, hi: int)
        ensures
            self.penalty_range(arena, lo, hi) >= 0,
        decreases hi - lo,
    {
        if lo < hi {
            self.lemma_penalty_range_nonneg(arena, lo, hi - 1);
        }
    }

    proof fn lemma_penalty_range_split(self, arena: Seq<Assignment>, lo: int, mid: int, hi: int)
        requires
            lo <= mid <= hi,
        ensures
            self.penalty_range(arena, lo, hi) == self.penalty_range(arena, lo, mid)
                + self.penalty_range(arena, mid, hi),
        decreases hi - mid,
    {
        if mid < hi {
            self.lemma_penalty_range_split(arena, lo, mid, hi - 1);
        }
    }

    pub proof fn lemma_required_prefix_bound(self, arena: Seq<Assignment>, n: int, day: int)
        requires
            n >= 0,
        ensures
            -self.abs_rates_prefix(arena, n) <= self.required_prefix(arena, n, day)
                <= self.abs_rates_prefix(arena, n),
            self.abs_rates_prefix(arena, n) >= 0,
        decreases n,
    {
        if n > 0 {
            self.lemma_required_prefix_bound(arena, n - 1, day);
        }
    }

    proof fn lemma_abs_rates_crude_bound(self, arena: Seq<Assignment>, n: int)
        requires
            n >= 0,
        ensures
            self.abs_rates_prefix(arena, n) <= n * 0x8000_0000,
        decreases n,
    {
        if n > 0 {
            self.lemma_abs_rates_crude_bound(arena, n - 1);
        }
    }
}


impl ResourceConstraint {
    pub fn new(resource: Resource) -> (r: ResourceConstraint)
        ensures
            r.resource == resource,
            r.assignments@ == Seq::<usize>::empty(),
    {
        ResourceConstraint { resource, assignments: Vec::new() }
    }

    pub fn add_assignment(&mut self, assignment: usize)
        ensures
            final(self).assignments@ == old(self).assignments@.push(assignment),
            final(self).resource == old(self).resource,
    {
        self.assignments.push(assignment);
    }

    /// An owned copy equal to `self` in every observable part.
    pub fn duplicate(&self) -> (r: ResourceConstraint)
        ensures
            same_resource_constraint(*self, r),
    {
        let n = self.assignments.len();
        let mut members: Vec<usize> = Vec::new();
        let mut k: usize = 0;
        while k < n
            invariant
                0 <= k <= n,
                n == self.assignments@.len(),
                members@ == self.assignments@.take(k as int),
            decreases n - k,
        {
            members.push(self.assignments[k]);
            proof {
                assert(self.assignments@.take(k + 1) == self.assignments@.take(k as int).push(
                    self.assignments@[k as int],
                ));
            }
            k = k + 1;
        }
        proof {
            assert(self.assignments@.take(n as int) == self.assignments@);
        }
        ResourceConstraint { resource: self.resource.duplicate(), assignments: members }
    }

    /// With at least one member, the day range's bounds come from stored
    /// `i32` values.
    proof fn lemma_day_range_bounds(self, arena: Seq<Assignment>, n: int)
        requires
            1 <= n <= self.assignments@.len(),
        ensures
            i32::MIN <= self.min_start_prefix(arena, n) <= i32::MAX,
            2 * (i32::MIN as int) <= self.max_end_prefix(arena, n) <= 2 * (i32::MAX as int),
        decreases n,
    {
        if n > 1 {
            self.lemma_day_range_bounds(arena, n - 1);
        }
    }

    /// The capacity-repair walk keeps the arena's length and every
    /// assignment's identity, work and start; only durations and daily rates
    /// change, and well-formedness is kept.
    pub proof fn lemma_stretched_prefix_props(self, arena: Seq<Assignment>, n: int)
        requires
            0 <= n <= self.assignments@.len(),
            self.indices_in(arena),
            self.resource.capacity >= 1,
        ensures
            self.stretched_prefix(arena, n).len() == arena.len(),
            forall|i: int|
                0 <= i < arena.len() ==> {
                    let a = #[trigger] self.stretched_prefix(arena, n)[i];
                    a.id == arena[i].id && a.hours == arena[i].hours && a.start == arena[i].start
                },
            forall|i: int|
                0 <= i < arena.len() && arena[i].wf() ==> (#[trigger] self.stretched_prefix(
                    arena,
                    n,
                )[i]).wf(),
            forall|i: int|
                0 <= i < arena.len() && arena[i].duration >= 1 ==> (#[trigger] self.stretched_prefix(
                    arena,
                    n,
                )[i]).duration >= 1,
        decreases n,
    {
        if n > 0 {
            self.lemma_stretched_prefix_props(arena, n - 1);
            let prev = self.stretched_prefix(arena, n - 1);
            let idx = self.assignments@[n - 1] as int;
            if prev[idx].hours_per_day > self.resource.capacity {
                let a = prev[idx];
                let cap = self.resource.capacity as int;
                lemma_ceil_div_bounds(a.hours as int, cap);
                let d = clamp_duration(ceil_div(a.hours as int, cap));
                lemma_ceil_div_bounds(a.hours as int, d);
            }
        }
    }

    /// The daily rate all members require on `day`, and whether any member is
    /// active then.
    #[verifier::loop_isolation(false)]
    fn demand_on_day(&self, arena: &Vec<Assignment>, day: i64) -> (r: (i64, bool))
        requires
            self.indices_in(arena@),
            self.assignments@.len() <= 0x7fff_ffff,
        ensures
            r.0 == self.required_on(arena@, day as int),
            r.1 == self.some_active_on(arena@, day as int),
            -(self.assignments@.len() as i64) * 0x8000_0000 <= r.0 <= (self.assignments@.len()
                as i64) * 0x8000_0000,
    {
        let n = self.assignments.len();
        let mut required: i64 = 0;
        let mut any: bool = false;
        let mut k: usize = 0;
        while k < n
            invariant
                0 <= k <= n,
                required == self.required_prefix(arena@, k as int, day as int),
                any == self.some_active_prefix(arena@, k as int, day as int),
                -(k as i64) * 0x8000_0000 <= required <= (k as i64) * 0x8000_0000,
            decreases n - k,
        {
            let idx = self.assignments[k];
            let a = &arena[idx];
            let start = a.start as i64;
            let end = a.start as i64 + a.duration as i64;
            let ghost prev_any = self.some_active_prefix(arena@, k as int, day as int);
            if start <= day && day < end {
                required = required + a.hours_per_day as i64;
                any = true;
            }
            proof {
                assert(self.some_active_prefix(arena@, k + 1, day as int) == (prev_any
                    || active_on(arena@[self.assignments@[k as int] as int], day as int))) by {
                    if prev_any {
                        let j = choose|j: int|
                            0 <= j < k && active_on(
                                arena@[#[trigger] self.assignments@[j] as int],
                                day as int,
                            );
                        assert(0 <= j < k + 1 && active_on(
                            arena@[self.assignments@[j] as int],
                            day as int,
                        ));
                    }
                    if active_on(arena@[self.assignments@[k as int] as int], day as int) {
                        assert(0 <= k < k + 1 && active_on(
                            arena@[self.assignments@[k as int] as int],
                            day as int,
                        ));
                    }
                }
            }
            k = k + 1;
        }
        (required, any)
    }

    /// The exact penalty, summed without regard to the machine range of the
    /// stored penalty type.
    #[verifier::loop_isolation(false)]
    fn penalty_raw(&self, arena: &Vec<Assignment>) -> (r: i128)
        requires
            self.indices_in(arena@),
            self.assignments@.len() <= 0x7fff_ffff,
        ensures
            r == self.penalty_range(arena@, self.days_lo(arena@), self.days_hi(arena@)),
            r >= 0,
    {
        let n = self.assignments.len();
        if n == 0 {
            return 0;
        }
        // The members' combined day range.
        let mut lo: i64 = arena[self.assignments[0]].start as i64;
        let mut hi: i64 = {
            let a = &arena[self.assignments[0]];
            a.start as i64 + a.duration as i64
        };
        let mut k: usize = 1;
        while k < n
            invariant
                1 <= k <= n,
                lo == self.min_start_prefix(arena@, k as int),
                hi == self.max_end_prefix(arena@, k as int),
            decreases n - k,
        {
            let a = &arena[self.assignments[k]];
            let start = a.start as i64;
            let end = a.start as i64 + a.duration as i64;
            if start < lo {
                lo = start;
            }
            if end > hi {
                hi = end;
            }
            k = k + 1;
        }
        proof {
            self.lemma_day_range_bounds(arena@, n as int);
        }
        let ghost lo_spec = self.days_lo(arena@);
        let ghost hi_spec = self.days_hi(arena@);
        let mut acc: i128 = 0;
        let mut day: i64 = lo;
        if hi < lo {
            // An empty range carries no penalty.
            return 0;
        }
        while day < hi
            invariant
                lo_spec <= day <= hi_spec,
                acc == self.penalty_range(arena@, lo_spec, day as int),
                0 <= acc <= (day - lo_spec) * 0x8000_0000_0000_0000,
            decreases hi - day,
        {
            let (required, any) = self.demand_on_day(arena, day);
            let cap = self.resource.capacity as i64;
            let excess: i64 = if any && required > cap {
                required - cap
            } else {
                0
            };
            acc = acc + excess as i128;
            day = day + 1;
        }
        acc
    }
}

impl BaseConstraint for ResourceConstraint {
    open spec fn valid(&self, arena: Seq<Assignment>) -> bool {
        self.indices_in(arena) && self.assignments@.len() <= 0x7fff_ffff
    }

    /// The summed excess of the required daily rate over the capacity, over
    /// every day some member is active.
    open spec fn penalty_spec(&self, arena: Seq<Assignment>) -> int {
        self.penalty_range(arena, self.days_lo(arena), self.days_hi(arena))
    }

    open spec fn repaired(&self, arena: Seq<Assignment>) -> Seq<Assignment> {
        if self.penalty_spec(arena) > 0 {
            self.stretched_prefix(arena, self.assignments@.len() as int)
        } else {
            arena
        }
    }

    open spec fn repair_changes(&self, arena: Seq<Assignment>) -> bool {
        self.penalty_spec(arena) > 0 && self.stretch_changes_prefix(
            arena,
            self.assignments@.len() as int,
        )
    }

    open spec fn penalty_fits(&self, arena: Seq<Assignment>) -> bool {
        self.penalty_spec(arena) <= i32::MAX
    }

    open spec fn repair_fits(&self, arena: Seq<Assignment>) -> bool {
        self.resource.capacity >= 1
    }

    open spec fn name_spec(&self) -> Seq<char> {
        "ResourceConstraint"@
    }

    fn get_penalty(&self, arena: &Vec<Assignment>) -> (r: i32) {
        let raw = self.penalty_raw(arena);
        raw as i32
    }

    #[verifier::loop_isolation(false)]
    fn attempt_repair(&self, arena: &mut Vec<Assignment>) -> (changed: bool) {
        if self.penalty_raw(arena) <= 0 {
            return false;
        }
        let n = self.assignments.len();
        let mut corrected = false;
        let mut k: usize = 0;
        while k < n
            invariant
                0 <= k <= n,
                arena@ == self.stretched_prefix(old(arena)@, k as int),
                corrected == self.stretch_changes_prefix(old(arena)@, k as int),
            decreases n - k,
        {
            proof {
                self.lemma_stretched_prefix_props(old(arena)@, k as int);
            }
            let idx = self.assignments[k];
            let capacity = self.resource.capacity;
            if arena[idx].hours_per_day > capacity {
                let duration = crate::assignment::ceil_div_exec(arena[idx].hours, capacity);
                arena[idx].set_duration(duration);
                corrected = true;
            }
            k = k + 1;
        }
        corrected
    }

    fn get_name(&self) -> (r: String) {
        "ResourceConstraint".to_owned()
    }

    proof fn repaired_properties(&self, arena: Seq<Assignment>) {
        self.lemma_stretched_prefix_props(arena, self.assignments@.len() as int);
    }

    proof fn penalty_nonneg(&self, arena: Seq<Assignment>) {
        self.lemma_penalty_range_nonneg(arena, self.days_lo(arena), self.days_hi(arena));
    }
}


/// The closed set of constraint kinds a schedule holds, dispatched by match.
#[derive(Clone, Debug)]
pub enum Constraint {
    Relation(RelationConstraint),
    Resource(ResourceConstraint),
}

impl Constraint {
    pub open spec fn valid(self, arena: Seq<Assignment>) -> bool {
        match self {
            Constraint::Relation(c) => c.valid(arena),
            Constraint::Resource(c) => c.valid(arena),
        }
    }

    pub open spec fn penalty_spec(self, arena: Seq<Assignment>) -> int {
        match self {
            Constraint::Relation(c) => c.penalty_spec(arena),
            Constraint::Resource(c) => c.penalty_spec(arena),
        }
    }

    pub open spec fn repaired(self, arena: Seq<Assignment>) -> Seq<Assignment> {
        match self {
            Constraint::Relation(c) => c.repaired(arena),
            Constraint::Resource(c) => c.repaired(arena),
        }
    }

    pub open spec fn repair_changes(self, arena: Seq<Assignment>) -> bool {
        match self {
            Constraint::Relation(c) => c.repair_changes(arena),
            Constraint::Resource(c) => c.repair_changes(arena),
        }
    }

    pub open spec fn penalty_fits(self, arena: Seq<Assignment>) -> bool {
        match self {
            Constraint::Relation(c) => c.penalty_fits(arena),
            Constraint::Resource(c) => c.penalty_fits(arena),
        }
    }

    pub open spec fn repair_fits(self, arena: Seq<Assignment>) -> bool {
        match self {
            Constraint::Relation(c) => c.repair_fits(arena),
            Constraint::Resource(c) => c.repair_fits(arena),
        }
    }

    pub fn get_penalty(&self, arena: &Vec<Assignment>) -> (r: i32)
        requires
            self.valid(arena@),
            self.penalty_fits(arena@),
        ensures
            r as int == self.penalty_spec(arena@),
            r >= 0,
    {
        match self {
            Constraint::Relation(c) => c.get_penalty(arena),
            Constraint::Resource(c) => c.get_penalty(arena),
        }
    }

    pub fn attempt_repair(&self, arena: &mut Vec<Assignment>) -> (changed: bool)
        requires
            self.valid(old(arena)@),
            self.repair_fits(old(arena)@),
        ensures
            final(arena)@ == self.repaired(old(arena)@),
            changed == self.repair_changes(old(arena)@),
    {
        match self {
            Constraint::Relation(c) => c.attempt_repair(arena),
            Constraint::Resource(c) => c.attempt_repair(arena),
        }
    }

    pub fn get_name(&self) -> (r: String)
        ensures
            self is Relation ==> r@ == "RelationConstraint"@,
            self is Resource ==> r@ == "ResourceConstraint"@,
    {
        match self {
            Constraint::Relation(c) => c.get_name(),
            Constraint::Resource(c) => c.get_name(),
        }
    }

    pub proof fn repaired_properties(self, arena: Seq<Assignment>)
        requires
            self.valid(arena),
            self.repair_fits(arena),
        ensures
            self.repaired(arena).len() == arena.len(),
            forall|i: int|
                0 <= i < arena.len() ==> (#[trigger] self.repaired(arena)[i]).id == arena[i].id
                    && self.repaired(arena)[i].hours == arena[i].hours,
            forall|i: int|
                0 <= i < arena.len() && arena[i].wf() ==> (#[trigger] self.repaired(arena)[i]).wf(),
            forall|i: int|
                0 <= i < arena.len() && arena[i].duration >= 1 ==> (#[trigger] self.repaired(
                    arena,
                )[i]).duration >= 1,
    {
        match self {
            Constraint::Relation(c) => c.repaired_properties(arena),
            Constraint::Resource(c) => c.repaired_properties(arena),
        }
    }

    pub proof fn penalty_nonneg(self, arena: Seq<Assignment>)
        ensures
            self.penalty_spec(arena) >= 0,
    {
        match self {
            Constraint::Relation(c) => c.penalty_nonneg(arena),
            Constraint::Resource(c) => c.penalty_nonneg(arena),
        }
    }
}


/// Two resource constraints that agree in every observable part: the
/// resource's name and capacity, and the member list.
pub open spec fn same_resource_constraint(a: ResourceConstraint, b: ResourceConstraint) -> bool {
    &&& a.resource.name@ == b.resource.name@
    &&& a.resource.capacity == b.resource.capacity
    &&& a.assignments@ == b.assignments@
}


impl ResourceConstraint {
    /// After the walk has added the first `k` members wholly and member `k`'s
    /// days before `d`, the map covers `day`.
    pub open spec fn partial_covered(
        self,
        arena: Seq<Assignment>,
        k: int,
        d: int,
        day: int,
    ) -> bool {
        self.some_active_prefix(arena, k, day) || (k < self.assignments@.len() && active_on(
            arena[self.assignments@[k] as int],
            day,
        ) && day < d)
    }

    /// The rate the map holds for `day` at the same point of the walk.
    pub open spec fn partial_required(self, arena: Seq<Assignment>, k: int, d: int, day: int) -> int {
        self.required_prefix(arena, k, day) + if k < self.assignments@.len() && active_on(
            arena[self.assignments@[k] as int],
            day,
        ) && day < d {
            arena[self.assignments@[k] as int].hours_per_day as int
        } else {
            0
        }
    }

    /// Where no member is active, no rate is required.
    proof fn lemma_required_zero_when_inactive(self, arena: Seq<Assignment>, n: int, day: int)
        requires
            !self.some_active_prefix(arena, n, day),
        ensures
            self.required_prefix(arena, n, day) == 0,
        decreases n,
    {
        if n > 0 {
            assert(!self.some_active_prefix(arena, n - 1, day)) by {
                if self.some_active_prefix(arena, n - 1, day) {
                    let j = choose|j: int|
                        0 <= j < n - 1 && active_on(
                            arena[#[trigger] self.assignments@[j] as int],
                            day,
                        );
                    assert(0 <= j < n && active_on(arena[self.assignments@[j] as int], day));
                }
            }
            assert(!active_on(arena[self.assignments@[n - 1] as int], day)) by {
                if active_on(arena[self.assignments@[n - 1] as int], day) {
                    assert(0 <= n - 1 < n && active_on(
                        arena[self.assignments@[n - 1] as int],
                        day,
                    ));
                }
            }
            self.lemma_required_zero_when_inactive(arena, n - 1, day);
        }
    }

    proof fn lemma_abs_rates_mono(self, arena: Seq<Assignment>, k: int, n: int)
        requires
            0 <= k <= n,
        ensures
            self.abs_rates_prefix(arena, k) <= self.abs_rates_prefix(arena, n),
        decreases n - k,
    {
        if k < n {
            self.lemma_abs_rates_mono(arena, k, n - 1);
        }
    }

    /// The sparse day-to-rate map: for every day any member is active, the
    /// summed daily rate the members require then.
    #[verifier::loop_isolation(false)]
    #[verifier::rlimit(60)]
    pub fn get_daily_required_capacity(&self, arena: &Vec<Assignment>) -> (m: HashMap<i32, i32>)
        requires
            self.indices_in(arena@),
            self.assignments@.len() <= 0x7fff_ffff,
            forall|k: int|
                0 <= k < self.assignments@.len() ==> i32::MIN <= arena@[(
                #[trigger] self.assignments@[k]) as int].end_spec() <= i32::MAX,
            self.abs_rates_prefix(arena@, self.assignments@.len() as int) <= i32::MAX,
        ensures
            forall|day: i32| #[trigger]
                m@.contains_key(day) <==> self.some_active_on(arena@, day as int),
            forall|day: i32| #[trigger]
                m@.contains_key(day) ==> m@[day] as int == self.required_on(arena@, day as int),
    {
        proof {
            broadcast use vstd::std_specs::hash::group_hash_axioms;

        }
        let total = self.assignments.len();
        let mut daily: HashMap<i32, i32> = HashMap::new();
        let mut k: usize = 0;
        while k < total
            invariant
                0 <= k <= total,
                forall|day: i32| #[trigger]
                    daily@.contains_key(day) <==> self.some_active_prefix(
                        arena@,
                        k as int,
                        day as int,
                    ),
                forall|day: i32| #[trigger]
                    daily@.contains_key(day) ==> daily@[day] as int == self.required_prefix(
                        arena@,
                        k as int,
                        day as int,
                    ),
            decreases total - k,
        {
            proof {
                broadcast use vstd::std_specs::hash::group_hash_axioms;

            }
            let idx = self.assignments[k];
            let a = &arena[idx];
            let rate = a.hours_per_day;
            let start = a.start;
            let finish = {
                let wide = a.start as i64 + a.duration as i64;
                if wide < start as i64 {
                    start
                } else {
                    wide as i32
                }
            };
            let ghost member = arena@[self.assignments@[k as int] as int];
            let mut day = start;
            while day < finish
                invariant
                    start <= day <= finish,
                    forall|d2: i32| #[trigger]
                        daily@.contains_key(d2) <==> self.partial_covered(
                            arena@,
                            k as int,
                            day as int,
                            d2 as int,
                        ),
                    forall|d2: i32| #[trigger]
                        daily@.contains_key(d2) ==> daily@[d2] as int == self.partial_required(
                            arena@,
                            k as int,
                            day as int,
                            d2 as int,
                        ),
                decreases finish - day,
            {
                proof {
                    broadcast use vstd::std_specs::hash::group_hash_axioms;

                    self.lemma_required_prefix_bound(arena@, k as int, day as int);
                    self.lemma_abs_rates_mono(arena@, k + 1, self.assignments@.len() as int);
                    assert(active_on(member, day as int));
                    if !daily@.contains_key(day) {
                        self.lemma_required_zero_when_inactive(arena@, k as int, day as int);
                    }
                }
                let current = match daily.get(&day) {
                    Some(v) => *v,
                    None => 0,
                };
                daily.insert(day, current + rate);
                day = day + 1;
            }
            proof {
                assert forall|d2: i32| #[trigger]
                    daily@.contains_key(d2) == self.some_active_prefix(
                    arena@,
                    k + 1,
                    d2 as int,
                ) by {
                    assert(self.some_active_prefix(arena@, k + 1, d2 as int) == (
                    self.some_active_prefix(arena@, k as int, d2 as int) || active_on(
                        member,
                        d2 as int,
                    ))) by {
                        if self.some_active_prefix(arena@, k as int, d2 as int) {
                            let j2 = choose|j: int|
                                0 <= j < k && active_on(
                                    arena@[#[trigger] self.assignments@[j] as int],
                                    d2 as int,
                                );
                            assert(0 <= j2 < k + 1 && active_on(
                                arena@[self.assignments@[j2] as int],
                                d2 as int,
                            ));
                        }
                        if active_on(member, d2 as int) {
                            assert(0 <= k < k + 1 && active_on(
                                arena@[self.assignments@[k as int] as int],
                                d2 as int,
                            ));
                        }
                    }
                    if active_on(member, d2 as int) {
                        assert(d2 < finish);
                    }
                }
            }
            k = k + 1;
        }
        daily
    }
}

} // verus!
