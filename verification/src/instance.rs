//! The problem instance as four plain tables — activities, resources,
//! precedence relations and resource memberships — and the checked assembly
//! of a schedule from them. Resolution failures (an unknown relation-type
//! code, an assignment or resource referred to but not defined) are reported,
//! never ignored.

use crate::assignment::{ceil_div, clamp_duration, Assignment};
use crate::constraint::{Constraint, RelationConstraint, ResourceConstraint};
use crate::relation_type::RelationType;
use crate::resource::Resource;
use crate::schedule::{relations_upto, resources_upto, Schedule};
use vstd::prelude::*;

verus! {

/// One row of the activities table.
#[derive(Clone, Copy, PartialEq, Eq, Structural, Debug)]
pub struct ActivityRecord {
    pub id: usize,
    pub hours: i32,
    pub start: i32,
    pub duration: i32,
}

/// One row of the resources table.
#[derive(Clone, Debug)]
pub struct ResourceRecord {
    pub name: String,
    pub capacity: i32,
}

/// One row of the precedence table.
#[derive(Clone, Copy, PartialEq, Eq, Structural, Debug)]
pub struct RelationRecord {
    pub predecessor_id: usize,
    pub successor_id: usize,
    pub type_code: i32,
}

/// One row of the resource-membership table.
#[derive(Clone, Debug)]
pub struct MembershipRecord {
    pub resource_name: String,
    pub assignment_ids: Vec<usize>,
}

/// Why an instance cannot be assembled.
#[derive(Clone, Copy, PartialEq, Eq, Structural, Debug)]
pub enum LoadError {
    UnknownRelationType,
    UnknownAssignmentReference,
    UnknownResourceReference,
}

/// The assignment an activity row stands for: the stored duration is clamped
/// to at least one day, and the daily rate follows.
pub open spec fn assignment_of_record(r: ActivityRecord) -> Assignment {
    let d = clamp_duration(r.duration as int);
    Assignment {
        id: r.id,
        hours: r.hours,
        start: r.start,
        duration: d as i32,
        hours_per_day: ceil_div(r.hours as int, d) as i32,
    }
}

pub open spec fn decoded_activities(records: Seq<ActivityRecord>) -> Seq<Assignment> {
    Seq::new(records.len(), |i: int| assignment_of_record(records[i]))
}

/// The index of the last assignment carrying `id` among the first `n`, or -1.
/// When ids are duplicated the later definition wins, as a keyed lookup
/// filled in table order would resolve it.
pub open spec fn last_id_index(arena: Seq<Assignment>, id: usize, n: int) -> int
    decreases n,
{
    if n <= 0 {
        -1
    } else if arena[n - 1].id == id {
        n - 1
    } else {
        last_id_index(arena, id, n - 1)
    }
}

pub open spec fn has_id(arena: Seq<Assignment>, id: usize) -> bool {
    last_id_index(arena, id, arena.len() as int) >= 0
}

/// The index of the first resource row named `name` from position `i` on, or
/// -1.
pub open spec fn first_name_index(rs: Seq<ResourceRecord>, name: Seq<char>, i: int) -> int
    decreases rs.len() - i,
{
    if i < 0 || i >= rs.len() {
        -1
    } else if rs[i].name@ == name {
        i
    } else {
        first_name_index(rs, name, i + 1)
    }
}

pub open spec fn has_name(rs: Seq<ResourceRecord>, name: Seq<char>) -> bool {
    first_name_index(rs, name, 0) >= 0
}

pub open spec fn id_listed(ids: Seq<usize>, id: usize) -> bool {
    exists|k: int| 0 <= k < ids.len() && #[trigger] ids[k] == id
}

/// The arena indices of the assignments a membership row names, in arena
/// order.
pub open spec fn members_upto(arena: Seq<Assignment>, ids: Seq<usize>, n: int) -> Seq<usize>
    decreases n,
{
    if n <= 0 {
        Seq::empty()
    } else {
        let prev = members_upto(arena, ids, n - 1);
        if id_listed(ids, arena[n - 1].id) {
            prev.push((n - 1) as usize)
        } else {
            prev
        }
    }
}

/// What is wrong with one relation row, if anything.
pub open spec fn relation_error(arena: Seq<Assignment>, rel: RelationRecord) -> Option<LoadError> {
    if !(0 <= rel.type_code <= 3) {
        Some(LoadError::UnknownRelationType)
    } else if !has_id(arena, rel.predecessor_id) {
        Some(LoadError::UnknownAssignmentReference)
    } else if !has_id(arena, rel.successor_id) {
        Some(LoadError::UnknownAssignmentReference)
    } else {
        None
    }
}

/// What is wrong with one membership row, if anything.
pub open spec fn membership_error(
    arena: Seq<Assignment>,
    rs: Seq<ResourceRecord>,
    mem: MembershipRecord,
) -> Option<LoadError> {
    if !has_name(rs, mem.resource_name@) {
        Some(LoadError::UnknownResourceReference)
    } else if exists|k: int|
        0 <= k < mem.assignment_ids@.len() && !has_id(arena, #[trigger] mem.assignment_ids@[k]) {
        Some(LoadError::UnknownAssignmentReference)
    } else {
        None
    }
}

/// The first failure among the relation rows from `i` on.
pub open spec fn first_relation_error(
    arena: Seq<Assignment>,
    rels: Seq<RelationRecord>,
    i: int,
) -> Option<LoadError>
    decreases rels.len() - i,
{
    if i < 0 || i >= rels.len() {
        None
    } else {
        match relation_error(arena, rels[i]) {
            Some(e) => Some(e),
            None => first_relation_error(arena, rels, i + 1),
        }
    }
}

/// The first failure among the membership rows from `i` on.
pub open spec fn first_membership_error(
    arena: Seq<Assignment>,
    rs: Seq<ResourceRecord>,
    mems: Seq<MembershipRecord>,
    i: int,
) -> Option<LoadError>
    decreases mems.len() - i,
{
    if i < 0 || i >= mems.len() {
        None
    } else {
        match membership_error(arena, rs, mems[i]) {
            Some(e) => Some(e),
            None => first_membership_error(arena, rs, mems, i + 1),
        }
    }
}

/// The first failure assembling the instance: relation rows are resolved
/// before membership rows, each table in order.
pub open spec fn load_error_spec(
    acts: Seq<ActivityRecord>,
    rs: Seq<ResourceRecord>,
    rels: Seq<RelationRecord>,
    mems: Seq<MembershipRecord>,
) -> Option<LoadError> {
    let arena = decoded_activities(acts);
    match first_relation_error(arena, rels, 0) {
        Some(e) => Some(e),
        None => first_membership_error(arena, rs, mems, 0),
    }
}

/// What a successfully loaded schedule holds: the decoded activities, then
/// one relation constraint per relation row and one resource constraint per
/// membership row, in table order, all references resolved to arena indices.
pub open spec fn loaded_schedule_ok(
    s: Schedule,
    acts: Seq<ActivityRecord>,
    rs: Seq<ResourceRecord>,
    rels: Seq<RelationRecord>,
    mems: Seq<MembershipRecord>,
) -> bool {
    let arena = decoded_activities(acts);
    &&& s.wf()
    &&& s.assignments@ == arena
    &&& s.constraints@.len() == rels.len() + mems.len()
    &&& forall|j: int|
        0 <= j < rels.len() ==> ((#[trigger] s.constraints@[j]) matches Constraint::Relation(rc)
            && rc.kind.code_spec() == rels[j].type_code && rc.predecessor as int == last_id_index(
            arena,
            rels[j].predecessor_id,
            arena.len() as int,
        ) && rc.successor as int == last_id_index(
            arena,
            rels[j].successor_id,
            arena.len() as int,
        ))
    &&& forall|j: int|
        0 <= j < mems.len() ==> ((#[trigger] s.constraints@[rels.len() + j]) matches
            Constraint::Resource(rc) && rc.resource.name@ == mems[j].resource_name@
            && rc.resource.capacity == rs[first_name_index(
            rs,
            mems[j].resource_name@,
            0,
        )].capacity && rc.assignments@ == members_upto(
            arena,
            mems[j].assignment_ids@,
            arena.len() as int,
        ))
}

/// The arena index the given assignment id resolves to: the last assignment
/// carrying it, if any.
#[verifier::loop_isolation(false)]
fn find_assignment_index(arena: &Vec<Assignment>, id: usize) -> (r: Option<usize>)
    ensures
        r is Some <==> has_id(arena@, id),
        r is Some ==> r->0 as int == last_id_index(arena@, id, arena@.len() as int),
{
    let n = arena.len();
    let mut best: Option<usize> = None;
    let mut k: usize = 0;
    while k < n
        invariant
            0 <= k <= n,
            match best {
                None => last_id_index(arena@, id, k as int) == -1,
                Some(b) => last_id_index(arena@, id, k as int) == b,
            },
        decreases n - k,
    {
        if arena[k].id == id {
            best = Some(k);
        }
        k = k + 1;
    }
    best
}

/// The resource row the given name resolves to: the first row carrying it,
/// if any. Relies on the standard library's string equality through its
/// specified comparison.
#[verifier::loop_isolation(false)]
fn find_resource_index(rs: &Vec<ResourceRecord>, name: &String) -> (r: Option<usize>)
    ensures
        r is Some <==> has_name(rs@, name@),
        r is Some ==> r->0 as int == first_name_index(rs@, name@, 0) && r->0 < rs@.len(),
{
    let n = rs.len();
    let mut k: usize = 0;
    while k < n
        invariant
            0 <= k <= n,
            first_name_index(rs@, name@, 0) == first_name_index(rs@, name@, k as int),
            forall|j: int| 0 <= j < k ==> (#[trigger] rs@[j]).name@ != name@,
        decreases n - k,
    {
        if rs[k].name.eq(name) {
            return Some(k);
        }
        k = k + 1;
    }
    None
}

/// Whether the id list names the given id.
#[verifier::loop_isolation(false)]
fn id_list_contains(ids: &Vec<usize>, id: usize) -> (r: bool)
    ensures
        r == id_listed(ids@, id),
{
    let n = ids.len();
    let mut k: usize = 0;
    while k < n
        invariant
            0 <= k <= n,
            forall|j: int| 0 <= j < k ==> (#[trigger] ids@[j]) != id,
        decreases n - k,
    {
        if ids[k] == id {
            proof {
                assert(ids@[k as int] == id);
            }
            return true;
        }
        k = k + 1;
    }
    false
}

/// Assemble a schedule from the four instance tables. Every reference is
/// resolved or the instance is rejected: an unknown relation-type code, or an
/// assignment or resource named but nowhere defined, yields the first such
/// error in table order.
#[verifier::loop_isolation(false)]
#[verifier::rlimit(60)]
pub fn load_schedule(
    activities: &Vec<ActivityRecord>,
    resources: &Vec<ResourceRecord>,
    relations: &Vec<RelationRecord>,
    memberships: &Vec<MembershipRecord>,
) -> (r: Result<Schedule, LoadError>)
    requires
        activities@.len() <= 0x7fff_ffff,
    ensures
        r is Ok <==> load_error_spec(activities@, resources@, relations@, memberships@) is None,
        r matches Ok(s) ==> loaded_schedule_ok(
            s,
            activities@,
            resources@,
            relations@,
            memberships@,
        ),
        r matches Err(e) ==> Some(e) == load_error_spec(
            activities@,
            resources@,
            relations@,
            memberships@,
        ),
{
    let ghost arena_spec = decoded_activities(activities@);

    // Decode the activities into the arena.
    let n = activities.len();
    let mut arena: Vec<Assignment> = Vec::new();
    let mut i: usize = 0;
    while i < n
        invariant
            0 <= i <= n,
            arena@.len() == i,
            forall|k: int| 0 <= k < i ==> #[trigger] arena@[k] == arena_spec[k],
        decreases n - i,
    {
        let record = &activities[i];
        let mut assignment = Assignment::new(Some(record.id), record.hours);
        assignment.set_start(record.start);
        assignment.set_duration(record.duration);
        arena.push(assignment);
        i = i + 1;
    }
    proof {
        assert(arena@ =~= arena_spec);
    }

    // Resolve the relation rows.
    let n_rels = relations.len();
    let mut constraints: Vec<Constraint> = Vec::new();
    let mut j: usize = 0;
    while j < n_rels
        invariant
            0 <= j <= n_rels,
            arena@ == arena_spec,
            constraints@.len() == j,
            first_relation_error(arena_spec, relations@, 0) == first_relation_error(
                arena_spec,
                relations@,
                j as int,
            ),
            forall|k: int|
                0 <= k < j ==> ((#[trigger] constraints@[k]) matches Constraint::Relation(rc)
                    && rc.kind.code_spec() == relations@[k].type_code && rc.predecessor as int
                    == last_id_index(
                    arena_spec,
                    relations@[k].predecessor_id,
                    arena_spec.len() as int,
                ) && rc.successor as int == last_id_index(
                    arena_spec,
                    relations@[k].successor_id,
                    arena_spec.len() as int,
                )),
        decreases n_rels - j,
    {
        let record = &relations[j];
        let kind = match RelationType::from_code(record.type_code) {
            Ok(kind) => kind,
            Err(_) => {
                return Err(LoadError::UnknownRelationType);
            },
        };
        let predecessor = match find_assignment_index(&arena, record.predecessor_id) {
            Some(p) => p,
            None => {
                return Err(LoadError::UnknownAssignmentReference);
            },
        };
        let successor = match find_assignment_index(&arena, record.successor_id) {
            Some(s) => s,
            None => {
                return Err(LoadError::UnknownAssignmentReference);
            },
        };
        constraints.push(Constraint::Relation(RelationConstraint::new(kind, predecessor, successor)));
        j = j + 1;
    }

    // Resolve the membership rows.
    let n_mems = memberships.len();
    let mut j: usize = 0;
    while j < n_mems
        invariant
            0 <= j <= n_mems,
            arena@ == arena_spec,
            first_relation_error(arena_spec, relations@, 0) is None,
            constraints@.len() == n_rels + j,
            first_membership_error(arena_spec, resources@, memberships@, 0)
                == first_membership_error(arena_spec, resources@, memberships@, j as int),
            forall|k: int|
                0 <= k < n_rels ==> ((#[trigger] constraints@[k]) matches Constraint::Relation(rc)
                    && rc.kind.code_spec() == relations@[k].type_code && rc.predecessor as int
                    == last_id_index(
                    arena_spec,
                    relations@[k].predecessor_id,
                    arena_spec.len() as int,
                ) && rc.successor as int == last_id_index(
                    arena_spec,
                    relations@[k].successor_id,
                    arena_spec.len() as int,
                )),
            forall|k: int|
                0 <= k < j ==> ((#[trigger] constraints@[n_rels + k]) matches Constraint::Resource(
                    rc,
                ) && rc.resource.name@ == memberships@[k].resource_name@ && rc.resource.capacity
                    == resources@[first_name_index(
                    resources@,
                    memberships@[k].resource_name@,
                    0,
                )].capacity && rc.assignments@ == members_upto(
                    arena_spec,
                    memberships@[k].assignment_ids@,
                    arena_spec.len() as int,
                )),
        decreases n_mems - j,
    {
        let record = &memberships[j];
        let resource_at = match find_resource_index(resources, &record.resource_name) {
            Some(k) => k,
            None => {
                return Err(LoadError::UnknownResourceReference);
            },
        };

        // Every listed assignment id must resolve.
        let id_count = record.assignment_ids.len();
        let mut k: usize = 0;
        while k < id_count
            invariant
                0 <= k <= id_count,
                forall|m: int|
                    0 <= m < k ==> has_id(arena_spec, #[trigger] record.assignment_ids@[m]),
            decreases id_count - k,
        {
            match find_assignment_index(&arena, record.assignment_ids[k]) {
                Some(_) => {},
                None => {
                    proof {
                        assert(!has_id(arena_spec, record.assignment_ids@[k as int]));
                    }
                    return Err(LoadError::UnknownAssignmentReference);
                },
            }
            k = k + 1;
        }

        // Collect the members in arena order.
        let arena_len = arena.len();
        let mut members: Vec<usize> = Vec::new();
        let mut k: usize = 0;
        while k < arena_len
            invariant
                0 <= k <= arena_len,
                arena@ == arena_spec,
                members@ == members_upto(arena_spec, record.assignment_ids@, k as int),
            decreases arena_len - k,
        {
            if id_list_contains(&record.assignment_ids, arena[k].id) {
                members.push(k);
            }
            k = k + 1;
        }

        let resource = Resource::new(
            resources[resource_at].name.clone(),
            resources[resource_at].capacity,
        );
        proof {
            lemma_first_name_found(resources@, record.resource_name@, 0);
        }
        constraints.push(Constraint::Resource(ResourceConstraint { resource, assignments: members }));
        j = j + 1;
    }

    // Assemble.
    let schedule = Schedule { assignments: arena, constraints };
    proof {
        assert forall|ii: int|
            0 <= ii < schedule.assignments@.len() implies (
        #[trigger] schedule.assignments@[ii]).wf() by {
            assert(schedule.assignments@[ii] == assignment_of_record(activities@[ii]));
            crate::assignment::lemma_ceil_div_bounds(
                activities@[ii].hours as int,
                clamp_duration(activities@[ii].duration as int),
            );
        }
        assert forall|jj: int|
            0 <= jj < schedule.constraints@.len() implies (
        #[trigger] schedule.constraints@[jj]).valid(schedule.assignments@) by {
            if jj < n_rels {
                lemma_last_id_index_bounds(
                    arena_spec,
                    relations@[jj].predecessor_id,
                    arena_spec.len() as int,
                );
                lemma_last_id_index_bounds(
                    arena_spec,
                    relations@[jj].successor_id,
                    arena_spec.len() as int,
                );
            } else {
                let kk = jj - n_rels;
                assert(0 <= kk < memberships@.len());
                assert(schedule.constraints@[n_rels + kk] == schedule.constraints@[jj]);
                let c = schedule.constraints@[jj];
                match c {
                    Constraint::Resource(rc) => {
                        let ids = memberships@[jj - n_rels].assignment_ids@;
                        lemma_members_upto_bounds(arena_spec, ids, arena_spec.len() as int);
                        assert forall|k: int|
                            0 <= k < rc.assignments@.len() implies (
                        #[trigger] rc.assignments@[k]) < schedule.assignments@.len() by {
                            assert(rc.assignments@[k] == members_upto(
                                arena_spec,
                                ids,
                                arena_spec.len() as int,
                            )[k]);
                        }
                        assert(rc.assignments@.len() <= 0x7fff_ffff);
                    },
                    Constraint::Relation(_) => {},
                }
            }
        }
    }
    Ok(schedule)
}

/// A found name index names a row carrying that name.
proof fn lemma_first_name_found(rs: Seq<ResourceRecord>, name: Seq<char>, i: int)
    requires
        0 <= i,
        first_name_index(rs, name, i) >= 0,
    ensures
        i <= first_name_index(rs, name, i) < rs.len(),
        rs[first_name_index(rs, name, i)].name@ == name,
    decreases rs.len() - i,
{
    if i < rs.len() && rs[i].name@ != name {
        lemma_first_name_found(rs, name, i + 1);
    }
}

/// A found id index lies in the arena.
proof fn lemma_last_id_index_bounds(arena: Seq<Assignment>, id: usize, n: int)
    requires
        0 <= n <= arena.len(),
    ensures
        last_id_index(arena, id, n) < n,
        last_id_index(arena, id, n) >= -1,
    decreases n,
{
    if n > 0 {
        lemma_last_id_index_bounds(arena, id, n - 1);
    }
}

/// Collected member indices lie in the arena, in increasing order, and there
/// are no more of them than assignments.
proof fn lemma_members_upto_bounds(arena: Seq<Assignment>, ids: Seq<usize>, n: int)
    requires
        0 <= n <= arena.len(),
    ensures
        members_upto(arena, ids, n).len() <= n,
        forall|k: int|
            0 <= k < members_upto(arena, ids, n).len() ==> (#[trigger] members_upto(
                arena,
                ids,
                n,
            )[k]) < n,
    decreases n,
{
    if n > 0 {
        lemma_members_upto_bounds(arena, ids, n - 1);
    }
}


/// The four tables a schedule persists as.
pub struct InstanceTables {
    pub activities: Vec<ActivityRecord>,
    pub resources: Vec<ResourceRecord>,
    pub relations: Vec<RelationRecord>,
    pub memberships: Vec<MembershipRecord>,
}

/// The row a resource constraint's pool persists as.
pub open spec fn resource_row_matches(row: ResourceRecord, rc: ResourceConstraint) -> bool {
    row.name@ == rc.resource.name@ && row.capacity == rc.resource.capacity
}

/// Some row stands for this resource constraint's pool.
pub open spec fn resource_row_covered(rows: Seq<ResourceRecord>, rc: ResourceConstraint) -> bool {
    exists|x: int| 0 <= x < rows.len() && resource_row_matches(#[trigger] rows[x], rc)
}

/// The row stands for one of the listed pools.
pub open spec fn row_from_pools(row: ResourceRecord, pools: Seq<ResourceConstraint>) -> bool {
    exists|k: int| 0 <= k < pools.len() && resource_row_matches(row, #[trigger] pools[k])
}

proof fn lemma_covered_grows(rows: Seq<ResourceRecord>, row: ResourceRecord, rc: ResourceConstraint)
    requires
        resource_row_covered(rows, rc),
    ensures
        resource_row_covered(rows.push(row), rc),
{
    let x = choose|x: int| 0 <= x < rows.len() && resource_row_matches(#[trigger] rows[x], rc);
    assert(resource_row_matches(rows.push(row)[x], rc));
}

proof fn lemma_sourced_grows(
    row: ResourceRecord,
    pools: Seq<ResourceConstraint>,
    rc: ResourceConstraint,
)
    requires
        row_from_pools(row, pools),
    ensures
        row_from_pools(row, pools.push(rc)),
{
    let k = choose|k: int| 0 <= k < pools.len() && resource_row_matches(row, #[trigger] pools[k]);
    assert(resource_row_matches(row, pools.push(rc)[k]));
}

impl Schedule {
    /// Read the schedule back out as its four instance tables: one activity
    /// row per assignment, one relation row per relation constraint and one
    /// membership row per resource constraint (each in schedule order, with
    /// arena indices resolved back to assignment ids), and one resource row
    /// per distinct resource pool.
    #[verifier::loop_isolation(false)]
    #[verifier::rlimit(60)]
    pub fn instance_tables(&self) -> (t: InstanceTables)
        requires
            self.wf(),
        ensures
            t.activities@.len() == self.assignments@.len(),
            forall|i: int|
                0 <= i < self.assignments@.len() ==> {
                    let a = #[trigger] self.assignments@[i];
                    let row = t.activities@[i];
                    row.id == a.id && row.hours == a.hours && row.start == a.start
                        && row.duration == a.duration
                },
            t.relations@.len() == relations_upto(
                self.constraints@,
                self.constraints@.len() as int,
            ).len(),
            forall|k: int|
                0 <= k < t.relations@.len() ==> {
                    let rc = relations_upto(
                        self.constraints@,
                        self.constraints@.len() as int,
                    )[k];
                    let row = #[trigger] t.relations@[k];
                    row.predecessor_id == self.assignments@[rc.predecessor as int].id
                        && row.successor_id == self.assignments@[rc.successor as int].id
                        && row.type_code as int == rc.kind.code_spec()
                },
            t.memberships@.len() == resources_upto(
                self.constraints@,
                self.constraints@.len() as int,
            ).len(),
            forall|k: int|
                0 <= k < t.memberships@.len() ==> {
                    let rc = resources_upto(
                        self.constraints@,
                        self.constraints@.len() as int,
                    )[k];
                    let row = #[trigger] t.memberships@[k];
                    row.resource_name@ == rc.resource.name@ && row.assignment_ids@.len()
                        == rc.assignments@.len() && (forall|m: int|
                        0 <= m < rc.assignments@.len() ==> #[trigger] row.assignment_ids@[m]
                            == self.assignments@[rc.assignments@[m] as int].id)
                },
            forall|x: int, y: int|
                0 <= x < y < t.resources@.len() ==> !((#[trigger] t.resources@[x]).name@ == (
                #[trigger] t.resources@[y]).name@ && t.resources@[x].capacity
                    == t.resources@[y].capacity),
            forall|k: int|
                0 <= k < resources_upto(self.constraints@, self.constraints@.len() as int).len()
                    ==> resource_row_covered(
                    t.resources@,
                    #[trigger] resources_upto(
                        self.constraints@,
                        self.constraints@.len() as int,
                    )[k],
                ),
            forall|x: int|
                0 <= x < t.resources@.len() ==> row_from_pools(
                    #[trigger] t.resources@[x],
                    resources_upto(self.constraints@, self.constraints@.len() as int),
                ),
    {
        // Activity rows.
        let n = self.assignments.len();
        let mut activities: Vec<ActivityRecord> = Vec::new();
        let mut i: usize = 0;
        while i < n
            invariant
                0 <= i <= n,
                activities@.len() == i,
                forall|k: int|
                    0 <= k < i ==> {
                        let a = #[trigger] self.assignments@[k];
                        let row = activities@[k];
                        row.id == a.id && row.hours == a.hours && row.start == a.start
                            && row.duration == a.duration
                    },
            decreases n - i,
        {
            let a = &self.assignments[i];
            activities.push(
                ActivityRecord { id: a.id, hours: a.hours, start: a.start, duration: a.duration },
            );
            i = i + 1;
        }

        // Constraint rows, split by kind, with a deduplicated resource table.
        let cs_len = self.constraints.len();
        let mut resources: Vec<ResourceRecord> = Vec::new();
        let mut relations: Vec<RelationRecord> = Vec::new();
        let mut memberships: Vec<MembershipRecord> = Vec::new();
        let mut j: usize = 0;
        while j < cs_len
            invariant
                0 <= j <= cs_len,
                relations@.len() == relations_upto(self.constraints@, j as int).len(),
                forall|k: int|
                    0 <= k < relations@.len() ==> {
                        let rc = relations_upto(self.constraints@, j as int)[k];
                        let row = #[trigger] relations@[k];
                        row.predecessor_id == self.assignments@[rc.predecessor as int].id
                            && row.successor_id == self.assignments@[rc.successor as int].id
                            && row.type_code as int == rc.kind.code_spec()
                    },
                memberships@.len() == resources_upto(self.constraints@, j as int).len(),
                forall|k: int|
                    0 <= k < memberships@.len() ==> {
                        let rc = resources_upto(self.constraints@, j as int)[k];
                        let row = #[trigger] memberships@[k];
                        row.resource_name@ == rc.resource.name@ && row.assignment_ids@.len()
                            == rc.assignments@.len() && (forall|m: int|
                            0 <= m < rc.assignments@.len() ==> #[trigger] row.assignment_ids@[m]
                                == self.assignments@[rc.assignments@[m] as int].id)
                    },
                forall|x: int, y: int|
                    0 <= x < y < resources@.len() ==> !((#[trigger] resources@[x]).name@ == (
                    #[trigger] resources@[y]).name@ && resources@[x].capacity
                        == resources@[y].capacity),
                forall|k: int|
                    0 <= k < resources_upto(self.constraints@, j as int).len()
                        ==> resource_row_covered(
                        resources@,
                        #[trigger] resources_upto(self.constraints@, j as int)[k],
                    ),
                forall|x: int|
                    0 <= x < resources@.len() ==> row_from_pools(
                        #[trigger] resources@[x],
                        resources_upto(self.constraints@, j as int),
                    ),
            decreases cs_len - j,
        {
            let ghost rows_before = resources@;
            let ghost seen_before = resources_upto(self.constraints@, j as int);
            match &self.constraints[j] {
                Constraint::Relation(rc) => {
                    let predecessor_id = self.assignments[rc.predecessor].id;
                    let successor_id = self.assignments[rc.successor].id;
                    relations.push(
                        RelationRecord { predecessor_id, successor_id, type_code: rc.kind.code() },
                    );
                    proof {
                        assert(resources_upto(self.constraints@, j + 1) == resources_upto(
                            self.constraints@,
                            j as int,
                        ));
                        assert(relations_upto(self.constraints@, j + 1) == relations_upto(
                            self.constraints@,
                            j as int,
                        ).push(*rc));
                    }
                },
                Constraint::Resource(rc) => {
                    // The membership row: member indices back to ids.
                    let m_len = rc.assignments.len();
                    let mut ids: Vec<usize> = Vec::new();
                    let mut m: usize = 0;
                    while m < m_len
                        invariant
                            0 <= m <= m_len,
                            ids@.len() == m,
                            (Constraint::Resource(*rc)) == self.constraints@[j as int],
                            forall|q: int|
                                0 <= q < m ==> #[trigger] ids@[q]
                                    == self.assignments@[rc.assignments@[q] as int].id,
                        decreases m_len - m,
                    {
                        let idx = rc.assignments[m];
                        ids.push(self.assignments[idx].id);
                        m = m + 1;
                    }
                    memberships.push(
                        MembershipRecord {
                            resource_name: rc.resource.name(),
                            assignment_ids: ids,
                        },
                    );

                    // The resource row, if its pool is new.
                    let mut seen = false;
                    let r_len = resources.len();
                    let mut x: usize = 0;
                    while x < r_len
                        invariant
                            0 <= x <= r_len,
                            r_len == resources@.len(),
                            seen <==> exists|y: int|
                                0 <= y < x && resource_row_matches(
                                    #[trigger] resources@[y],
                                    *rc,
                                ),
                        decreases r_len - x,
                    {
                        let row = &resources[x];
                        if row.name.eq(&rc.resource.name) && row.capacity == rc.resource.capacity {
                            seen = true;
                            proof {
                                assert(resource_row_matches(resources@[x as int], *rc));
                            }
                        }
                        x = x + 1;
                    }
                    if !seen {
                        resources.push(
                            ResourceRecord {
                                name: rc.resource.name(),
                                capacity: rc.resource.capacity,
                            },
                        );
                    }
                    proof {
                        let pools_after = resources_upto(self.constraints@, j + 1);
                        assert(pools_after =~= seen_before.push(*rc));
                        // The new pool has a row, old or freshly pushed.
                        if seen {
                            let y0 = choose|y: int|
                                0 <= y < rows_before.len() && resource_row_matches(
                                    #[trigger] rows_before[y],
                                    *rc,
                                );
                            assert(resource_row_matches(resources@[y0], *rc));
                        } else {
                            assert(resource_row_matches(
                                resources@[rows_before.len() as int],
                                *rc,
                            ));
                        }
                        assert(resource_row_covered(resources@, *rc));
                        assert forall|k: int|
                            0 <= k < pools_after.len() implies resource_row_covered(
                            resources@,
                            #[trigger] pools_after[k],
                        ) by {
                            if k < seen_before.len() {
                                assert(resource_row_covered(rows_before, seen_before[k]));
                                if !seen {
                                    lemma_covered_grows(
                                        rows_before,
                                        resources@[rows_before.len() as int],
                                        seen_before[k],
                                    );
                                    assert(resources@ =~= rows_before.push(
                                        resources@[rows_before.len() as int],
                                    ));
                                }
                            } else {
                                assert(pools_after[k] == *rc);
                            }
                        }
                        assert forall|x2: int|
                            0 <= x2 < resources@.len() implies row_from_pools(
                            #[trigger] resources@[x2],
                            pools_after,
                        ) by {
                            if x2 < rows_before.len() {
                                assert(row_from_pools(resources@[x2], seen_before));
                                lemma_sourced_grows(resources@[x2], seen_before, *rc);
                            } else {
                                assert(resource_row_matches(
                                    resources@[x2],
                                    pools_after[seen_before.len() as int],
                                ));
                            }
                        }
                    }
                },
            }
            j = j + 1;
        }
        InstanceTables { activities, resources, relations, memberships }
    }
}

} // verus!
