use eaplanner::instance::{
    load_schedule, ActivityRecord, LoadError, MembershipRecord, RelationRecord, ResourceRecord,
};

fn small_instance() -> (
    Vec<ActivityRecord>,
    Vec<ResourceRecord>,
    Vec<RelationRecord>,
    Vec<MembershipRecord>,
) {
    let activities = vec![
        ActivityRecord { id: 10, hours: 20, start: 1, duration: 2 },
        ActivityRecord { id: 11, hours: 20, start: 2, duration: 2 },
    ];
    let resources = vec![ResourceRecord { name: "crew".to_string(), capacity: 15 }];
    let relations = vec![RelationRecord { predecessor_id: 10, successor_id: 11, type_code: 1 }];
    let memberships = vec![MembershipRecord {
        resource_name: "crew".to_string(),
        assignment_ids: vec![10, 11],
    }];
    (activities, resources, relations, memberships)
}

#[test]
fn test_load_schedule() {
    let (activities, resources, relations, memberships) = small_instance();

    let schedule = load_schedule(&activities, &resources, &relations, &memberships).unwrap();

    assert_eq!(schedule.assignments.len(), 2);
    assert_eq!(schedule.assignments[0].id(), 10);
    assert_eq!(schedule.assignments[0].start(), 1);
    assert_eq!(schedule.assignments[1].hours_per_day(), 10);
    assert_eq!(schedule.constraints.len(), 2);
    // FinishToStart from end 3 to start 2 violates by 1; day 2 needs 20
    // against capacity 15 for 5 more.
    assert_eq!(schedule.get_total_penalty(), 6);
}

#[test]
fn test_load_schedule_unknown_relation_type() {
    let (activities, resources, mut relations, memberships) = small_instance();
    relations[0].type_code = 9;

    let result = load_schedule(&activities, &resources, &relations, &memberships);

    assert_eq!(result.unwrap_err(), LoadError::UnknownRelationType);
}

#[test]
fn test_load_schedule_unknown_assignment() {
    let (activities, resources, mut relations, memberships) = small_instance();
    relations[0].successor_id = 99;

    let result = load_schedule(&activities, &resources, &relations, &memberships);

    assert_eq!(result.unwrap_err(), LoadError::UnknownAssignmentReference);
}

#[test]
fn test_load_schedule_unknown_resource() {
    let (activities, resources, relations, mut memberships) = small_instance();
    memberships[0].resource_name = "nobody".to_string();

    let result = load_schedule(&activities, &resources, &relations, &memberships);

    assert_eq!(result.unwrap_err(), LoadError::UnknownResourceReference);
}

#[test]
fn test_load_schedule_unknown_membership_id() {
    let (activities, resources, relations, mut memberships) = small_instance();
    memberships[0].assignment_ids.push(99);

    let result = load_schedule(&activities, &resources, &relations, &memberships);

    assert_eq!(result.unwrap_err(), LoadError::UnknownAssignmentReference);
}

#[test]
fn test_instance_tables_round_trip() {
    let (activities, resources, relations, memberships) = small_instance();
    let schedule = load_schedule(&activities, &resources, &relations, &memberships).unwrap();

    let tables = schedule.instance_tables();

    assert_eq!(tables.activities.len(), 2);
    assert_eq!(tables.activities[0].id, 10);
    assert_eq!(tables.activities[0].start, 1);
    assert_eq!(tables.relations.len(), 1);
    assert_eq!(tables.relations[0].predecessor_id, 10);
    assert_eq!(tables.relations[0].successor_id, 11);
    assert_eq!(tables.relations[0].type_code, 1);
    assert_eq!(tables.memberships.len(), 1);
    assert_eq!(tables.memberships[0].resource_name, "crew");
    assert_eq!(tables.memberships[0].assignment_ids, vec![10, 11]);
    assert_eq!(tables.resources.len(), 1);
    assert_eq!(tables.resources[0].name, "crew");
    assert_eq!(tables.resources[0].capacity, 15);
}
