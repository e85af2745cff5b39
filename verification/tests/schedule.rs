use eaplanner::assignment::Assignment;
use eaplanner::constraint::{Constraint, RelationConstraint};
use eaplanner::relation_type::RelationType;
use eaplanner::schedule::Schedule;

#[test]
fn test_schedule_total_duration() {
    // arrange
    let mut assignment1 = Assignment::new(None, 10);
    assignment1.set_start(0);
    assignment1.set_duration(1);
    let mut assignment2 = Assignment::new(None, 10);
    assignment2.set_start(9);
    assignment2.set_duration(1);
    let mut assignment3 = Assignment::new(None, 10);
    assignment3.set_start(3);
    assignment3.set_duration(1);

    // act
    let mut schedule = Schedule::new();
    schedule.add_assignments(vec![assignment1, assignment2, assignment3]);

    // assert
    assert_eq!(schedule.get_total_makespan(), 10);
    assert_eq!(schedule.get_total_penalty(), 0);
}

#[test]
fn test_schedule_total_duration_empty() {
    // arrange
    let schedule = Schedule::new();

    // assert
    assert_eq!(schedule.get_total_makespan(), 0);
}

#[test]
fn test_schedule_total_duration_negative() {
    // arrange
    let mut assignment1 = Assignment::new(None, 10);
    assignment1.set_start(0);
    assignment1.set_duration(1);
    let mut assignment2 = Assignment::new(None, 10);
    assignment2.set_start(-1);
    assignment2.set_duration(-1);
    let mut assignment3 = Assignment::new(None, 10);
    assignment3.set_start(3);
    assignment3.set_duration(1);
    let relation_constraint = RelationConstraint::new(RelationType::FinishToStart, 0, 1);

    // act
    let mut schedule = Schedule::new();
    schedule.add_assignments(vec![assignment1, assignment2, assignment3]);
    schedule.add_constraint(Constraint::Relation(relation_constraint));

    // assert
    assert_eq!(schedule.get_total_makespan(), 5);
    assert_eq!(schedule.get_total_penalty(), 2);
}

#[test]
fn test_schedule_repair_with_certain_probability() {
    // With probability 1 the single violated relation is always attempted, so
    // one pass drives the penalty to zero.
    let mut predecessor = Assignment::new(None, 10);
    predecessor.set_start(2);
    predecessor.set_duration(1);
    let mut successor = Assignment::new(None, 10);
    successor.set_start(0);
    successor.set_duration(1);
    let mut schedule = Schedule::new();
    schedule.add_assignments(vec![predecessor, successor]);
    schedule.add_constraint(Constraint::Relation(RelationConstraint::new(
        RelationType::FinishToStart,
        0,
        1,
    )));
    assert_eq!(schedule.get_total_penalty(), 3);

    schedule.repair_constraints(1, 1, 1, true);

    assert_eq!(schedule.get_total_penalty(), 0);
    assert_eq!(schedule.assignments[1].start(), 3);
}

#[test]
fn test_schedule_repair_with_zero_probability() {
    // With probability 0 no repair is ever attempted: the schedule is left
    // exactly as it was, violations and all.
    let mut predecessor = Assignment::new(None, 10);
    predecessor.set_start(2);
    predecessor.set_duration(1);
    let mut successor = Assignment::new(None, 10);
    successor.set_start(0);
    successor.set_duration(1);
    let mut schedule = Schedule::new();
    schedule.add_assignments(vec![predecessor, successor]);
    schedule.add_constraint(Constraint::Relation(RelationConstraint::new(
        RelationType::FinishToStart,
        0,
        1,
    )));

    schedule.repair_constraints(0, 1, 5, true);

    assert_eq!(schedule.get_total_penalty(), 3);
    assert_eq!(schedule.assignments[1].start(), 0);
}

#[test]
fn test_schedule_repair_unshuffled_is_in_order() {
    // At probability 1 with no shuffle, one pass applies every repair in
    // constraint order, so a chain of relations propagates in one pass.
    let mut first = Assignment::new(None, 10);
    first.set_start(2);
    first.set_duration(1);
    let mut second = Assignment::new(None, 10);
    second.set_start(0);
    second.set_duration(1);
    let mut third = Assignment::new(None, 10);
    third.set_start(0);
    third.set_duration(1);
    let mut schedule = Schedule::new();
    schedule.add_assignments(vec![first, second, third]);
    schedule.add_constraint(Constraint::Relation(RelationConstraint::new(
        RelationType::FinishToStart,
        0,
        1,
    )));
    schedule.add_constraint(Constraint::Relation(RelationConstraint::new(
        RelationType::FinishToStart,
        1,
        2,
    )));

    schedule.repair_constraints(1, 1, 1, false);

    assert_eq!(schedule.assignments[1].start(), 3);
    assert_eq!(schedule.assignments[2].start(), 4);
    assert_eq!(schedule.get_total_penalty(), 0);
}

#[test]
fn test_schedule_constraints_per_type() {
    let mut assignment = Assignment::new(None, 4);
    assignment.set_start(0);
    assignment.set_duration(1);
    let mut schedule = Schedule::new();
    schedule.add_assignments(vec![assignment]);
    schedule.add_constraint(Constraint::Relation(RelationConstraint::new(
        RelationType::StartToStart,
        0,
        0,
    )));
    let resource = eaplanner::resource::Resource::new("crew".to_string(), 3);
    let mut resource_constraint = eaplanner::constraint::ResourceConstraint::new(resource);
    resource_constraint.add_assignment(0);
    schedule.add_constraint(Constraint::Resource(resource_constraint));

    let (resource_constraints, relation_constraints) = schedule.get_constraints_per_type();

    assert_eq!(relation_constraints.len(), 1);
    assert_eq!(resource_constraints.len(), 1);
    assert_eq!(resource_constraints[0].resource.name(), "crew");
    assert_eq!(resource_constraints[0].assignments, vec![0]);
}
