use eaplanner::assignment::Assignment;
use eaplanner::constraint::{BaseConstraint, ResourceConstraint};
use eaplanner::resource::Resource;

#[test]
fn test_daily_required_capacity() {
    // arrange
    let resource = Resource::new("resource".to_string(), 15);
    let mut assignment1 = Assignment::new(None, 20);
    assignment1.set_start(1);
    assignment1.set_duration(2);
    let mut assignment2 = Assignment::new(None, 20);
    assignment2.set_start(2);
    assignment2.set_duration(2);
    let arena = vec![assignment1, assignment2];
    let mut resource_constraint = ResourceConstraint::new(resource);
    resource_constraint.add_assignment(0);
    resource_constraint.add_assignment(1);

    // act
    let daily_required_capacity = resource_constraint.get_daily_required_capacity(&arena);

    // assert
    assert_eq!(daily_required_capacity[&1], 10);
    assert_eq!(daily_required_capacity[&2], 20);
    assert_eq!(daily_required_capacity[&3], 10);
    assert_eq!(daily_required_capacity.values().sum::<i32>(), 40);
}

#[test]
fn test_resource_penalty() {
    // arrange
    let resource = Resource::new("resource".to_string(), 15);

    let mut assignment1 = Assignment::new(None, 20);
    assignment1.set_start(1);
    assignment1.set_duration(2);
    let mut assignment2 = Assignment::new(None, 20);
    assignment2.set_start(2);
    assignment2.set_duration(2);
    let arena = vec![assignment1, assignment2];

    // act
    let mut resource_constraint = ResourceConstraint::new(resource);
    resource_constraint.add_assignment(0);
    resource_constraint.add_assignment(1);

    // assert
    assert_eq!(resource_constraint.get_penalty(&arena), 5);
}

#[test]
fn test_resource_repair_stretches_duration() {
    // One assignment of 20 hours over 1 day against a capacity of 5: repair
    // stretches the duration to ceil(20 / 5) = 4 days.
    let resource = Resource::new("pool".to_string(), 5);
    let mut assignment = Assignment::new(None, 20);
    assignment.set_start(0);
    assignment.set_duration(1);
    let mut arena = vec![assignment];
    let mut resource_constraint = ResourceConstraint::new(resource);
    resource_constraint.add_assignment(0);

    assert_eq!(resource_constraint.get_penalty(&arena), 15);

    let changed = resource_constraint.attempt_repair(&mut arena);

    assert!(changed);
    assert_eq!(arena[0].duration(), 4);
    assert_eq!(arena[0].hours_per_day(), 5);
    assert_eq!(resource_constraint.get_penalty(&arena), 0);
}
