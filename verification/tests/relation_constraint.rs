use eaplanner::assignment::Assignment;
use eaplanner::constraint::{BaseConstraint, RelationConstraint};
use eaplanner::relation_type::RelationType;

#[test]
fn test_finish_to_finish() {
    // arrange
    let mut root_assignment = Assignment::new(None, 10);
    root_assignment.set_start(2);
    root_assignment.set_duration(1);
    let mut later_assignment = Assignment::new(None, 10);
    later_assignment.set_start(4);
    later_assignment.set_duration(1);
    let mut ealier_assignment = Assignment::new(None, 10);
    ealier_assignment.set_start(0);
    ealier_assignment.set_duration(1);
    let arena = vec![root_assignment, later_assignment, ealier_assignment];

    // act
    let relation_later = RelationConstraint::new(RelationType::FinishToFinish, 0, 1);
    let relation_earlier = RelationConstraint::new(RelationType::FinishToFinish, 0, 2);

    // assert
    assert_eq!(relation_later.get_penalty(&arena), 0);
    assert_eq!(relation_earlier.get_penalty(&arena), 2);
}

#[test]
fn test_finish_to_start() {
    // arrange
    let mut root_assignment = Assignment::new(None, 10);
    root_assignment.set_start(2);
    root_assignment.set_duration(1);
    let mut later_assignment = Assignment::new(None, 10);
    later_assignment.set_start(4);
    later_assignment.set_duration(1);
    let mut ealier_assignment = Assignment::new(None, 10);
    ealier_assignment.set_start(0);
    ealier_assignment.set_duration(1);
    let arena = vec![root_assignment, later_assignment, ealier_assignment];

    // act
    let relation_later = RelationConstraint::new(RelationType::FinishToStart, 0, 1);
    let relation_earlier = RelationConstraint::new(RelationType::FinishToStart, 0, 2);

    // assert
    assert_eq!(relation_later.get_penalty(&arena), 0);
    assert_eq!(relation_earlier.get_penalty(&arena), 3);
}

#[test]
fn test_start_to_finish() {
    // arrange
    let mut root_assignment = Assignment::new(None, 10);
    root_assignment.set_start(2);
    root_assignment.set_duration(1);
    let mut later_assignment = Assignment::new(None, 10);
    later_assignment.set_start(4);
    later_assignment.set_duration(1);
    let mut ealier_assignment = Assignment::new(None, 10);
    ealier_assignment.set_start(0);
    ealier_assignment.set_duration(1);
    let arena = vec![root_assignment, later_assignment, ealier_assignment];

    // act
    let relation_later = RelationConstraint::new(RelationType::StartToFinish, 0, 1);
    let relation_earlier = RelationConstraint::new(RelationType::StartToFinish, 0, 2);

    // assert
    assert_eq!(relation_later.get_penalty(&arena), 3);
    assert_eq!(relation_earlier.get_penalty(&arena), 0);
}

#[test]
fn test_start_to_start() {
    // arrange
    let mut root_assignment = Assignment::new(None, 10);
    root_assignment.set_start(2);
    root_assignment.set_duration(1);
    let mut later_assignment = Assignment::new(None, 10);
    later_assignment.set_start(4);
    later_assignment.set_duration(1);
    let mut ealier_assignment = Assignment::new(None, 10);
    ealier_assignment.set_start(0);
    ealier_assignment.set_duration(1);
    let arena = vec![root_assignment, later_assignment, ealier_assignment];

    // act
    let relation_later = RelationConstraint::new(RelationType::StartToStart, 0, 1);
    let relation_earlier = RelationConstraint::new(RelationType::StartToStart, 0, 2);

    // assert
    assert_eq!(relation_later.get_penalty(&arena), 0);
    assert_eq!(relation_earlier.get_penalty(&arena), 2);
}

#[test]
fn test_finish_to_start_repair() {
    // A predecessor ending at day 3 and a successor starting at day 0: three
    // days of violation, repaired by moving the successor's start to day 3.
    let mut predecessor = Assignment::new(None, 10);
    predecessor.set_start(2);
    predecessor.set_duration(1);
    let mut successor = Assignment::new(None, 10);
    successor.set_start(0);
    successor.set_duration(1);
    let mut arena = vec![predecessor, successor];

    let relation = RelationConstraint::new(RelationType::FinishToStart, 0, 1);
    assert_eq!(relation.get_penalty(&arena), 3);

    let changed = relation.attempt_repair(&mut arena);

    assert!(changed);
    assert_eq!(arena[1].start(), 3);
    assert_eq!(relation.get_penalty(&arena), 0);
}
