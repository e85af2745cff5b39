use eaplanner::assignment::Assignment;
use eaplanner::constraint::{Constraint, RelationConstraint};
use eaplanner::interpreter::AbsoluteScheduleInterpreter;
use eaplanner::relation_type::RelationType;
use eaplanner::schedule::Schedule;

#[test]
fn test_absolute_interpret() {
    // arrange
    let assignments = vec![
        Assignment::new(None, 10),
        Assignment::new(None, 10),
        Assignment::new(None, 10),
    ];
    let mut schedule = Schedule::new();
    schedule.add_assignments(assignments);
    let mut interpreter = AbsoluteScheduleInterpreter::new(schedule);
    let chromosome = vec![0, 1, 9, 1, 3, 1];

    // act
    interpreter.interpret(&chromosome);

    // assert
    assert_eq!(interpreter.schedule.assignments[0].start(), 0);
    assert_eq!(interpreter.schedule.assignments[0].duration(), 1);
    assert_eq!(interpreter.schedule.assignments[1].start(), 9);
    assert_eq!(interpreter.schedule.assignments[1].duration(), 1);
    assert_eq!(interpreter.schedule.assignments[2].start(), 3);
    assert_eq!(interpreter.schedule.assignments[2].duration(), 1);
    assert_eq!(interpreter.schedule.get_total_makespan(), 10);
    assert_eq!(interpreter.schedule.get_total_penalty(), 0);
}

#[test]
fn test_evaluate_without_repair() {
    let assignments = vec![
        Assignment::new(None, 10),
        Assignment::new(None, 10),
        Assignment::new(None, 10),
    ];
    let mut schedule = Schedule::new();
    schedule.add_assignments(assignments);
    let mut interpreter = AbsoluteScheduleInterpreter::new(schedule);
    let chromosome = vec![0, 1, 9, 1, 3, 1];

    let scores = interpreter.evaluate(&chromosome, 0, 1);

    assert_eq!(scores, vec![0, 10]);
    assert_eq!(interpreter.get_chromosome(), vec![0, 1, 9, 1, 3, 1]);
}

#[test]
fn test_evaluate_with_certain_repair() {
    let assignments = vec![Assignment::new(None, 10), Assignment::new(None, 10)];
    let mut schedule = Schedule::new();
    schedule.add_assignments(assignments);
    schedule.add_constraint(Constraint::Relation(RelationConstraint::new(
        RelationType::FinishToStart,
        0,
        1,
    )));
    let mut interpreter = AbsoluteScheduleInterpreter::new(schedule);

    // Predecessor ends at 3, successor starts at 0: repaired with certainty.
    let scores = interpreter.evaluate(&vec![2, 1, 0, 1], 1, 1);

    assert_eq!(scores[0], 0);
    assert_eq!(interpreter.schedule.assignments[1].start(), 3);
}
