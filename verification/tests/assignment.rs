use eaplanner::assignment::Assignment;

#[test]
fn test_assignment_set() {
    let mut assignment = Assignment::new(None, 10);

    assignment.set_start(2);
    assignment.set_duration(1);

    assert_eq!(assignment.start(), 2);
    assert_eq!(assignment.duration(), 1);
    assert_eq!(assignment.end(), 3);
    assert_eq!(assignment.hours_per_day(), 10);
}

#[test]
fn test_assignment_set_negative() {
    let mut assignment = Assignment::new(None, 10);

    assignment.set_start(-1);
    assignment.set_duration(-1);

    assert_eq!(assignment.start(), -1);
    assert_eq!(assignment.duration(), 1);
    assert_eq!(assignment.end(), 0);
    assert_eq!(assignment.hours_per_day(), 10);
}

#[test]
fn test_assignment_set_hours() {
    let mut assignment = Assignment::new(Some(7), 10);

    assignment.set_start(0);
    assignment.set_duration(4);
    assignment.set_hours(9);

    assert_eq!(assignment.id(), 7);
    assert_eq!(assignment.hours(), 9);
    assert_eq!(assignment.hours_per_day(), 3);
}

#[test]
fn test_assignment_set_end() {
    let mut assignment = Assignment::new(None, 10);

    assignment.set_start(2);
    assignment.set_duration(3);
    assignment.set_end(10);

    assert_eq!(assignment.start(), 7);
    assert_eq!(assignment.end(), 10);
    assert_eq!(assignment.duration(), 3);
}
