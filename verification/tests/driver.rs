use eaplanner::assignment::Assignment;
use eaplanner::driver::{replace_if_smaller_or_equal, unevaluated_copies, AlgorithmBase};
use eaplanner::individual::Individual;
use eaplanner::interpreter::AbsoluteScheduleInterpreter;
use eaplanner::schedule::Schedule;

fn three_activity_interpreter() -> AbsoluteScheduleInterpreter {
    let mut schedule = Schedule::new();
    let mut assignments = Vec::new();
    for _ in 0..3 {
        let mut a = Assignment::new(None, 10);
        a.set_start(0);
        a.set_duration(1);
        assignments.push(a);
    }
    schedule.add_assignments(assignments);
    AbsoluteScheduleInterpreter::new(schedule)
}

#[test]
fn test_run_start_spends_one_evaluation_per_individual() {
    let interpreter = three_activity_interpreter();
    let mut base = AlgorithmBase::new(5, 1, 1, 100, -10, 10, interpreter);

    let (population, evaluations) = base.run_start();

    assert_eq!(population.len(), 5);
    assert_eq!(evaluations, 5);
    for individual in &population {
        assert!(individual.fitness.is_some());
        assert_eq!(individual.chromosome.len(), 6);
    }
    assert_eq!(base.hall_of_fame.items.len(), 1);
    assert!(base.hall_of_fame.get(0).fitness.is_some());
}

#[test]
fn test_create_population_draws_within_bounds() {
    let interpreter = three_activity_interpreter();
    let base = AlgorithmBase::new(4, 1, 2, 100, -3, 3, interpreter);
    let init = vec![0; 6];

    let population = base.create_population(4, &init, -3, 3);

    assert_eq!(population.len(), 4);
    for individual in &population {
        assert_eq!(individual.chromosome.len(), 6);
        assert!(individual.fitness.is_none());
        assert!(individual.chromosome.iter().all(|&g| -3 <= g && g <= 3));
    }
}

#[test]
fn test_replace_if_smaller_or_equal() {
    let mut parent_better = Individual::from_vec(vec![1]);
    parent_better.fitness = Some(vec![0, 0]);
    let mut parent_worse = Individual::from_vec(vec![2]);
    parent_worse.fitness = Some(vec![5, 5]);
    let mut population = vec![parent_better, parent_worse];

    let mut child1 = Individual::from_vec(vec![3]);
    child1.fitness = Some(vec![4, 4]);
    let mut child2 = Individual::from_vec(vec![4]);
    child2.fitness = Some(vec![5, 4]);
    let offspring = vec![child1, child2];

    replace_if_smaller_or_equal(&mut population, &offspring);

    // The first child is worse than its parent, the second no worse.
    assert_eq!(population[0].chromosome, vec![1]);
    assert_eq!(population[1].chromosome, vec![4]);
}

#[test]
fn test_unevaluated_copies() {
    let mut evaluated = Individual::from_vec(vec![7, 8]);
    evaluated.fitness = Some(vec![1, 2]);
    let population = vec![evaluated];

    let offspring = unevaluated_copies(&population);

    assert_eq!(offspring.len(), 1);
    assert_eq!(offspring[0].chromosome, vec![7, 8]);
    assert!(offspring[0].fitness.is_none());
    assert_eq!(population[0].fitness, Some(vec![1, 2]));
}
