use eaplanner::hall_of_fame::HallOfFame;
use eaplanner::individual::Individual;

#[test]
fn test_hall_of_fame_keeps_best() {
    let mut hof = HallOfFame::new(1);

    let mut worse = Individual::from_vec(vec![5, 5]);
    worse.fitness = Some(vec![9, 4]);
    let mut better = Individual::from_vec(vec![1, 1]);
    better.fitness = Some(vec![2, 7]);

    hof.update(&vec![worse, better]);

    assert_eq!(hof.items.len(), 1);
    assert_eq!(hof.get(0).fitness, Some(vec![2, 7]));
    assert_eq!(hof.get(0).chromosome, vec![1, 1]);
}

#[test]
fn test_hall_of_fame_idempotent_update() {
    // Re-adding the archived best individual leaves the archive unchanged.
    let mut hof = HallOfFame::new(1);
    let mut best = Individual::from_vec(vec![3, 3]);
    best.fitness = Some(vec![1, 1]);

    hof.update(&vec![best]);
    let first_chromosome = hof.get(0).chromosome.clone();
    let first_fitness = hof.get(0).fitness.clone();

    let mut again = Individual::from_vec(vec![3, 3]);
    again.fitness = Some(vec![1, 1]);
    hof.update(&vec![again]);

    assert_eq!(hof.items.len(), 1);
    assert_eq!(hof.get(0).chromosome, first_chromosome);
    assert_eq!(hof.get(0).fitness, first_fitness);
}

#[test]
fn test_hall_of_fame_stable_ties() {
    // Fitness ties keep their append order: with equal fitness everywhere,
    // the cut keeps the earliest-appended entries, in order.
    let mut hof = HallOfFame::new(2);
    let mut first = Individual::from_vec(vec![1]);
    first.fitness = Some(vec![3, 3]);
    let mut second = Individual::from_vec(vec![2]);
    second.fitness = Some(vec![3, 3]);
    let mut third = Individual::from_vec(vec![3]);
    third.fitness = Some(vec![3, 3]);

    hof.update(&vec![first, second, third]);

    assert_eq!(hof.items.len(), 2);
    assert_eq!(hof.get(0).chromosome, vec![1]);
    assert_eq!(hof.get(1).chromosome, vec![2]);
}

#[test]
fn test_hall_of_fame_monotone() {
    // The best entry never worsens as updates come in.
    let mut hof = HallOfFame::new(2);
    let mut first = Individual::from_vec(vec![0]);
    first.fitness = Some(vec![7, 1]);
    hof.update(&vec![first]);
    assert_eq!(hof.get(0).fitness, Some(vec![7, 1]));

    let mut worse = Individual::from_vec(vec![1]);
    worse.fitness = Some(vec![9, 9]);
    hof.update(&vec![worse]);
    assert_eq!(hof.get(0).fitness, Some(vec![7, 1]));

    let mut better = Individual::from_vec(vec![2]);
    better.fitness = Some(vec![7, 0]);
    hof.update(&vec![better]);
    assert_eq!(hof.get(0).fitness, Some(vec![7, 0]));
    assert_eq!(hof.items.len(), 2);
}
