use eaplanner::individual::Individual;
use eaplanner::variation::crossover;

#[test]
fn test_crossover() {
    let parent1_chromosome = vec![1; 10];
    let mut parent1 = Individual::from_vec(parent1_chromosome.clone());
    parent1.fitness = Some(vec![1; 2]);

    let parent2_chromosome = vec![2; 10];
    let mut parent2 = Individual::from_vec(parent2_chromosome.clone());
    parent2.fitness = Some(vec![2; 2]);

    let child = crossover(&parent1, &parent2);

    // Check that parents are not modified
    assert_eq!(parent1.chromosome, vec![1; 10]);
    assert_eq!(parent1.fitness, Some(vec![1; 2]));
    assert_eq!(parent2.chromosome, vec![2; 10]);
    assert_eq!(parent2.fitness, Some(vec![2; 2]));

    // Check that child is a crossover of parents
    assert!(child.chromosome.iter().all(|&x| x == 1 || x == 2));
    assert_eq!(child.fitness, None);
    assert_eq!(child.chromosome.len(), 10);
}
