use gomoku::evolution::fitness_evaluator::tournament::fitness_by_rank;
use std::collections::HashSet;

use gomoku::evolution::crossover::order;
use gomoku::evolution::crossover::pmx::Pmx;
use gomoku::evolution::crossover::uniform::uniform_crossover;
use gomoku::evolution::fitness_evaluator::minimax::MinimaxFitness;
use gomoku::evolution::mutation::insert;
use gomoku::evolution::mutation::inversion::Inversion;
use gomoku::evolution::mutation::swap;
use gomoku::evolution::selection::tournament::{Tournament, TournamentMode};
use gomoku::evolution::selection::HasFitness;
use gomoku::game::freestyle::Freestyle;
use gomoku::gene::Gene;

fn genes(values: &[usize]) -> Vec<Gene> {
    values.iter().copied().map(Gene::new).collect()
}

// ---- fitness evaluation by minimax ----

#[test]
fn fitness_evaluator_minimax_depths_sorted_and_deduped() {
    let evaluator = MinimaxFitness::new(Freestyle { opening_moves: 0 }.into(), vec![6, 2, 4, 2], None);

    assert_eq!(*evaluator.depths(), vec![2, 4, 6]);
}

#[test]
fn minimax_minimax_depths_sorted_and_deduped() {
    let evaluator = MinimaxFitness::new(Freestyle { opening_moves: 0 }.into(), vec![6, 2, 4, 2], None);

    assert_eq!(*evaluator.depths(), vec![2, 4, 6]);
}

#[test]
fn minimax_fitness_keeps_scoring_depth() {
    let evaluator = MinimaxFitness::new(Freestyle { opening_moves: 0 }.into(), vec![3], Some(2));

    assert_eq!(evaluator.scoring_depth(), Some(2));
    assert_eq!(*evaluator.depths(), vec![3]);
}

// ---- inversion ----

#[test]
fn mutate_returns_child_from_internal() {
    let g = genes(&[0, 1, 2, 3, 4]);

    let (child, _) = Inversion.mutate_internal(&g, &mut fastrand::Rng::with_seed(42));
    let public = Inversion.mutate(&g, &mut fastrand::Rng::with_seed(42));

    assert_eq!(public, child);
}

#[test]
fn reverses_segment_and_preserves_rest() {
    let g = genes(&[0, 1, 2, 3, 4]);
    let mut rng = fastrand::Rng::with_seed(42);

    for _ in 0..100 {
        let (child, (start, end)) = Inversion.mutate_internal(&g, &mut rng);

        for i in 0..start {
            assert_eq!(child[i], g[i]);
        }
        for i in start..=end {
            assert_eq!(child[i], g[end - (i - start)]);
        }
        for i in (end + 1)..g.len() {
            assert_eq!(child[i], g[i]);
        }
    }
}

#[test]
fn inversion_preserves_length() {
    let g = genes(&[0, 1, 2, 3, 4]);
    let mut rng = fastrand::Rng::with_seed(42);

    let (child, _) = Inversion.mutate_internal(&g, &mut rng);

    assert_eq!(child.len(), g.len());
}

#[test]
fn start_less_than_end() {
    let g = genes(&[0, 1, 2, 3, 4]);
    let mut rng = fastrand::Rng::with_seed(42);

    for _ in 0..100 {
        let (_, (start, end)) = Inversion.mutate_internal(&g, &mut rng);
        assert!(start < end);
    }
}

#[test]
fn inversion_preserves_all_elements() {
    let g = genes(&[0, 1, 2, 3, 4]);
    let mut rng = fastrand::Rng::with_seed(42);

    let (mut child, _) = Inversion.mutate_internal(&g, &mut rng);
    child.sort();

    assert_eq!(child, genes(&[0, 1, 2, 3, 4]));
}

#[test]
fn inverting_the_same_segment_twice_restores_the_genes() {
    let g = genes(&[0, 1, 2, 3, 4, 5]);
    let (once, (start, end)) = Inversion.mutate_internal(&g, &mut fastrand::Rng::with_seed(7));
    let mut twice = once.clone();
    twice[start..=end].reverse();

    assert_eq!(twice, g);
    assert_ne!(once, g);
}

// ---- swap ----

#[test]
fn swaps_two_elements() {
    let g = genes(&[0, 1, 2, 3, 4]);
    let mut rng = fastrand::Rng::with_seed(42);

    let (child, (a, b)) = swap::mutate_internal(&g, &mut rng);

    assert_eq!(child[a], g[b]);
    assert_eq!(child[b], g[a]);
}

#[test]
fn swap_preserves_length() {
    let g = genes(&[0, 1, 2, 3, 4]);
    let mut rng = fastrand::Rng::with_seed(42);

    let (child, _) = swap::mutate_internal(&g, &mut rng);

    assert_eq!(child.len(), g.len());
}

#[test]
fn swap_indices_are_different() {
    let g = genes(&[0, 1, 2, 3, 4]);
    let mut rng = fastrand::Rng::with_seed(42);

    for _ in 0..100 {
        let (_, (a, b)) = swap::mutate_internal(&g, &mut rng);
        assert_ne!(a, b);
    }
}

#[test]
fn swap_preserves_all_elements() {
    let g = genes(&[0, 1, 2, 3, 4]);
    let mut rng = fastrand::Rng::with_seed(42);

    let (mut child, _) = swap::mutate_internal(&g, &mut rng);
    child.sort();

    assert_eq!(child, genes(&[0, 1, 2, 3, 4]));
}

#[test]
fn swap_mutate_changes_exactly_two_positions() {
    let g = genes(&[0, 1, 2, 3, 4]);

    let child = swap::swap_mutate(&g, &mut fastrand::Rng::with_seed(3));
    let changed = (0..g.len()).filter(|&i| child[i] != g[i]).count();

    assert_eq!(changed, 2);
}

// ---- insert ----

#[test]
fn moves_element_to_new_position() {
    let g = genes(&[0, 1, 2, 3, 4]);
    let mut rng = fastrand::Rng::with_seed(42);

    let (child, (from, to)) = insert::mutate_internal(&g, &mut rng);

    assert_eq!(child[to], g[from]);
}

#[test]
fn insert_preserves_length() {
    let g = genes(&[0, 1, 2, 3, 4]);
    let mut rng = fastrand::Rng::with_seed(42);

    let (child, _) = insert::mutate_internal(&g, &mut rng);

    assert_eq!(child.len(), g.len());
}

#[test]
fn insert_indices_are_different() {
    let g = genes(&[0, 1, 2, 3, 4]);
    let mut rng = fastrand::Rng::with_seed(42);

    for _ in 0..100 {
        let (_, (from, to)) = insert::mutate_internal(&g, &mut rng);
        assert_ne!(from, to);
    }
}

#[test]
fn insert_preserves_all_elements() {
    let g = genes(&[0, 1, 2, 3, 4]);
    let mut rng = fastrand::Rng::with_seed(42);

    let (mut child, _) = insert::mutate_internal(&g, &mut rng);
    child.sort();

    assert_eq!(child, genes(&[0, 1, 2, 3, 4]));
}

#[test]
fn elements_outside_range_unchanged() {
    let g = genes(&[0, 1, 2, 3, 4]);
    let mut rng = fastrand::Rng::with_seed(42);

    for _ in 0..100 {
        let (child, (from, to)) = insert::mutate_internal(&g, &mut rng);
        let (lo, hi) = if from < to { (from, to) } else { (to, from) };

        for i in 0..lo {
            assert_eq!(child[i], g[i]);
        }
        for i in (hi + 1)..g.len() {
            assert_eq!(child[i], g[i]);
        }
    }
}

#[test]
fn forward_move_shifts_elements_left() {
    let g = genes(&[0, 1, 2, 3, 4]);
    let mut rng = fastrand::Rng::with_seed(42);

    for _ in 0..1000 {
        let (child, (from, to)) = insert::mutate_internal(&g, &mut rng);

        if from < to {
            for i in from..to {
                assert_eq!(child[i], g[i + 1]);
            }
            return;
        }
    }
    panic!("no forward move in 1000 iterations");
}

#[test]
fn backward_move_shifts_elements_right() {
    let g = genes(&[0, 1, 2, 3, 4]);
    let mut rng = fastrand::Rng::with_seed(42);

    for _ in 0..1000 {
        let (child, (from, to)) = insert::mutate_internal(&g, &mut rng);

        if from > to {
            for i in (to + 1)..=from {
                assert_eq!(child[i], g[i - 1]);
            }
            return;
        }
    }
    panic!("no backward move in 1000 iterations");
}

#[test]
fn insert_mutate_keeps_every_gene() {
    let g = genes(&[4, 3, 2, 1, 0]);

    let mut child = insert::insert_mutate(&g, &mut fastrand::Rng::with_seed(5));
    assert_ne!(child, g);
    child.sort();

    assert_eq!(child, genes(&[0, 1, 2, 3, 4]));
}

// ---- uniform crossover ----

#[test]
fn child_has_same_length() {
    let parent1 = vec![1.0, 2.0, 3.0, 4.0];
    let parent2 = vec![5.0, 6.0, 7.0, 8.0];
    let mut rng = fastrand::Rng::with_seed(42);

    let child = uniform_crossover(&parent1, &parent2, &mut rng);

    assert_eq!(child.len(), parent1.len());
}

#[test]
fn uniform_child_contains_only_parent_values() {
    let parent1 = vec![1.0, 2.0, 3.0, 4.0];
    let parent2 = vec![5.0, 6.0, 7.0, 8.0];
    let mut rng = fastrand::Rng::with_seed(42);

    let child = uniform_crossover(&parent1, &parent2, &mut rng);

    for (i, &val) in child.iter().enumerate() {
        assert!(val == parent1[i] || val == parent2[i]);
    }
}

#[test]
fn uniform_deterministic_with_same_seed() {
    let parent1 = vec![1.0, 2.0, 3.0, 4.0];
    let parent2 = vec![5.0, 6.0, 7.0, 8.0];

    let child1 = uniform_crossover(&parent1, &parent2, &mut fastrand::Rng::with_seed(42));
    let child2 = uniform_crossover(&parent1, &parent2, &mut fastrand::Rng::with_seed(42));

    assert_eq!(child1, child2);
}

#[test]
fn uniform_mixes_both_parents() {
    let parent1 = vec![1.0_f32; 100];
    let parent2 = vec![2.0_f32; 100];
    let mut rng = fastrand::Rng::with_seed(42);

    let child = uniform_crossover(&parent1, &parent2, &mut rng);

    let from_parent1 = child.iter().filter(|&&v| v == 1.0).count();
    let from_parent2 = child.iter().filter(|&&v| v == 2.0).count();

    assert!(from_parent1 > 0, "should have some values from parent1");
    assert!(from_parent2 > 0, "should have some values from parent2");
}

#[test]
fn works_with_integers() {
    let parent1 = vec![1, 2, 3, 4];
    let parent2 = vec![5, 6, 7, 8];
    let mut rng = fastrand::Rng::with_seed(42);

    let child = uniform_crossover(&parent1, &parent2, &mut rng);

    assert_eq!(child.len(), 4);
    for (i, &val) in child.iter().enumerate() {
        assert!(val == parent1[i] || val == parent2[i]);
    }
}

// ---- order crossover ----

#[test]
fn order_child_has_same_size() {
    let parent1 = genes(&[0, 1, 2, 3, 4, 5, 6, 7]);
    let parent2 = genes(&[7, 6, 5, 4, 3, 2, 1, 0]);
    let mut rng = fastrand::Rng::with_seed(42);

    let (child, _) = order::crossover_internal(&parent1, &parent2, &mut rng);

    assert_eq!(child.len(), parent1.len());
}

#[test]
fn order_child_is_valid_permutation() {
    let parent1 = genes(&[0, 1, 2, 3, 4, 5, 6, 7]);
    let parent2 = genes(&[7, 6, 5, 4, 3, 2, 1, 0]);
    let mut rng = fastrand::Rng::with_seed(13);

    let (mut child, _) = order::crossover_internal(&parent1, &parent2, &mut rng);
    child.sort();

    assert_eq!(child, genes(&[0, 1, 2, 3, 4, 5, 6, 7]));
}

#[test]
fn order_segment_from_parent1_preserved() {
    let parent1 = genes(&[0, 1, 2, 3, 4, 5, 6, 7]);
    let parent2 = genes(&[7, 6, 5, 4, 3, 2, 1, 0]);
    let mut rng = fastrand::Rng::with_seed(13);

    let (child, (start, end)) = order::crossover_internal(&parent1, &parent2, &mut rng);

    assert!(end - start >= 2, "segment too small: ({start}, {end})");
    assert_eq!(&child[start..=end], &parent1[start..=end]);
}

#[test]
fn maintains_parent2_order_outside_segment() {
    let parent1 = genes(&[0, 1, 2, 3, 4, 5, 6, 7]);
    let parent2 = genes(&[7, 6, 5, 4, 3, 2, 1, 0]);
    let mut rng = fastrand::Rng::with_seed(13);

    let (child, (start, end)) = order::crossover_internal(&parent1, &parent2, &mut rng);

    assert!(end - start >= 2, "segment too small: ({start}, {end})");

    let segment_values: HashSet<_> = parent1[start..=end].iter().collect();

    let child_outside: Vec<_> = child
        .iter()
        .enumerate()
        .filter(|(i, _)| *i < start || *i > end)
        .map(|(_, v)| v)
        .collect();

    let parent2_filtered: Vec<_> = parent2.iter().filter(|x| !segment_values.contains(x)).collect();

    assert_eq!(child_outside, parent2_filtered);
}

#[test]
fn order_start_less_than_or_equal_to_end() {
    let parent1 = genes(&[0, 1, 2, 3, 4, 5, 6, 7]);
    let parent2 = genes(&[7, 6, 5, 4, 3, 2, 1, 0]);
    let mut rng = fastrand::Rng::with_seed(42);

    for _ in 0..100 {
        let (_, (start, end)) = order::crossover_internal(&parent1, &parent2, &mut rng);
        assert!(start <= end);
    }
}

#[test]
fn order_works_with_size_one() {
    let parent1 = genes(&[0]);
    let parent2 = genes(&[0]);
    let mut rng = fastrand::Rng::with_seed(42);

    let (child, segment) = order::crossover_internal(&parent1, &parent2, &mut rng);

    assert_eq!(child, genes(&[0]));
    assert_eq!(segment, (0, 0));
}

#[test]
fn order_deterministic_with_same_seed() {
    let parent1 = genes(&[0, 1, 2, 3, 4, 5, 6, 7]);
    let parent2 = genes(&[7, 6, 5, 4, 3, 2, 1, 0]);

    let (child1, _) = order::crossover_internal(&parent1, &parent2, &mut fastrand::Rng::with_seed(42));
    let (child2, _) = order::crossover_internal(&parent1, &parent2, &mut fastrand::Rng::with_seed(42));

    assert_eq!(child1, child2);
}

#[test]
fn order_different_seeds_produce_different_results() {
    let parent1 = genes(&[0, 1, 2, 3, 4, 5, 6, 7]);
    let parent2 = genes(&[7, 6, 5, 4, 3, 2, 1, 0]);

    let results: Vec<_> = (0..20)
        .map(|seed| order::crossover_internal(&parent1, &parent2, &mut fastrand::Rng::with_seed(seed)).0)
        .collect();

    let unique: HashSet<_> = results.iter().collect();
    assert!(unique.len() > 1);
}

#[test]
fn order_crossover_matches_its_internal_child() {
    let parent1 = genes(&[2, 0, 1, 3]);
    let parent2 = genes(&[3, 1, 0, 2]);

    let (child, _) = order::crossover_internal(&parent1, &parent2, &mut fastrand::Rng::with_seed(9));
    let public = order::order_crossover(&parent1, &parent2, &mut fastrand::Rng::with_seed(9));

    assert_eq!(public, child);
}

// ---- partially mapped crossover ----

#[test]
fn crossover_returns_child_from_internal() {
    let parent1 = vec![1, 2, 3, 4, 5, 6, 7, 8];
    let parent2 = vec![8, 7, 6, 5, 4, 3, 2, 1];

    let (child, _) = Pmx.crossover_internal(&parent1, &parent2, &mut fastrand::Rng::with_seed(42));
    let public = Pmx.crossover(&parent1, &parent2, &mut fastrand::Rng::with_seed(42));

    assert_eq!(public, child);
}

#[test]
fn pmx_child_has_same_size() {
    let parent1 = vec![1, 2, 3, 4, 5, 6, 7, 8];
    let parent2 = vec![8, 7, 6, 5, 4, 3, 2, 1];
    let mut rng = fastrand::Rng::with_seed(42);

    let (child, _) = Pmx.crossover_internal(&parent1, &parent2, &mut rng);

    assert_eq!(child.len(), parent1.len());
}

#[test]
fn pmx_child_is_valid_permutation() {
    let parent1 = vec![1, 2, 3, 4, 5, 6, 7, 8];
    let parent2 = vec![8, 7, 6, 5, 4, 3, 2, 1];
    let mut rng = fastrand::Rng::with_seed(13);

    let (mut child, _) = Pmx.crossover_internal(&parent1, &parent2, &mut rng);
    child.sort();

    assert_eq!(child, vec![1, 2, 3, 4, 5, 6, 7, 8]);
}

#[test]
fn pmx_segment_from_parent1_preserved() {
    let parent1 = vec![1, 2, 3, 4, 5, 6, 7, 8];
    let parent2 = vec![8, 7, 6, 5, 4, 3, 2, 1];
    let mut rng = fastrand::Rng::with_seed(13);

    let (child, (start, end)) = Pmx.crossover_internal(&parent1, &parent2, &mut rng);

    assert!(end - start >= 2, "segment too small: ({start}, {end})");
    assert_eq!(&child[start..=end], &parent1[start..=end]);
}

#[test]
fn positions_without_conflict_use_parent2_directly() {
    let parent1 = vec![1, 2, 3, 4, 5, 6, 7, 8];
    let parent2 = vec![8, 7, 6, 5, 4, 3, 2, 1];
    let mut rng = fastrand::Rng::with_seed(13);

    let (child, (start, end)) = Pmx.crossover_internal(&parent1, &parent2, &mut rng);

    assert!(end - start >= 2, "segment too small: ({start}, {end})");

    let segment_values: HashSet<_> = parent1[start..=end].iter().collect();

    let mut tested_count = 0;
    for i in (0..start).chain(end + 1..parent1.len()) {
        if !segment_values.contains(&parent2[i]) {
            assert_eq!(child[i], parent2[i], "position {i} should use parent2 directly");
            tested_count += 1;
        }
    }
    assert!(tested_count > 0, "no positions without conflict to test");
}

#[test]
fn pmx_start_less_than_or_equal_to_end() {
    let parent1 = vec![1, 2, 3, 4, 5, 6, 7, 8];
    let parent2 = vec![8, 7, 6, 5, 4, 3, 2, 1];
    let mut rng = fastrand::Rng::with_seed(42);

    for _ in 0..100 {
        let (_, (start, end)) = Pmx.crossover_internal(&parent1, &parent2, &mut rng);
        assert!(start <= end);
    }
}

#[test]
fn pmx_works_with_size_one() {
    let parent1 = vec![1];
    let parent2 = vec![1];
    let mut rng = fastrand::Rng::with_seed(42);

    let (child, segment) = Pmx.crossover_internal(&parent1, &parent2, &mut rng);

    assert_eq!(child, vec![1]);
    assert_eq!(segment, (0, 0));
}

#[test]
fn pmx_deterministic_with_same_seed() {
    let parent1 = vec![1, 2, 3, 4, 5, 6, 7, 8];
    let parent2 = vec![8, 7, 6, 5, 4, 3, 2, 1];

    let (child1, _) = Pmx.crossover_internal(&parent1, &parent2, &mut fastrand::Rng::with_seed(42));
    let (child2, _) = Pmx.crossover_internal(&parent1, &parent2, &mut fastrand::Rng::with_seed(42));

    assert_eq!(child1, child2);
}

#[test]
fn pmx_different_seeds_produce_different_results() {
    let parent1 = vec![1, 2, 3, 4, 5, 6, 7, 8];
    let parent2 = vec![8, 7, 6, 5, 4, 3, 2, 1];

    let results: Vec<_> = (0..20)
        .map(|seed| Pmx.crossover_internal(&parent1, &parent2, &mut fastrand::Rng::with_seed(seed)).0)
        .collect();

    let unique: HashSet<_> = results.iter().collect();
    assert!(unique.len() > 1);
}

#[test]
fn mapping_resolves_conflicts() {
    let parent1 = vec![1, 2, 3, 4, 5, 6, 7, 8];
    let parent2 = vec![3, 4, 5, 6, 7, 8, 1, 2];

    for seed in 0..100 {
        let (mut child, _) = Pmx.crossover_internal(&parent1, &parent2, &mut fastrand::Rng::with_seed(seed));
        child.sort();
        assert_eq!(child, vec![1, 2, 3, 4, 5, 6, 7, 8], "seed {seed} produced invalid permutation");
    }
}

// ---- tournament selection ----

struct TestIndividual {
    fitness: u32,
}

impl HasFitness for TestIndividual {
    fn spec_fitness(&self) -> u32 {
        self.fitness
    }

    fn fitness(&self) -> u32 {
        self.fitness
    }
}

fn population(fitnesses: &[u32]) -> Vec<TestIndividual> {
    fitnesses.iter().map(|&fitness| TestIndividual { fitness }).collect()
}

fn select_fitnesses(selector: Tournament, pop: &[TestIndividual], seed: u64, rounds: usize) -> Vec<u32> {
    let mut rng = fastrand::Rng::with_seed(seed);
    (0..rounds).map(|_| pop[selector.select(pop, &mut rng)].fitness()).collect()
}

fn average_fitness(selector: Tournament, pop: &[TestIndividual]) -> f32 {
    let picks = select_fitnesses(selector, pop, 42, 50);
    picks.iter().map(|&f| f as f32).sum::<f32>() / 50.0
}

#[test]
fn tournament_returns_individual_from_population() {
    let pop = population(&[10, 20, 30, 40, 50]);
    let mut rng = fastrand::Rng::with_seed(42);

    let result = Tournament::new(3, TournamentMode::WithReplacement).select(&pop, &mut rng);

    assert!(pop.iter().any(|ind| ind.fitness() == pop[result].fitness()));
}

#[test]
fn tournament_full_tournament_returns_best() {
    let pop = population(&[100, 1, 2, 3, 4]);
    let mut rng = fastrand::Rng::with_seed(42);

    let result = Tournament::new(5, TournamentMode::WithReplacement).select(&pop, &mut rng);

    assert_eq!(pop[result].fitness(), 100);
}

#[test]
fn tournament_deterministic_with_same_seed() {
    let pop = population(&[10, 20, 30, 40, 50, 60, 70, 80]);
    let sel = Tournament::new(3, TournamentMode::WithReplacement);

    assert_eq!(select_fitnesses(sel, &pop, 42, 5), select_fitnesses(sel, &pop, 42, 5));
}

#[test]
fn tournament_different_seeds_produce_different_results() {
    let pop = population(&[10, 20, 30, 40, 50, 60, 70, 80]);
    let sel = Tournament::new(2, TournamentMode::WithReplacement);

    assert_ne!(select_fitnesses(sel, &pop, 42, 10), select_fitnesses(sel, &pop, 99, 10));
}

#[test]
fn tournament_larger_tournament_increases_selection_pressure() {
    let pop = population(&[10, 20, 30, 40, 50, 60, 70, 80, 90, 100]);

    let small_avg = average_fitness(Tournament::new(2, TournamentMode::WithReplacement), &pop);
    let large_avg = average_fitness(Tournament::new(8, TournamentMode::WithReplacement), &pop);

    assert!(large_avg > small_avg);
}

#[test]
fn may_miss_best_when_tournament_equals_population() {
    let pop = population(&[100, 1, 1, 1, 1]);
    let sel = Tournament::new(5, TournamentMode::WithReplacement);

    let mut found_non_best = false;
    for seed in 0..1000 {
        let mut rng = fastrand::Rng::with_seed(seed);
        if pop[sel.select(&pop, &mut rng)].fitness() != 100 {
            found_non_best = true;
            break;
        }
    }
    assert!(found_non_best, "with replacement should sometimes miss the best");
}

#[test]
fn tournament_without_replacement_returns_individual_from_population() {
    let pop = population(&[10, 20, 30, 40, 50]);
    let mut rng = fastrand::Rng::with_seed(42);

    let result = Tournament::new(3, TournamentMode::WithoutReplacement).select(&pop, &mut rng);

    assert!(pop.iter().any(|ind| ind.fitness() == pop[result].fitness()));
}

#[test]
fn tournament_without_replacement_full_tournament_returns_best() {
    let pop = population(&[100, 1, 2, 3, 4]);
    let mut rng = fastrand::Rng::with_seed(42);

    let result = Tournament::new(5, TournamentMode::WithoutReplacement).select(&pop, &mut rng);

    assert_eq!(pop[result].fitness(), 100);
}

#[test]
fn tournament_without_replacement_deterministic_with_same_seed() {
    let pop = population(&[10, 20, 30, 40, 50, 60, 70, 80]);
    let sel = Tournament::new(3, TournamentMode::WithoutReplacement);

    assert_eq!(select_fitnesses(sel, &pop, 42, 5), select_fitnesses(sel, &pop, 42, 5));
}

#[test]
fn tournament_without_replacement_different_seeds_produce_different_results() {
    let pop = population(&[10, 20, 30, 40, 50, 60, 70, 80]);
    let sel = Tournament::new(2, TournamentMode::WithoutReplacement);

    assert_ne!(select_fitnesses(sel, &pop, 42, 10), select_fitnesses(sel, &pop, 99, 10));
}

#[test]
fn tournament_without_replacement_larger_tournament_increases_selection_pressure() {
    let pop = population(&[10, 20, 30, 40, 50, 60, 70, 80, 90, 100]);

    let small_avg = average_fitness(Tournament::new(2, TournamentMode::WithoutReplacement), &pop);
    let large_avg = average_fitness(Tournament::new(8, TournamentMode::WithoutReplacement), &pop);

    assert!(large_avg > small_avg);
}

#[test]
fn always_finds_best_when_tournament_equals_population() {
    let pop = population(&[100, 1, 1, 1, 1]);
    let sel = Tournament::new(5, TournamentMode::WithoutReplacement);

    for seed in 0..100 {
        let mut rng = fastrand::Rng::with_seed(seed);
        assert_eq!(pop[sel.select(&pop, &mut rng)].fitness(), 100);
    }
}

#[test]
fn tournament_size_one_returns_random() {
    let pop = population(&[10, 20, 30, 40, 50]);
    let sel = Tournament::new(1, TournamentMode::WithReplacement);

    let results: Vec<u32> = (0..100)
        .map(|seed| {
            let mut rng = fastrand::Rng::with_seed(seed);
            pop[sel.select(&pop, &mut rng)].fitness()
        })
        .collect();

    let unique: HashSet<_> = results.iter().collect();
    assert!(unique.len() > 1, "should select different individuals");
}

#[test]
fn tournament_fitness_is_population_size_minus_rank() {
    assert_eq!(fitness_by_rank(&[2, 0, 1]), vec![2, 1, 3]);
    assert_eq!(fitness_by_rank(&[0]), vec![1]);
    assert!(fitness_by_rank(&[]).is_empty());
}
