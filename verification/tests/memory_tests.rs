use cif_stage0::grid::Grid;
use cif_stage0::memory::ExperienceMemory;

fn grid_at(size: usize, r: usize, c: usize) -> Grid {
    let mut g = Grid::filled(size, size, 0);
    g.set(r, c, 1);
    g
}

fn confidence(mem: &ExperienceMemory, action: u8, before: &Grid) -> f64 {
    let (max_count, total) = mem.prediction_tally(action, before);
    if total == 0 {
        0.0
    } else {
        max_count as f64 / total as f64
    }
}

#[test]
fn test_store_and_retrieve_exact() {
    let mut mem = ExperienceMemory::new();
    let before = grid_at(3, 1, 1);
    let after = grid_at(3, 0, 1);
    mem.store(0, before.clone(), after.clone());
    let result = mem.retrieve_exact(0, &before);
    assert_eq!(result, Some(&after));
}

#[test]
fn test_dedup_increments_count() {
    let mut mem = ExperienceMemory::new();
    let before = grid_at(3, 1, 1);
    let after = grid_at(3, 0, 1);
    mem.store(0, before.clone(), after.clone());
    mem.store(0, before.clone(), after.clone());
    mem.store(0, before.clone(), after.clone());
    assert_eq!(mem.unique_count(), 1);
    assert_eq!(mem.total_stores(), 3);
    assert_eq!(mem.familiarity(0, &before), 3);
}

#[test]
fn test_retrieve_approximate() {
    let mut mem = ExperienceMemory::new();
    let before = grid_at(3, 1, 1);
    let after = grid_at(3, 0, 1);
    mem.store(0, before.clone(), after.clone());
    let query = grid_at(3, 1, 2);
    assert!(mem.retrieve_exact(0, &query).is_none());
    let result = mem.retrieve_approximate(0, &query);
    assert_eq!(result, Some(&after));
}

#[test]
fn test_most_common_outcome() {
    let mut mem = ExperienceMemory::new();
    let outcome_a = grid_at(3, 0, 0);
    let outcome_b = grid_at(3, 0, 1);
    for _ in 0..3 {
        mem.store(0, grid_at(3, 1, 0), outcome_a.clone());
    }
    mem.store(0, grid_at(3, 1, 1), outcome_b.clone());
    let common = mem.most_common_outcome(0);
    assert_eq!(common, Some(&outcome_a));
}

#[test]
fn test_no_match_returns_none() {
    let mem = ExperienceMemory::new();
    let query = grid_at(3, 1, 1);
    assert!(mem.retrieve(0, &query).is_none());
    assert!(mem.most_common_outcome(0).is_none());
}

#[test]
fn memory_test_confidence_deterministic() {
    let mut mem = ExperienceMemory::new();
    let before = grid_at(3, 1, 1);
    let after = grid_at(3, 0, 1);
    for _ in 0..10 {
        mem.store(0, before.clone(), after.clone());
    }
    assert!((confidence(&mem, 0, &before) - 1.0).abs() < f64::EPSILON);
}

#[test]
fn test_confidence_stochastic() {
    let mut mem = ExperienceMemory::new();
    let before = grid_at(3, 1, 1);
    let after_a = grid_at(3, 0, 1);
    let after_b = grid_at(3, 2, 1);
    for _ in 0..7 {
        mem.store(0, before.clone(), after_a.clone());
    }
    for _ in 0..3 {
        mem.store(0, before.clone(), after_b.clone());
    }
    assert!((confidence(&mem, 0, &before) - 0.7).abs() < f64::EPSILON);
}

#[test]
fn test_confidence_no_data() {
    let mem = ExperienceMemory::new();
    let before = grid_at(3, 1, 1);
    assert!((confidence(&mem, 0, &before)).abs() < f64::EPSILON);
}

#[test]
fn test_different_actions_isolated() {
    let mut mem = ExperienceMemory::new();
    let state = grid_at(3, 1, 1);
    let after_up = grid_at(3, 0, 1);
    let after_down = grid_at(3, 2, 1);
    mem.store(0, state.clone(), after_up.clone());
    mem.store(1, state.clone(), after_down.clone());
    assert_eq!(mem.retrieve_exact(0, &state), Some(&after_up));
    assert_eq!(mem.retrieve_exact(1, &state), Some(&after_down));
    assert!(mem.retrieve_exact(2, &state).is_none());
}

#[test]
fn exact_prefers_highest_count_then_latest() {
    let mut mem = ExperienceMemory::new();
    let state = grid_at(3, 1, 1);
    let a = grid_at(3, 0, 1);
    let b = grid_at(3, 2, 1);
    mem.store(0, state.clone(), a.clone());
    mem.store(0, state.clone(), b.clone());
    // equal counts: the later tuple wins
    assert_eq!(mem.retrieve_exact(0, &state), Some(&b));
    mem.store(0, state.clone(), a.clone());
    assert_eq!(mem.retrieve_exact(0, &state), Some(&a));
}

#[test]
fn approximate_prefers_first_among_equally_near() {
    let mut mem = ExperienceMemory::new();
    let out1 = grid_at(3, 2, 2);
    let out2 = grid_at(3, 0, 0);
    mem.store(0, grid_at(3, 0, 1), out1.clone());
    mem.store(0, grid_at(3, 1, 0), out2.clone());
    // query (1,1) is at distance 2 from both stored states
    assert_eq!(mem.retrieve_approximate(0, &grid_at(3, 1, 1)), Some(&out1));
    assert_eq!(mem.retrieve(0, &grid_at(3, 1, 1)), Some(&out1));
    assert!(mem.retrieve_approximate(3, &grid_at(3, 1, 1)).is_none());
}

#[test]
fn most_common_sums_over_states() {
    let mut mem = ExperienceMemory::new();
    let x = grid_at(3, 0, 0);
    let y = grid_at(3, 2, 2);
    mem.store(1, grid_at(3, 1, 1), y.clone());
    mem.store(1, grid_at(3, 1, 1), y.clone());
    mem.store(1, grid_at(3, 0, 1), x.clone());
    mem.store(1, grid_at(3, 1, 0), x.clone());
    mem.store(1, grid_at(3, 1, 2), x.clone());
    // x totals 3 over three tuples, y totals 2 in one tuple
    assert_eq!(mem.most_common_outcome(1), Some(&x));
}

#[test]
fn counts_per_action_and_tuples() {
    let mut mem = ExperienceMemory::new();
    mem.store(0, grid_at(3, 1, 1), grid_at(3, 0, 1));
    mem.store(0, grid_at(3, 0, 1), grid_at(3, 0, 1));
    mem.store(2, grid_at(3, 1, 1), grid_at(3, 1, 0));
    mem.store(0, grid_at(3, 1, 1), grid_at(3, 0, 1));
    assert_eq!(mem.count_for_action(0), 2);
    assert_eq!(mem.count_for_action(2), 1);
    assert_eq!(mem.count_for_action(3), 0);
    let ts = mem.iter_tuples();
    assert_eq!(ts.len(), 3);
    assert_eq!(ts[0].count, 2);
    assert!(ts.iter().all(|t| t.self_caused));
    assert_eq!(mem.prediction_tally(0, &grid_at(3, 1, 1)), (2, 2));
}

#[test]
fn recall_answers_whenever_action_was_seen() {
    let mut mem = ExperienceMemory::new();
    mem.store(0, grid_at(3, 1, 1), grid_at(3, 0, 1));
    let unseen = grid_at(3, 2, 2);
    assert!(mem.retrieve_exact(0, &unseen).is_none());
    assert_eq!(mem.retrieve_approximate(0, &unseen), Some(&grid_at(3, 0, 1)));
    assert_eq!(mem.retrieve(0, &unseen), Some(&grid_at(3, 0, 1)));
    assert_eq!(mem.most_common_outcome(0), Some(&grid_at(3, 0, 1)));
    assert!(mem.retrieve(1, &unseen).is_none());
    assert!(mem.most_common_outcome(1).is_none());
}
