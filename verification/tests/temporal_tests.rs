use cif_stage0::memory::ExperienceMemory;
use cif_stage0::grid::Grid;
use cif_stage0::temporal::{context_distance, TemporalMemory};

fn grid_at(size: usize, r: usize, c: usize) -> Grid {
    let mut g = Grid::filled(size, size, 0);
    g.set(r, c, 1);
    g
}

#[test]
fn test_context_zero_like_experience_memory() {
    let mut mem = TemporalMemory::new(0);
    let before = grid_at(3, 1, 1);
    let after = grid_at(3, 0, 1);
    mem.store(&[], 0, before.clone(), after.clone());
    let result = mem.retrieve(&[], 0, &before);
    assert_eq!(result, Some(&after));
    assert_eq!(mem.unique_count(), 1);
}

#[test]
fn test_exact_context_match() {
    let mut mem = TemporalMemory::new(2);
    let s0 = grid_at(3, 1, 1);
    let s1 = grid_at(3, 0, 1);
    let s2 = grid_at(3, 0, 2);
    let after = grid_at(3, 1, 2);
    let ctx = vec![(0u8, s0.clone()), (1u8, s1.clone())];
    mem.store(&ctx, 2, s2.clone(), after.clone());
    let result = mem.retrieve(&ctx, 2, &s2);
    assert_eq!(result, Some(&after));
}

#[test]
fn test_different_context_different_prediction() {
    let mut mem = TemporalMemory::new(1);
    let state = grid_at(3, 1, 1);
    let after_a = grid_at(3, 0, 1);
    let after_b = grid_at(3, 2, 1);
    let ctx_a = vec![(0u8, grid_at(3, 0, 0))];
    let ctx_b = vec![(1u8, grid_at(3, 2, 2))];
    for _ in 0..5 {
        mem.store(&ctx_a, 0, state.clone(), after_a.clone());
        mem.store(&ctx_b, 0, state.clone(), after_b.clone());
    }
    assert_eq!(mem.retrieve(&ctx_a, 0, &state), Some(&after_a));
    assert_eq!(mem.retrieve(&ctx_b, 0, &state), Some(&after_b));
}

#[test]
fn test_approximate_context_fallback() {
    let mut mem = TemporalMemory::new(1);
    let state = grid_at(3, 1, 1);
    let after = grid_at(3, 0, 1);
    let ctx_stored = vec![(0u8, grid_at(3, 0, 0))];
    mem.store(&ctx_stored, 0, state.clone(), after.clone());
    let ctx_query = vec![(0u8, grid_at(3, 0, 1))];
    let result = mem.retrieve(&ctx_query, 0, &state);
    assert_eq!(result, Some(&after));
}

#[test]
fn test_dedup_with_context() {
    let mut mem = TemporalMemory::new(1);
    let state = grid_at(3, 1, 1);
    let after = grid_at(3, 0, 1);
    let ctx = vec![(0u8, grid_at(3, 0, 0))];
    for _ in 0..5 {
        mem.store(&ctx, 0, state.clone(), after.clone());
    }
    assert_eq!(mem.unique_count(), 1);
    assert_eq!(mem.total_stores(), 5);
}

#[test]
fn test_context_distance_identical() {
    let ctx = vec![(0u8, grid_at(3, 1, 1))];
    assert_eq!(context_distance(&ctx, &ctx), 0);
}

#[test]
fn test_context_distance_action_mismatch() {
    let a = vec![(0u8, grid_at(3, 1, 1))];
    let b = vec![(1u8, grid_at(3, 1, 1))];
    assert_eq!(context_distance(&a, &b), 25);
}

#[test]
fn test_context_distance_length_mismatch() {
    let a = vec![(0u8, grid_at(3, 1, 1)), (1u8, grid_at(3, 0, 1))];
    let b = vec![(0u8, grid_at(3, 1, 1))];
    assert_eq!(context_distance(&a, &b), 25);
}

#[test]
fn context_distance_adds_state_and_action_terms() {
    let a = vec![(0u8, grid_at(3, 1, 1)), (2u8, grid_at(3, 0, 0))];
    let b = vec![(1u8, grid_at(3, 1, 2)), (2u8, grid_at(3, 0, 0)), (3u8, grid_at(3, 2, 2))];
    // 25 (action) + 2 (Hamming) + 0 + 25 (one missing step)
    assert_eq!(context_distance(&a, &b), 52);
}

#[test]
fn store_keeps_only_last_k_steps() {
    let mut mem = TemporalMemory::new(1);
    let state = grid_at(3, 1, 1);
    let after = grid_at(3, 0, 1);
    let long_ctx = vec![(3u8, grid_at(3, 2, 2)), (0u8, grid_at(3, 0, 0))];
    let short_ctx = vec![(0u8, grid_at(3, 0, 0))];
    mem.store(&long_ctx, 0, state.clone(), after.clone());
    mem.store(&short_ctx, 0, state.clone(), after.clone());
    assert_eq!(mem.unique_count(), 1);
    assert_eq!(mem.retrieve(&short_ctx, 0, &state), Some(&after));
    assert!(mem.retrieve(&short_ctx, 1, &state).is_none());
}

#[test]
fn window_zero_answers_as_experience_memory() {
    let mut tmem = TemporalMemory::new(0);
    let mut emem = ExperienceMemory::new();
    let steps = vec![
        (0u8, grid_at(3, 1, 1), grid_at(3, 0, 1)),
        (0u8, grid_at(3, 1, 1), grid_at(3, 0, 1)),
        (3u8, grid_at(3, 0, 1), grid_at(3, 0, 2)),
        (1u8, grid_at(3, 0, 2), grid_at(3, 1, 2)),
        (0u8, grid_at(3, 2, 2), grid_at(3, 1, 2)),
    ];
    for (i, (a, b, af)) in steps.iter().enumerate() {
        let ctx = vec![(i as u8, grid_at(3, i % 3, 0))];
        tmem.store(&ctx, *a, b.clone(), af.clone());
        emem.store(*a, b.clone(), af.clone());
    }
    assert_eq!(tmem.unique_count(), emem.unique_count());
    assert_eq!(tmem.total_stores(), emem.total_stores());
    let other_ctx = vec![(2u8, grid_at(3, 2, 0))];
    for a in 0u8..4 {
        for r in 0..3 {
            for c in 0..3 {
                let q = grid_at(3, r, c);
                assert_eq!(tmem.retrieve(&other_ctx, a, &q), emem.retrieve(a, &q));
            }
        }
    }
}

#[test]
fn context_distance_is_symmetric_example() {
    let a = vec![(0u8, grid_at(3, 1, 1)), (2u8, grid_at(3, 0, 0))];
    let b = vec![(1u8, grid_at(3, 1, 2))];
    assert_eq!(context_distance(&a, &b), context_distance(&b, &a));
    assert_eq!(context_distance(&a, &b), 52);
}
