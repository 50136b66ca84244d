use cif_stage0::grid::Grid;
use cif_stage0::memory::ExperienceMemory;
use cif_stage0::self_model::SelfMemory;

fn grid_self_only(size: usize, r: usize, c: usize) -> Grid {
    let mut g = Grid::filled(size, size, 0);
    g.set(r, c, 1);
    g
}

fn grid_with_other(size: usize, sr: usize, sc: usize, or: usize, oc: usize) -> Grid {
    let mut g = Grid::filled(size, size, 0);
    g.set(sr, sc, 1);
    g.set(or, oc, 2);
    g
}

#[test]
fn test_strip_removes_other_from_store() {
    let mut sm = SelfMemory::new();
    let before = grid_with_other(5, 2, 2, 4, 4);
    let after = grid_with_other(5, 1, 2, 4, 3);
    sm.store(0, before.clone(), after.clone());
    let query = grid_self_only(5, 2, 2);
    let result = sm.retrieve(0, &query);
    assert!(result.is_some());
    assert_eq!(result.unwrap().find_other(), None);
}

#[test]
fn test_dedup_ignores_b_position() {
    let mut sm = SelfMemory::new();
    for b_col in 0..5 {
        let before = grid_with_other(5, 2, 2, 4, b_col);
        let after = grid_with_other(5, 1, 2, 4, b_col);
        sm.store(0, before, after);
    }
    assert_eq!(sm.unique_count(), 1);
    assert_eq!(sm.total_stores(), 5);
}

#[test]
fn test_no_other_degenerates() {
    let mut sm = SelfMemory::new();
    let mut em = ExperienceMemory::new();
    let before = grid_self_only(5, 2, 2);
    let after = grid_self_only(5, 1, 2);
    sm.store(0, before.clone(), after.clone());
    em.store(0, before.clone(), after.clone());
    assert_eq!(sm.unique_count(), em.unique_count());
    assert_eq!(sm.total_stores(), em.total_stores());
    assert_eq!(sm.retrieve(0, &before), em.retrieve(0, &before));
}

#[test]
fn test_random_b_doesnt_fragment() {
    let mut sm = SelfMemory::new();
    let mut em = ExperienceMemory::new();
    for i in 0..20 {
        let b_col = i % 5;
        let before = grid_with_other(5, 2, 2, 4, b_col);
        let after = grid_with_other(5, 1, 2, 4, b_col);
        sm.store(0, before.clone(), after.clone());
        em.store(0, before, after);
    }
    assert_eq!(sm.unique_count(), 1);
    assert!(em.unique_count() > 3);
}

#[test]
fn familiarity_and_frequency_on_self_state() {
    let mut sm = SelfMemory::new();
    sm.store(3, grid_with_other(5, 2, 2, 0, 0), grid_with_other(5, 2, 3, 0, 1));
    sm.store(3, grid_with_other(5, 2, 2, 4, 4), grid_with_other(5, 2, 3, 4, 3));
    assert_eq!(sm.familiarity(3, &grid_with_other(5, 2, 2, 1, 1)), 2);
    assert_eq!(sm.most_common_outcome(3), Some(&grid_self_only(5, 2, 3)));
    assert!(sm.most_common_outcome(0).is_none());
}

#[test]
fn self_memory_without_other_acts_as_plain_memory() {

    let mut sm = SelfMemory::new();
    let mut em = ExperienceMemory::new();
    let calls = [(0u8, (1, 1), (0, 1)), (0u8, (1, 1), (0, 1)), (3u8, (0, 1), (0, 2)), (1u8, (0, 2), (1, 2))];
    for &(a, b, c) in calls.iter() {
        sm.store(a, grid_self_only(3, b.0, b.1), grid_self_only(3, c.0, c.1));
        em.store(a, grid_self_only(3, b.0, b.1), grid_self_only(3, c.0, c.1));
    }
    assert_eq!(sm.unique_count(), em.unique_count());
    assert_eq!(sm.total_stores(), em.total_stores());
    for a in 0u8..4 {
        assert_eq!(sm.most_common_outcome(a), em.most_common_outcome(a));
        for r in 0..3 {
            for c in 0..3 {
                let q = grid_self_only(3, r, c);
                assert_eq!(sm.retrieve(a, &q), em.retrieve(a, &q));
                assert_eq!(sm.familiarity(a, &q), em.familiarity(a, &q));
            }
        }
    }
}
