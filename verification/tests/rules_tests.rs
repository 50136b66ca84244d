use cif_stage0::world::MicroWorld;
use cif_stage0::grid::Grid;
use cif_stage0::memory::ExperienceMemory;
use cif_stage0::rules::{is_at_edge, RuleSet};
use cif_stage0::world::{ACTION_DOWN, ACTION_LEFT, ACTION_RIGHT, ACTION_UP};

fn grid_at(size: usize, r: usize, c: usize) -> Grid {
    let mut g = Grid::filled(size, size, 0);
    g.set(r, c, 1);
    g
}

fn avg_confidence(rules: &RuleSet) -> f64 {
    let rs = rules.rules();
    if rs.is_empty() {
        return 0.0;
    }
    let sum: f64 = rs.iter().map(|r| r.count as f64 / r.total as f64).sum();
    sum / rs.len() as f64
}

#[test]
fn test_extract_single_tuple() {
    let mut mem = ExperienceMemory::new();
    mem.store(ACTION_UP, grid_at(5, 2, 2), grid_at(5, 1, 2));
    let mut rules = RuleSet::new(5);
    rules.extract(&mem);
    assert_eq!(rules.rule_count(), 1);
    let rule = &rules.rules()[0];
    assert_eq!(rule.action, ACTION_UP);
    assert!(!rule.at_edge);
    assert_eq!(rule.delta_row, -1);
    assert_eq!(rule.delta_col, 0);
}

#[test]
fn test_extract_mle_wins() {
    let mut mem = ExperienceMemory::new();
    for _ in 0..8 {
        mem.store(ACTION_UP, grid_at(5, 2, 2), grid_at(5, 1, 2));
    }
    for _ in 0..2 {
        mem.store(ACTION_UP, grid_at(5, 2, 2), grid_at(5, 2, 2));
    }
    let mut rules = RuleSet::new(5);
    rules.extract(&mem);
    let rule = rules
        .rules()
        .iter()
        .find(|r| r.action == ACTION_UP && !r.at_edge)
        .unwrap();
    assert_eq!(rule.delta_row, -1);
    assert_eq!(rule.delta_col, 0);
    assert_eq!(rule.count, 8);
    assert_eq!(rule.total, 10);
}

#[test]
fn test_predict_interior() {
    let mut mem = ExperienceMemory::new();
    mem.store(ACTION_UP, grid_at(5, 2, 2), grid_at(5, 1, 2));
    let mut rules = RuleSet::new(5);
    rules.extract(&mem);
    let state = grid_at(5, 3, 1);
    let predicted = rules.predict(ACTION_UP, &state);
    assert_eq!(predicted, Some(grid_at(5, 2, 1)));
}

#[test]
fn test_predict_edge() {
    let mut mem = ExperienceMemory::new();
    mem.store(ACTION_UP, grid_at(5, 0, 2), grid_at(5, 0, 2));
    let mut rules = RuleSet::new(5);
    rules.extract(&mem);
    let state = grid_at(5, 0, 3);
    let predicted = rules.predict(ACTION_UP, &state);
    assert_eq!(predicted, Some(grid_at(5, 0, 3)));
}

#[test]
fn test_predict_empty_returns_none() {
    let rules = RuleSet::new(5);
    let state = grid_at(5, 2, 2);
    assert_eq!(rules.predict(ACTION_UP, &state), None);
}

#[test]
fn rules_test_confidence_deterministic() {
    let mut mem = ExperienceMemory::new();
    for _ in 0..10 {
        mem.store(ACTION_UP, grid_at(5, 2, 2), grid_at(5, 1, 2));
    }
    let mut rules = RuleSet::new(5);
    rules.extract(&mem);
    assert!((avg_confidence(&rules) - 1.0).abs() < f64::EPSILON);
}

#[test]
fn test_confidence_noisy() {
    let mut mem = ExperienceMemory::new();
    for _ in 0..7 {
        mem.store(ACTION_UP, grid_at(5, 2, 2), grid_at(5, 1, 2));
    }
    for _ in 0..3 {
        mem.store(ACTION_UP, grid_at(5, 2, 2), grid_at(5, 2, 2));
    }
    let mut rules = RuleSet::new(5);
    rules.extract(&mem);
    assert!((avg_confidence(&rules) - 0.7).abs() < 0.01);
}

#[test]
fn test_extract_from_raw_basic() {
    let tuples = vec![
        (ACTION_UP, grid_at(5, 2, 2), grid_at(5, 1, 2)),
        (ACTION_UP, grid_at(5, 3, 1), grid_at(5, 2, 1)),
        (ACTION_DOWN, grid_at(5, 1, 1), grid_at(5, 2, 1)),
    ];
    let mut rules = RuleSet::new(5);
    rules.extract_from_raw(&tuples, 5);
    assert_eq!(rules.rule_count(), 2);
    let up_rule = rules.rules().iter().find(|r| r.action == ACTION_UP).unwrap();
    assert_eq!(up_rule.delta_row, -1);
    assert_eq!(up_rule.delta_col, 0);
}

#[test]
fn test_extract_from_raw_matches_extract() {
    let mut mem = ExperienceMemory::new();
    let raw = vec![
        (ACTION_UP, grid_at(5, 2, 2), grid_at(5, 1, 2)),
        (ACTION_DOWN, grid_at(5, 2, 2), grid_at(5, 3, 2)),
        (ACTION_LEFT, grid_at(5, 2, 2), grid_at(5, 2, 1)),
        (ACTION_RIGHT, grid_at(5, 2, 2), grid_at(5, 2, 3)),
    ];
    for (a, sb, sa) in &raw {
        mem.store(*a, sb.clone(), sa.clone());
    }
    let mut rules_mem = RuleSet::new(5);
    rules_mem.extract(&mem);
    let mut rules_raw = RuleSet::new(5);
    rules_raw.extract_from_raw(&raw, 5);
    assert_eq!(rules_mem.rule_count(), rules_raw.rule_count());
    let state = grid_at(5, 3, 3);
    for action in 0..4u8 {
        assert_eq!(rules_mem.predict(action, &state), rules_raw.predict(action, &state));
    }
}

#[test]
fn test_edge_detection() {
    assert!(is_at_edge(ACTION_UP, 0, 2, 5));
    assert!(!is_at_edge(ACTION_UP, 1, 2, 5));
    assert!(is_at_edge(ACTION_DOWN, 4, 2, 5));
    assert!(!is_at_edge(ACTION_DOWN, 3, 2, 5));
    assert!(is_at_edge(ACTION_LEFT, 2, 0, 5));
    assert!(!is_at_edge(ACTION_LEFT, 2, 1, 5));
    assert!(is_at_edge(ACTION_RIGHT, 2, 4, 5));
    assert!(!is_at_edge(ACTION_RIGHT, 2, 3, 5));
}

#[test]
fn predict_clamps_to_board() {
    let mut mem = ExperienceMemory::new();
    // a rule learnt from a two-cell jump
    mem.store(ACTION_RIGHT, grid_at(5, 1, 1), grid_at(5, 1, 3));
    let mut rules = RuleSet::new(5);
    rules.extract(&mem);
    assert_eq!(rules.predict(ACTION_RIGHT, &grid_at(5, 4, 2)), Some(grid_at(5, 4, 4)));
    // no marker: no prediction
    assert_eq!(rules.predict(ACTION_RIGHT, &Grid::filled(5, 5, 0)), None);
    // marker at the right edge: the edge rule is missing
    assert_eq!(rules.predict(ACTION_RIGHT, &grid_at(5, 2, 4)), None);
}

#[test]
fn tuples_without_marker_are_ignored() {
    let mut mem = ExperienceMemory::new();
    mem.store(ACTION_UP, Grid::filled(5, 5, 0), grid_at(5, 1, 2));
    mem.store(ACTION_LEFT, grid_at(5, 2, 0), grid_at(5, 2, 0));
    let mut rules = RuleSet::new(5);
    rules.extract(&mem);
    assert_eq!(rules.rule_count(), 1);
    let r = &rules.rules()[0];
    assert_eq!((r.action, r.at_edge, r.delta_row, r.delta_col, r.count, r.total), (ACTION_LEFT, true, 0, 0, 1, 1));
}

#[test]
fn rules_learned_from_world_predict_unseen_states() {
    let mut world = MicroWorld::new(5);
    let mut mem = ExperienceMemory::new();
    // A short walk: two moves per action from the centre, one bump at the top.
    let walk = [ACTION_UP, ACTION_UP, ACTION_UP, ACTION_DOWN, ACTION_LEFT, ACTION_LEFT, ACTION_RIGHT];
    for &a in walk.iter() {
        let before = world.observe();
        world.apply(a);
        mem.store(a, before, world.observe());
    }
    let mut rules = RuleSet::new(5);
    rules.extract(&mem);
    for r in rules.rules().iter() {
        assert_eq!(r.count, r.total);
    }
    // (3, 4) was never visited; each interior move is predicted as the world makes it.
    for &a in [ACTION_UP, ACTION_DOWN, ACTION_LEFT].iter() {
        let mut w = MicroWorld::new(5);
        w.apply(ACTION_DOWN);
        w.apply(ACTION_RIGHT);
        w.apply(ACTION_RIGHT);
        assert_eq!(w.marker_pos(), (3, 4));
        let state = w.observe();
        w.apply(a);
        assert_eq!(rules.predict(a, &state), Some(w.observe()));
    }
    // Against the top edge the learned rule keeps the marker in place.
    assert_eq!(rules.predict(ACTION_UP, &grid_at(5, 0, 3)), Some(grid_at(5, 0, 3)));
}

#[test]
fn repeated_raw_tuples_weigh_as_stored_counts() {
    let raw = vec![
        (ACTION_UP, grid_at(5, 2, 2), grid_at(5, 1, 2)),
        (ACTION_UP, grid_at(5, 2, 2), grid_at(5, 1, 2)),
        (ACTION_UP, grid_at(5, 3, 2), grid_at(5, 3, 2)),
        (ACTION_LEFT, grid_at(5, 2, 2), grid_at(5, 2, 1)),
    ];
    let mut mem = ExperienceMemory::new();
    for (a, sb, sa) in &raw {
        mem.store(*a, sb.clone(), sa.clone());
    }
    let mut from_mem = RuleSet::new(5);
    from_mem.extract(&mem);
    let mut from_raw = RuleSet::new(5);
    from_raw.extract_from_raw(&raw, 5);
    assert_eq!(from_mem.rule_count(), from_raw.rule_count());
    for r in from_mem.rules().iter() {
        let q = from_raw.rules().iter().find(|q| q.action == r.action && q.at_edge == r.at_edge).unwrap();
        assert_eq!((q.delta_row, q.delta_col, q.count, q.total), (r.delta_row, r.delta_col, r.count, r.total));
    }
    let up = from_mem.rules().iter().find(|r| r.action == ACTION_UP && !r.at_edge).unwrap();
    assert_eq!((up.delta_row, up.delta_col, up.count, up.total), (-1, 0, 2, 3));
}
