use cif_stage0::world::{MicroWorld, ACTION_DOWN, ACTION_LEFT, ACTION_RIGHT, ACTION_UP};

#[test]
fn test_initial_state() {
    let w = MicroWorld::new(5);
    assert_eq!(w.marker_pos(), (2, 2));
    let g = w.observe();
    assert_eq!(g.get(2, 2), Some(1));
    assert_eq!(g.get(0, 0), Some(0));
}

#[test]
fn test_move_up() {
    let mut w = MicroWorld::new(5);
    w.apply(ACTION_UP);
    assert_eq!(w.marker_pos(), (1, 2));
}

#[test]
fn test_move_down() {
    let mut w = MicroWorld::new(5);
    w.apply(ACTION_DOWN);
    assert_eq!(w.marker_pos(), (3, 2));
}

#[test]
fn test_clamp_at_top() {
    let mut w = MicroWorld::new(5);
    for _ in 0..10 {
        w.apply(ACTION_UP);
    }
    assert_eq!(w.marker_pos(), (0, 2));
}

#[test]
fn test_clamp_at_bottom() {
    let mut w = MicroWorld::new(5);
    for _ in 0..10 {
        w.apply(ACTION_DOWN);
    }
    assert_eq!(w.marker_pos(), (4, 2));
}

#[test]
fn test_clamp_at_left() {
    let mut w = MicroWorld::new(5);
    for _ in 0..10 {
        w.apply(ACTION_LEFT);
    }
    assert_eq!(w.marker_pos(), (2, 0));
}

#[test]
fn test_clamp_at_right() {
    let mut w = MicroWorld::new(5);
    for _ in 0..10 {
        w.apply(ACTION_RIGHT);
    }
    assert_eq!(w.marker_pos(), (2, 4));
}

#[test]
fn test_deterministic() {
    let mut w1 = MicroWorld::new(5);
    let mut w2 = MicroWorld::new(5);
    let actions = [ACTION_UP, ACTION_RIGHT, ACTION_DOWN, ACTION_LEFT];
    for &a in &actions {
        w1.apply(a);
        w2.apply(a);
    }
    assert_eq!(w1.observe(), w2.observe());
}

#[test]
fn test_reset() {
    let mut w = MicroWorld::new(5);
    w.apply(ACTION_UP);
    w.apply(ACTION_LEFT);
    w.reset();
    assert_eq!(w.marker_pos(), (2, 2));
}

#[test]
fn test_grid_changes_after_action() {
    let mut w = MicroWorld::new(5);
    let before = w.observe();
    w.apply(ACTION_UP);
    let after = w.observe();
    assert_ne!(before, after);
    assert_eq!(before.hamming_distance(&after), 2);
}

#[test]
fn test_grid_unchanged_at_edge() {
    let mut w = MicroWorld::new(5);
    for _ in 0..5 {
        w.apply(ACTION_UP);
    }
    let before = w.observe();
    w.apply(ACTION_UP);
    let after = w.observe();
    assert_eq!(before, after);
}

#[test]
fn unknown_action_is_noop() {
    let mut w = MicroWorld::new(5);
    w.apply(7);
    assert_eq!(w.marker_pos(), (2, 2));
}

#[test]
fn observe_shows_one_marker_at_position() {
    let mut w = MicroWorld::new(4);
    w.apply(ACTION_RIGHT);
    let g = w.observe();
    assert_eq!(g.find_marker(), Some(w.marker_pos()));
    assert_eq!((g.width, g.height), (4, 4));
    assert_eq!(w.size(), 4);
}

#[test]
fn empty_world_observes_empty_grid() {
    let mut w = MicroWorld::new(0);
    w.apply(ACTION_UP);
    assert_eq!(w.marker_pos(), (0, 0));
    assert_eq!(w.observe().find_marker(), None);
}
