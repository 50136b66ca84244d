use cif_stage0::other::{OtherAgent, OtherPolicy};
use cif_stage0::world::{ACTION_DOWN, ACTION_LEFT, ACTION_RIGHT, ACTION_UP};

#[test]
fn test_random_all_actions() {
    let mut b = OtherAgent::new(5, OtherPolicy::Random, 42, 5);
    let mut seen = [false; 4];
    for _ in 0..100 {
        let a = b.decide(2, 2);
        b.apply_movement(a);
        seen[a as usize] = true;
    }
    assert!(seen.iter().all(|&s| s), "Random should produce all 4 actions");
}

#[test]
fn test_fixed_always_up() {
    let mut b = OtherAgent::new(5, OtherPolicy::Fixed, 42, 5);
    for _ in 0..10 {
        let a = b.decide(2, 2);
        assert_eq!(a, ACTION_UP);
    }
}

#[test]
fn test_patrol_cycles() {
    let mut b = OtherAgent::new(5, OtherPolicy::Patrol, 42, 2);
    let expected = [ACTION_UP, ACTION_UP, ACTION_RIGHT, ACTION_RIGHT,
                   ACTION_DOWN, ACTION_DOWN, ACTION_LEFT, ACTION_LEFT];
    for &exp in &expected {
        let a = b.decide(2, 2);
        assert_eq!(a, exp);
    }
}

#[test]
fn test_chase_approaches() {
    let mut b = OtherAgent::new(5, OtherPolicy::Chase, 42, 5);
    let start_dist = 4 + 4;
    for _ in 0..3 {
        let a = b.decide(0, 0);
        b.apply_movement(a);
    }
    let end_dist = (b.row as i32).abs() + (b.col as i32).abs();
    assert!(end_dist < start_dist, "Chase should reduce Manhattan distance");
}

#[test]
fn test_flee_retreats() {
    let mut b = OtherAgent::new(5, OtherPolicy::Flee, 42, 5);
    let start_dist = 2 + 2;
    let a = b.decide(2, 2);
    b.apply_movement(a);
    let end_dist = ((b.row as i32) - 2).abs() + ((b.col as i32) - 2).abs();
    assert!(end_dist >= start_dist, "Flee should maintain or increase Manhattan distance");
}

#[test]
fn test_edge_clamping() {
    let mut b = OtherAgent::new(5, OtherPolicy::Fixed, 42, 5);
    for _ in 0..10 {
        let a = b.decide(2, 2);
        b.apply_movement(a);
    }
    assert_eq!(b.row, 0);
    assert_eq!(b.col, 4);
}

#[test]
fn starts_in_corner_and_tracks_last_action() {
    let mut b = OtherAgent::new(4, OtherPolicy::Chase, 1, 3);
    assert_eq!(b.pos(), (3, 3));
    assert_eq!(b.last_action(), 0);
    let a = b.decide(3, 0);
    assert_eq!(a, ACTION_LEFT);
    assert_eq!(b.last_action(), ACTION_LEFT);
    let mut f = OtherAgent::new(4, OtherPolicy::Flee, 1, 3);
    // A to the left on the same row: flee right, clamped at the edge
    assert_eq!(f.decide(3, 0), ACTION_RIGHT);
    f.apply_movement(ACTION_RIGHT);
    assert_eq!(f.pos(), (3, 3));
    let mut n = OtherAgent::new(4, OtherPolicy::NoAgent, 1, 3);
    assert_eq!(n.decide(0, 0), ACTION_UP);
    n.apply_movement(9);
    assert_eq!(n.pos(), (3, 3));
    n.apply_movement(ACTION_DOWN);
    assert_eq!(n.pos(), (3, 3));
}
