use cif_stage0::planner::greedy_action;
use cif_stage0::world::{ACTION_DOWN, ACTION_LEFT, ACTION_RIGHT, ACTION_UP, N_ACTIONS};

#[test]
fn test_greedy_toward_goal() {
    assert_eq!(greedy_action((2, 2), (0, 2), 5), ACTION_UP);
    assert_eq!(greedy_action((2, 2), (4, 2), 5), ACTION_DOWN);
    assert_eq!(greedy_action((2, 2), (2, 0), 5), ACTION_LEFT);
    assert_eq!(greedy_action((2, 2), (2, 4), 5), ACTION_RIGHT);
}

#[test]
fn test_greedy_at_goal() {
    let a = greedy_action((2, 2), (2, 2), 5);
    assert!(a < N_ACTIONS as u8);
}

#[test]
fn test_greedy_at_edge() {
    let a = greedy_action((0, 0), (4, 4), 5);
    assert!(a == ACTION_DOWN || a == ACTION_RIGHT);
}

#[test]
fn test_greedy_diagonal() {
    let a = greedy_action((0, 0), (4, 4), 5);
    assert!(a == ACTION_DOWN || a == ACTION_RIGHT);
}

#[test]
fn greedy_breaks_ties_in_action_order() {
    // at the goal every move is one step away except clamped ones
    assert_eq!(greedy_action((0, 0), (0, 0), 5), ACTION_UP);
    assert_eq!(greedy_action((0, 0), (4, 4), 5), ACTION_DOWN);
    assert_eq!(greedy_action((4, 4), (0, 0), 5), ACTION_UP);
}

use cif_stage0::agent::Stage0Agent;
use cif_stage0::grid::Grid;
use cif_stage0::planner::plan_bfs;
use cif_stage0::world::MicroWorld;

fn trained_agent() -> (Stage0Agent, MicroWorld) {
    let mut agent = Stage0Agent::new(4, 100, 100, 42);
    let mut world = MicroWorld::new(5);
    for i in 0..200 {
        let state = world.observe();
        let action = (i % 4) as u8;
        let pred_a = agent.predict_path_a(action, &state);
        let pred_b = agent.predict_path_b(action);
        world.apply(action);
        let actual = world.observe();
        let hit_a = pred_a.as_ref() == Some(&actual);
        let hit_b = pred_b.as_ref() == Some(&actual);
        agent.record(action, state, actual, hit_a, hit_b);
    }
    (agent, world)
}

#[test]
fn test_plan_empty_model() {
    let agent = Stage0Agent::new(4, 100, 100, 42);
    let mut state = Grid::filled(5, 5, 0);
    state.set(2, 2, 1);
    let result = plan_bfs(&agent, &state, (0, 0), 3);
    assert!(result.action < N_ACTIONS as u8);
    assert!(!result.reached_goal);
}

#[test]
fn test_plan_with_rules() {
    let (agent, world) = trained_agent();
    let state = world.observe();
    let result = plan_bfs(&agent, &state, (0, 0), 5);
    assert!(result.states_evaluated > 0);
    assert!(result.action == ACTION_UP || result.action == ACTION_LEFT);
}

#[test]
fn test_plan_depth_1() {
    let (agent, world) = trained_agent();
    let state = world.observe();
    let result = plan_bfs(&agent, &state, (0, 0), 1);
    assert_eq!(result.depth_explored, 1);
}

#[test]
fn plan_without_marker_or_at_goal() {
    let agent = Stage0Agent::new(4, 100, 100, 42);
    let r = plan_bfs(&agent, &Grid::filled(5, 5, 0), (0, 0), 3);
    assert_eq!((r.action, r.predicted_distance, r.depth_explored, r.states_evaluated, r.reached_goal), (ACTION_UP, usize::MAX, 0, 0, false));
    let mut state = Grid::filled(5, 5, 0);
    state.set(1, 3, 1);
    let r = plan_bfs(&agent, &state, (1, 3), 3);
    assert_eq!((r.action, r.predicted_distance, r.depth_explored, r.states_evaluated, r.reached_goal), (ACTION_UP, 0, 0, 0, true));
}

#[test]
fn plan_reaches_adjacent_goal_in_one_step() {
    let (agent, world) = trained_agent();
    let state = world.observe();
    // the centre's upper neighbour was observed after UP from the centre
    let r = plan_bfs(&agent, &state, (1, 2), 3);
    assert!(r.reached_goal);
    assert_eq!(r.action, ACTION_UP);
    assert_eq!(r.depth_explored, 1);
    assert_eq!(r.predicted_distance, 0);
}

#[test]
fn plan_with_empty_model_evaluates_nothing() {
    let agent = Stage0Agent::new(4, 100, 100, 42);
    let mut state = Grid::filled(5, 5, 0);
    state.set(2, 2, 1);
    let r = plan_bfs(&agent, &state, (0, 0), 3);
    assert_eq!(r.states_evaluated, 0);
    assert_eq!(r.action, ACTION_UP);
    assert_eq!(r.predicted_distance, 4);
    assert_eq!(r.depth_explored, 1);
    assert!(!r.reached_goal);
}

#[test]
fn plan_finds_goal_two_steps_away() {
    let mut agent = Stage0Agent::new(4, 100, 100, 42);
    let mut world = MicroWorld::new(5);
    for _ in 0..2 {
        let before = world.observe();
        world.apply(ACTION_UP);
        agent.record(ACTION_UP, before, world.observe(), false, false);
    }
    world.reset();
    let state = world.observe();
    let r = plan_bfs(&agent, &state, (0, 2), 3);
    assert!(r.reached_goal);
    assert_eq!(r.action, ACTION_UP);
    assert_eq!(r.depth_explored, 2);
    assert_eq!(r.states_evaluated, 2);
    assert_eq!(r.predicted_distance, 0);
    // With one layer only, the goal is out of reach: the nearest visited position is (1, 2).
    let r1 = plan_bfs(&agent, &state, (0, 2), 1);
    assert!(!r1.reached_goal);
    assert_eq!(r1.depth_explored, 1);
    assert_eq!(r1.predicted_distance, 1);
    assert_eq!(r1.action, ACTION_UP);
}
