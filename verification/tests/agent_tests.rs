use cif_stage0::agent::Stage0Agent;
use cif_stage0::grid::Grid;
use cif_stage0::world::MicroWorld;
use rand::Rng;

fn default_agent(warmup: u64, seed: u64) -> Stage0Agent {
    Stage0Agent::new(4, 100, warmup, seed)
}

fn accuracy(t: (usize, usize)) -> f64 {
    if t.1 == 0 {
        0.0
    } else {
        t.0 as f64 / t.1 as f64
    }
}

fn entropy(counts: &[u64]) -> f64 {
    let total: u64 = counts.iter().sum();
    if total == 0 {
        return 0.0;
    }
    let mut h = 0.0;
    for &c in counts {
        if c > 0 {
            let p = c as f64 / total as f64;
            h -= p * p.ln();
        }
    }
    h
}

#[test]
fn test_random_action_during_warmup() {
    let mut agent = default_agent(1000, 42);
    let mut counts = [0u32; 4];
    for _ in 0..1000 {
        assert!(agent.in_warmup());
        let a = agent.random_action();
        counts[a as usize] += 1;
    }
    for &c in &counts {
        assert!(c > 150, "action count {} too low for uniform", c);
    }
}

#[test]
fn test_accuracy_starts_zero() {
    let agent = default_agent(100, 42);
    assert_eq!(accuracy(agent.path_a_tally()), 0.0);
    assert_eq!(accuracy(agent.path_b_tally()), 0.0);
}

#[test]
fn test_record_updates_accuracy() {
    let mut agent = default_agent(100, 42);
    let before = Grid::filled(5, 5, 0);
    let after = Grid::filled(5, 5, 0);
    agent.record(0, before.clone(), after.clone(), true, false);
    assert!(accuracy(agent.path_a_tally()) > 0.0);
    assert_eq!(accuracy(agent.path_b_tally()), 0.0);
}

#[test]
fn test_entropy_uniform() {
    let mut agent = default_agent(100, 42);
    let state = Grid::filled(5, 5, 0);
    let after = Grid::filled(5, 5, 0);
    for action in 0..4u8 {
        for _ in 0..25 {
            agent.record(action, state.clone(), after.clone(), false, false);
        }
    }
    let e = entropy(agent.action_counts());
    assert!((e - 4.0f64.ln()).abs() < 0.01);
}

#[test]
fn test_consolidation_ratio_decreases() {
    let mut agent = default_agent(100, 42);
    let before = Grid::filled(5, 5, 0);
    let after = Grid::filled(5, 5, 0);
    for _ in 0..10 {
        agent.record(0, before.clone(), after.clone(), true, true);
    }
    let ratio = agent.memory.unique_count() as f64 / agent.memory.total_stores() as f64;
    assert!((ratio - 0.1).abs() < 0.01);
}

#[test]
fn windows_roll_at_capacity() {
    let mut agent = Stage0Agent::new(2, 3, 0, 7);
    let g = Grid::filled(2, 2, 0);
    for hit in [true, true, false, false] {
        agent.record(1, g.clone(), g.clone(), hit, !hit);
    }
    // window of 3: the first `true` has left
    assert_eq!(agent.path_a_tally_per_action(), vec![(0, 0), (1, 3)]);
    assert_eq!(agent.path_b_tally_per_action(), vec![(0, 0), (2, 3)]);
    assert_eq!(agent.path_a_tally(), (1, 3));
    assert_eq!(agent.episode_count, 4);
    assert!(!agent.in_warmup());
}

#[test]
fn out_of_range_action_is_stored_not_counted() {
    let mut agent = Stage0Agent::new(2, 3, 0, 7);
    let g = Grid::filled(2, 2, 0);
    agent.record(5, g.clone(), g.clone(), true, true);
    assert_eq!(agent.action_counts(), &vec![0, 0]);
    assert_eq!(agent.path_a_tally(), (0, 0));
    assert_eq!(agent.memory.unique_count(), 1);
    assert_eq!(agent.episode_count, 1);
}

#[test]
fn dual_path_predictions() {
    let mut agent = default_agent(0, 1);
    let mut s1 = Grid::filled(3, 3, 0);
    s1.set(1, 1, 1);
    let mut s2 = Grid::filled(3, 3, 0);
    s2.set(0, 1, 1);
    let mut s3 = Grid::filled(3, 3, 0);
    s3.set(2, 2, 1);
    assert_eq!(agent.predict_path_a(0, &s1), None);
    agent.record(0, s1.clone(), s2.clone(), false, false);
    agent.record(0, s3.clone(), s3.clone(), false, false);
    agent.record(0, s3.clone(), s3.clone(), false, false);
    assert_eq!(agent.predict_path_a(0, &s1), Some(s2.clone()));
    assert_eq!(agent.predict_path_b(0), Some(s3.clone()));
    assert_eq!(agent.familiarity_scores(&s3), vec![2, 0, 0, 0]);
    assert_eq!(agent.n_actions(), 4);
}

/// Softmax action selection over familiarity scores after warmup, uniform before.
fn select_action(agent: &mut Stage0Agent, state: &Grid, temperature: f64, cw: f64) -> u8 {
    if agent.in_warmup() {
        return agent.random_action();
    }
    let scores: Vec<f64> = agent
        .familiarity_scores(state)
        .iter()
        .map(|&fam| {
            let ln_fam = (fam as f64 + 1.0).ln();
            (1.0 - cw) * ln_fam + cw * (-ln_fam)
        })
        .collect();
    let max_score = scores.iter().cloned().fold(f64::NEG_INFINITY, f64::max);
    let exp_scores: Vec<f64> = scores.iter().map(|s| ((s - max_score) / temperature).exp()).collect();
    let sum: f64 = exp_scores.iter().sum();
    let r: f64 = agent.rng.gen();
    let mut cumulative = 0.0;
    for (i, e) in exp_scores.iter().enumerate() {
        cumulative += e / sum;
        if r <= cumulative {
            return i as u8;
        }
    }
    (scores.len() - 1) as u8
}

#[test]
fn test_integration_with_world() {
    let mut world = MicroWorld::new(5);
    let mut agent = default_agent(50, 123);
    let mut temperature = 2.0;
    for _ in 0..200 {
        let state = world.observe();
        let action = select_action(&mut agent, &state, temperature, 0.0);
        let pred_a = agent.predict_path_a(action, &state);
        let pred_b = agent.predict_path_b(action);
        world.apply(action);
        let actual = world.observe();
        let hit_a = pred_a.as_ref() == Some(&actual);
        let hit_b = pred_b.as_ref() == Some(&actual);
        agent.record(action, state, actual, hit_a, hit_b);
        if agent.episode_count >= 50 {
            temperature = f64::max(temperature * 0.995, 0.01);
        }
    }
    let acc = accuracy(agent.path_a_tally());
    assert!(acc > 0.3, "Path A accuracy {} too low after 200 episodes", acc);
}

#[test]
fn test_curiosity_zero_matches_stage0() {
    let mut agent = default_agent(0, 42);
    let state = Grid::filled(5, 5, 0);
    let after = Grid::filled(5, 5, 0);
    for action in 0..4u8 {
        for _ in 0..10 {
            agent.record(action, state.clone(), after.clone(), false, false);
        }
    }
    let mut counts = [0u32; 4];
    for _ in 0..400 {
        let a = select_action(&mut agent, &state, 2.0, 0.0);
        counts[a as usize] += 1;
    }
    for &c in &counts {
        assert!(c > 50, "cw=0 action count {} too low for uniform-ish", c);
    }
}
