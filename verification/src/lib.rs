//! A small grid world with an agent that learns to predict the effects of its
//! own actions: grids, the world, experience memories, movement rules and
//! planning, each with its contract proved by Verus.

pub mod grid;
pub mod world;
pub mod memory;
pub mod self_model;
pub mod temporal;
pub mod rules;
pub mod random;
pub mod other;
pub mod planner;
pub mod agent;
