//! An agent-based simulation of the game of tag on a two-dimensional grid.
//!
//! Agents live on the cells of a grid. At each step every agent decides,
//! through the [`simulation::Agent`] trait, whether to move, to tag an
//! adjacent agent (when it is the tagger), or to stay. The simulation checks
//! each decision before it changes the grid.
pub mod action_code;
pub mod competent_agent;
pub mod laws;
pub mod naive_agent;
mod random;
pub mod simulation;
