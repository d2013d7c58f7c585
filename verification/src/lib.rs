//! A verified minesweeper board engine.
//!
//! The engine is a deterministic state machine: it places mines from a seeded
//! pseudorandom stream, reveals cells through a cascading flood fill, tracks
//! flags, and evaluates the win and loss conditions. All invariants (exact
//! mine count, disjointness of opened and flagged cells, reproducibility of
//! the mine layout) are stated as contracts and proved.

pub mod board;
pub mod config;
pub mod laws;
pub mod model;
pub mod rng;
