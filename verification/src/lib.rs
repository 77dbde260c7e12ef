//! Adversarial search for two-player, zero-sum, perfect-information games.
//!
//! Scores are integers between -64 and 64, seen from the maximizing side.
//! Every search function is verified against the textbook definition of the
//! minimax value of a position.

pub mod state;
pub mod picks;
pub mod strategy;
pub mod minmax;
pub mod scan;
pub mod alphabeta;
pub mod workers;
pub mod greedy;
pub mod graph;
pub mod anytime;
pub mod iterative;
pub mod label;
