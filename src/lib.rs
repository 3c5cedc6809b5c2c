//! Chain utilities for Markov chain Monte Carlo convergence diagnostics:
//! flattening a set of chains into one sequence, and splitting each chain
//! into two halves for split-chain diagnostics.
pub mod chains;
pub mod error;

pub use chains::{flatten, split_chains};
pub use error::StatsError;
