//! The solvers and the constraint propagation they share.

pub mod alternating;
pub mod backtracking;
pub mod basic;
pub mod buckets;
pub mod common;
pub mod fast;
pub mod progress;
pub mod solve;

pub use backtracking::WaveFunctionBacktracking;
pub use basic::WaveFunctionBasic;
pub use fast::{WaveFunctionFast, WaveFunctionOptimised};
