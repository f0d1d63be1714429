//! Akari (Light Up) puzzle engine: the field model, an independent solution
//! verifier, and a family of solvers, each with a machine-checked contract.

pub mod field;
pub mod io;
pub mod progress_bar;
pub mod utility;
pub mod solver;
pub mod tsp;

pub use field::{Field, Solution, State};
pub use progress_bar::ProgressBar;
pub use solver::Solver;
