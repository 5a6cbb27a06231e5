//! The search strategies that drive a `SearchProblem`.
pub mod best_first;
pub mod bfs;
pub mod dfs;

pub use best_first::BestFirstSolver;
pub use bfs::BfsSolver;
pub use dfs::DfsSolver;
