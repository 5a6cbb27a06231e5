//! Kingfisher rule mining on a verified branch-and-bound core.
//!
//! The library holds the search (the generic best-first, depth-first and
//! breadth-first branch and bound with a top-K result collector), the data
//! (a bit matrix of transactions), the Kingfisher search space and rule
//! bookkeeping, and the text formats of the command line. The statistical
//! measures, which are floating-point computations, live beside it.
pub mod bnb;
pub mod correction;
pub mod kingfisher;
pub mod matrix;
pub mod parse;
pub mod rules;

pub use kingfisher::{KingfisherProblem, KingfisherState, RuleCandidate};
pub use matrix::BitMatrix;
pub use rules::{Rule, RuleEntry, RuleSet};
