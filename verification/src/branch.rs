//! Branches: named pointers from tables to versions, their diff and merge.

pub mod branch;
pub mod error;
pub mod manager;
pub mod merge;

pub use branch::{Branch, BranchDiff};
pub use error::BranchError;
pub use manager::BranchManager;
pub use merge::{MergeAnalysis, MergeAnalyzer, MergeOutcome};
