//! Algebraic classification of operations and the merge of two values under
//! an operation type.

pub mod types;
pub mod merge;
pub mod laws;
pub mod schema;

pub use types::{AlgebraicValue, OpType, ValueModel};
pub use merge::{AlgebraicMerger, MergeModel, MergeResult};
pub use schema::{AlgebraicSchemaRegistry, ColumnAlgebraic, TableAlgebraicSchema};
