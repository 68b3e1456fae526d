//! The changelog: committed transactions seen as per-table changes.

pub mod entry;
pub mod query;

pub use entry::{ChangelogEntry, TableChange};
pub use query::ChangelogQuery;
