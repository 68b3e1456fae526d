//! The versioned catalog: an append-only log of versions for each table.

pub mod error;
pub mod version;
pub mod file_catalog;

pub use error::CatalogError;
pub use file_catalog::{FileCatalog, PendingCommit};
pub use version::TableVersion;
