//! The content-addressed chunk store.

pub mod error;
pub mod store;

pub use error::ChunkStoreError;
pub use store::ChunkStore;
