//! A branch-aware, content-addressed table store: versioned catalog,
//! branches with three-way merge, snapshot-isolation transactions and
//! coordination-free merging of algebraic updates.

pub mod text;
pub mod strmap;
pub mod idmap;
pub mod sets;
pub mod algebraic;
pub mod clock;
pub mod select;
pub mod branch;
pub mod catalog;
pub mod chunk_store;
pub mod transaction;
pub mod changelog;
pub mod distributed;

pub use algebraic::{
    AlgebraicMerger, AlgebraicSchemaRegistry, AlgebraicValue, ColumnAlgebraic, MergeResult, OpType,
    TableAlgebraicSchema,
};
pub use branch::{
    Branch, BranchDiff, BranchError, BranchManager, MergeAnalysis, MergeAnalyzer, MergeOutcome,
};
pub use catalog::{CatalogError, FileCatalog, PendingCommit, TableVersion};
pub use changelog::{ChangelogEntry, ChangelogQuery, TableChange};
pub use chunk_store::{ChunkStore, ChunkStoreError};
pub use distributed::{
    AlgebraicOperation, AlgebraicTransaction, CausalOrder, LocalCommitError, LocalCommitProtocol,
    NodeId, SimulatedCluster, SimulatedNode, SimulationBuilder, SimulationConfig, SimulationStats,
    VectorClock, VersionedUpdate,
};
pub use transaction::{
    Conflict, ConflictDetector, CoordinationFreeConfig, CoordinationFreeError,
    CoordinationFreeManager, EpochConfig, EpochId, EpochMetadata, EpochStatus, RecoveryManager,
    RecoveryReport, TableLevelConflictDetector, TableWrite, TransactionError, TransactionLog,
    TransactionManager, TransactionRecord, TransactionStatus, TxId, WriteGranularity,
};
