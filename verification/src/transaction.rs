//! Cross-table transactions with snapshot isolation: records, epochs, the
//! persistent log, conflict detection, the manager and recovery.

pub mod types;
pub mod epoch;
pub mod error;
pub mod conflict;
pub mod log;
pub mod recovery;
pub mod settling;
pub mod manager;
pub mod coordination_free;

pub use coordination_free::{
    CoordinationFreeConfig, CoordinationFreeError, CoordinationFreeManager,
};
pub use conflict::{
    AdaptiveConflictDetector, Conflict, ConflictDetector, PartitionLevelConflictDetector,
    RowLevelConflictDetector, TableLevelConflictDetector,
};
pub use epoch::{EpochConfig, EpochMetadata, EpochStatus};
pub use error::TransactionError;
pub use log::{StorageConfig, TransactionLog};
pub use manager::TransactionManager;
pub use recovery::{RecoveryDecision, RecoveryManager, RecoveryReport};
pub use types::{
    EpochId, TableWrite, TransactionMode, TransactionRecord, TransactionStatus, TxId,
    WriteGranularity,
};
