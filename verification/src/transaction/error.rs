//! What can go wrong in a transaction.

use vstd::prelude::*;
use crate::text::{debug_list, debug_list_text, decimal, push_decimal};

verus! {

/// The errors of the transaction system.
#[derive(Debug, Clone, PartialEq, Eq)]
pub enum TransactionError {
    /// A file operation failed; the text is the system's message.
    Io(String),
    /// A record could not be encoded or decoded; the text says why.
    Json(String),
    /// No transaction has this id.
    TransactionNotFound(u64),
    /// The transaction is not active.
    TransactionNotActive(u64),
    /// The transaction committed already.
    AlreadyCommitted(u64),
    /// The transaction was aborted already.
    AlreadyAborted(u64),
    /// Another transaction wrote these tables.
    WriteConflict(Vec<String>),
    /// A table that the transaction read has moved on.
    SnapshotConflict { table: String, read_version: u64, current_version: u64 },
    /// The epoch is not active.
    EpochNotActive(u64),
    /// No epoch has this id.
    EpochNotFound(u64),
    /// The epoch holds as many transactions as it may.
    EpochFull(u64, u64),
    /// The transaction is in another state than the operation needs.
    InvalidState { expected: String, actual: String },
    /// The catalog refused an operation.
    CatalogError(String),
    /// The branch manager refused an operation.
    BranchError(String),
    /// Recovery failed.
    RecoveryError(String),
    /// The transaction ran longer than allowed.
    Timeout(u64, u64),
    /// A transaction was begun inside another.
    NestedTransaction,
    /// The configuration is not usable.
    InvalidConfig(String),
    /// A lock could not be taken.
    LockError(String),
    /// Stored data does not match its checksum.
    IntegrityError(String),
}

/// What a transaction error is, over plain values.
pub enum TxErrorModel {
    Io(Seq<char>),
    Json(Seq<char>),
    TransactionNotFound(u64),
    TransactionNotActive(u64),
    AlreadyCommitted(u64),
    AlreadyAborted(u64),
    WriteConflict(Seq<Seq<char>>),
    SnapshotConflict { table: Seq<char>, read_version: u64, current_version: u64 },
    EpochNotActive(u64),
    EpochNotFound(u64),
    EpochFull(u64, u64),
    InvalidState { expected: Seq<char>, actual: Seq<char> },
    CatalogError(Seq<char>),
    BranchError(Seq<char>),
    RecoveryError(Seq<char>),
    Timeout(u64, u64),
    NestedTransaction,
    InvalidConfig(Seq<char>),
    LockError(Seq<char>),
    IntegrityError(Seq<char>),
}

impl View for TransactionError {
    type V = TxErrorModel;

    open spec fn view(&self) -> TxErrorModel {
        match self {
            TransactionError::Io(m) => TxErrorModel::Io(m@),
            TransactionError::Json(m) => TxErrorModel::Json(m@),
            TransactionError::TransactionNotFound(id) => TxErrorModel::TransactionNotFound(*id),
            TransactionError::TransactionNotActive(id) => TxErrorModel::TransactionNotActive(*id),
            TransactionError::AlreadyCommitted(id) => TxErrorModel::AlreadyCommitted(*id),
            TransactionError::AlreadyAborted(id) => TxErrorModel::AlreadyAborted(*id),
            TransactionError::WriteConflict(t) => TxErrorModel::WriteConflict(t.deep_view()),
            TransactionError::SnapshotConflict { table, read_version, current_version } => TxErrorModel::SnapshotConflict {
                table: table@,
                read_version: *read_version,
                current_version: *current_version,
            },
            TransactionError::EpochNotActive(id) => TxErrorModel::EpochNotActive(*id),
            TransactionError::EpochNotFound(id) => TxErrorModel::EpochNotFound(*id),
            TransactionError::EpochFull(id, max) => TxErrorModel::EpochFull(*id, *max),
            TransactionError::InvalidState { expected, actual } => TxErrorModel::InvalidState {
                expected: expected@,
                actual: actual@,
            },
            TransactionError::CatalogError(m) => TxErrorModel::CatalogError(m@),
            TransactionError::BranchError(m) => TxErrorModel::BranchError(m@),
            TransactionError::RecoveryError(m) => TxErrorModel::RecoveryError(m@),
            TransactionError::Timeout(id, ms) => TxErrorModel::Timeout(*id, *ms),
            TransactionError::NestedTransaction => TxErrorModel::NestedTransaction,
            TransactionError::InvalidConfig(m) => TxErrorModel::InvalidConfig(m@),
            TransactionError::LockError(m) => TxErrorModel::LockError(m@),
            TransactionError::IntegrityError(m) => TxErrorModel::IntegrityError(m@),
        }
    }
}

impl TxErrorModel {
    /// Whether the error reports a conflict with another transaction.
    pub open spec fn conflict(self) -> bool {
        self is WriteConflict || self is SnapshotConflict
    }

    /// Whether trying again may help.
    pub open spec fn retryable(self) -> bool {
        self is WriteConflict || self is SnapshotConflict || self is Timeout || self is LockError
    }

    /// The message of the error.
    pub open spec fn text(self) -> Seq<char> {
        match self {
            TxErrorModel::Io(m) => "IO error: "@ + m,
            TxErrorModel::Json(m) => "JSON error: "@ + m,
            TxErrorModel::TransactionNotFound(id) => "Transaction not found: "@ + decimal(id as nat),
            TxErrorModel::TransactionNotActive(id) => "Transaction "@ + decimal(id as nat)
                + " is not active"@,
            TxErrorModel::AlreadyCommitted(id) => "Transaction "@ + decimal(id as nat)
                + " already committed"@,
            TxErrorModel::AlreadyAborted(id) => "Transaction "@ + decimal(id as nat)
                + " already aborted"@,
            TxErrorModel::WriteConflict(t) => "Write-write conflict on tables: "@ + debug_list_text(t),
            TxErrorModel::SnapshotConflict { table, read_version, current_version } => "Snapshot conflict: table "@
                + table + " was modified (read v"@ + decimal(read_version as nat) + ", now v"@
                + decimal(current_version as nat) + ")"@,
            TxErrorModel::EpochNotActive(id) => "Epoch "@ + decimal(id as nat) + " is not active"@,
            TxErrorModel::EpochNotFound(id) => "Epoch "@ + decimal(id as nat) + " not found"@,
            TxErrorModel::EpochFull(id, max) => "Epoch "@ + decimal(id as nat) + " is full (max "@
                + decimal(max as nat) + " transactions)"@,
            TxErrorModel::InvalidState { expected, actual } => "Invalid transaction state: expected "@
                + expected + ", got "@ + actual,
            TxErrorModel::CatalogError(m) => "Catalog error: "@ + m,
            TxErrorModel::BranchError(m) => "Branch error: "@ + m,
            TxErrorModel::RecoveryError(m) => "Recovery error: "@ + m,
            TxErrorModel::Timeout(id, ms) => "Transaction "@ + decimal(id as nat) + " timed out after "@
                + decimal(ms as nat) + "ms"@,
            TxErrorModel::NestedTransaction => "Nested transactions not supported"@,
            TxErrorModel::InvalidConfig(m) => "Invalid configuration: "@ + m,
            TxErrorModel::LockError(m) => "Failed to acquire lock: "@ + m,
            TxErrorModel::IntegrityError(m) => "Integrity error: "@ + m,
        }
    }
}

/// `prefix` followed by `rest`.
fn prefixed(prefix: &str, rest: &str) -> (s: String)
    ensures
        s@ == prefix@ + rest@,
{
    let mut s = prefix.to_owned();
    s.append(rest);
    s
}

/// `prefix`, the numeral of `n`, and `suffix`.
fn numbered(prefix: &str, n: u64, suffix: &str) -> (s: String)
    ensures
        s@ == prefix@ + decimal(n as nat) + suffix@,
{
    let mut s = prefix.to_owned();
    push_decimal(&mut s, n);
    s.append(suffix);
    s
}

impl TransactionError {
    /// Whether the error reports a conflict with another transaction.
    pub fn is_conflict(&self) -> (r: bool)
        ensures
            r == self@.conflict(),
    {
        match self {
            TransactionError::WriteConflict(_) | TransactionError::SnapshotConflict { .. } => true,
            _ => false,
        }
    }

    /// Whether trying again may help.
    pub fn is_retryable(&self) -> (r: bool)
        ensures
            r == self@.retryable(),
    {
        match self {
            TransactionError::WriteConflict(_)
            | TransactionError::SnapshotConflict { .. }
            | TransactionError::Timeout(_, _)
            | TransactionError::LockError(_) => true,
            _ => false,
        }
    }

    /// A write conflict on `tables`.
    pub fn write_conflict(tables: Vec<String>) -> (e: Self)
        ensures
            e@ == TxErrorModel::WriteConflict(tables.deep_view()),
    {
        TransactionError::WriteConflict(tables)
    }

    /// A snapshot conflict on `table`.
    pub fn snapshot_conflict(table: &str, read_version: u64, current_version: u64) -> (e: Self)
        ensures
            e@ == (TxErrorModel::SnapshotConflict { table: table@, read_version, current_version }),
    {
        TransactionError::SnapshotConflict { table: table.to_owned(), read_version, current_version }
    }

    /// A catalog error with the message `msg`.
    pub fn catalog_error(msg: &str) -> (e: Self)
        ensures
            e@ == TxErrorModel::CatalogError(msg@),
    {
        TransactionError::CatalogError(msg.to_owned())
    }

    /// A branch error with the message `msg`.
    pub fn branch_error(msg: &str) -> (e: Self)
        ensures
            e@ == TxErrorModel::BranchError(msg@),
    {
        TransactionError::BranchError(msg.to_owned())
    }

    /// A recovery error with the message `msg`.
    pub fn recovery_error(msg: &str) -> (e: Self)
        ensures
            e@ == TxErrorModel::RecoveryError(msg@),
    {
        TransactionError::RecoveryError(msg.to_owned())
    }

    /// The message of the error.
    pub fn to_string(&self) -> (s: String)
        ensures
            s@ == self@.text(),
    {
        match self {
            TransactionError::Io(m) => prefixed("IO error: ", m.as_str()),
            TransactionError::Json(m) => prefixed("JSON error: ", m.as_str()),
            TransactionError::TransactionNotFound(id) => {
                let s = numbered("Transaction not found: ", *id, "");
                proof {
                    reveal_strlit("");
                    assert(s@ =~= "Transaction not found: "@ + decimal(*id as nat));
                }
                s
            },
            TransactionError::TransactionNotActive(id) => numbered("Transaction ", *id, " is not active"),
            TransactionError::AlreadyCommitted(id) => numbered("Transaction ", *id, " already committed"),
            TransactionError::AlreadyAborted(id) => numbered("Transaction ", *id, " already aborted"),
            TransactionError::WriteConflict(t) => prefixed(
                "Write-write conflict on tables: ",
                debug_list(t).as_str(),
            ),
            TransactionError::SnapshotConflict { table, read_version, current_version } => {
                let mut s = "Snapshot conflict: table ".to_owned();
                s.append(table.as_str());
                s.append(" was modified (read v");
                push_decimal(&mut s, *read_version);
                s.append(", now v");
                push_decimal(&mut s, *current_version);
                s.append(")");
                s
            },
            TransactionError::EpochNotActive(id) => numbered("Epoch ", *id, " is not active"),
            TransactionError::EpochNotFound(id) => numbered("Epoch ", *id, " not found"),
            TransactionError::EpochFull(id, max) => {
                let mut s = "Epoch ".to_owned();
                push_decimal(&mut s, *id);
                s.append(" is full (max ");
                push_decimal(&mut s, *max);
                s.append(" transactions)");
                s
            },
            TransactionError::InvalidState { expected, actual } => {
                let mut s = "Invalid transaction state: expected ".to_owned();
                s.append(expected.as_str());
                s.append(", got ");
                s.append(actual.as_str());
                s
            },
            TransactionError::CatalogError(m) => prefixed("Catalog error: ", m.as_str()),
            TransactionError::BranchError(m) => prefixed("Branch error: ", m.as_str()),
            TransactionError::RecoveryError(m) => prefixed("Recovery error: ", m.as_str()),
            TransactionError::Timeout(id, ms) => {
                let mut s = "Transaction ".to_owned();
                push_decimal(&mut s, *id);
                s.append(" timed out after ");
                push_decimal(&mut s, *ms);
                s.append("ms");
                s
            },
            TransactionError::NestedTransaction => "Nested transactions not supported".to_owned(),
            TransactionError::InvalidConfig(m) => prefixed("Invalid configuration: ", m.as_str()),
            TransactionError::LockError(m) => prefixed("Failed to acquire lock: ", m.as_str()),
            TransactionError::IntegrityError(m) => prefixed("Integrity error: ", m.as_str()),
        }
    }
}

} // verus!
