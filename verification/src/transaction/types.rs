//! Transaction records and the writes they carry.

use vstd::prelude::*;
use crate::catalog::version::{clone_text_map, text_map};
use crate::clock::unix_now;
use crate::strmap::StrMap;
use crate::text::{clone_opt_string, clone_strings, opt_text};

verus! {

/// A transaction id; ids grow with every transaction begun.
pub type TxId = u64;

/// An epoch id; ids grow with every epoch created.
pub type EpochId = u64;

/// What a transaction status is, over plain values.
pub enum StatusModel {
    Active,
    Preparing,
    Committed,
    Aborted { reason: Seq<char> },
}

/// The status of a transaction.
#[derive(Debug, PartialEq, Eq)]
pub enum TransactionStatus {
    /// The transaction accepts reads and writes.
    Active,
    /// The transaction is about to commit.
    Preparing,
    /// The transaction committed.
    Committed,
    /// The transaction was aborted, for the given reason.
    Aborted { reason: String },
}

impl View for TransactionStatus {
    type V = StatusModel;

    open spec fn view(&self) -> StatusModel {
        match self {
            TransactionStatus::Active => StatusModel::Active,
            TransactionStatus::Preparing => StatusModel::Preparing,
            TransactionStatus::Committed => StatusModel::Committed,
            TransactionStatus::Aborted { reason } => StatusModel::Aborted { reason: reason@ },
        }
    }
}

impl Clone for TransactionStatus {
    fn clone(&self) -> (r: Self)
        ensures
            r@ == self@,
    {
        match self {
            TransactionStatus::Active => TransactionStatus::Active,
            TransactionStatus::Preparing => TransactionStatus::Preparing,
            TransactionStatus::Committed => TransactionStatus::Committed,
            TransactionStatus::Aborted { reason } => TransactionStatus::Aborted {
                reason: reason.clone(),
            },
        }
    }
}

impl StatusModel {
    /// The status in words.
    pub open spec fn text(self) -> Seq<char> {
        match self {
            StatusModel::Active => "Active"@,
            StatusModel::Preparing => "Preparing"@,
            StatusModel::Committed => "Committed"@,
            StatusModel::Aborted { reason } => "Aborted("@ + reason + ")"@,
        }
    }
}

impl TransactionStatus {
    /// The status in words.
    pub fn to_string(&self) -> (s: String)
        ensures
            s@ == self@.text(),
    {
        match self {
            TransactionStatus::Active => "Active".to_owned(),
            TransactionStatus::Preparing => "Preparing".to_owned(),
            TransactionStatus::Committed => "Committed".to_owned(),
            TransactionStatus::Aborted { reason } => {
                let mut s = "Aborted(".to_owned();
                s.append(reason.as_str());
                s.append(")");
                s
            },
        }
    }
}

/// How a transaction is submitted.
#[derive(Debug, Clone, Copy, PartialEq, Eq, Structural)]
pub enum TransactionMode {
    /// Through the transaction manager, with conflict detection.
    Coordinated,
    /// Through the coordination-free manager, for algebraic operations.
    CoordinationFree,
}

impl Default for TransactionMode {
    fn default() -> (r: Self)
        ensures
            r == TransactionMode::Coordinated,
    {
        TransactionMode::Coordinated
    }
}

/// What a write granularity is, over plain values.
pub enum GranularityModel {
    WholeTable,
    Partitions(Seq<Seq<char>>),
    Keys { key_columns: Seq<Seq<char>>, affected_keys: Seq<Seq<char>> },
}

/// How much of a table a write touches, for conflict detection.
#[derive(Debug)]
pub enum WriteGranularity {
    /// The whole table.
    WholeTable,
    /// The listed partitions.
    Partitions(Vec<String>),
    /// The listed row keys, each as its JSON text.
    Keys { key_columns: Vec<String>, affected_keys: Vec<String> },
}

impl View for WriteGranularity {
    type V = GranularityModel;

    open spec fn view(&self) -> GranularityModel {
        match self {
            WriteGranularity::WholeTable => GranularityModel::WholeTable,
            WriteGranularity::Partitions(p) => GranularityModel::Partitions(p.deep_view()),
            WriteGranularity::Keys { key_columns, affected_keys } => GranularityModel::Keys {
                key_columns: key_columns.deep_view(),
                affected_keys: affected_keys.deep_view(),
            },
        }
    }
}

impl Clone for WriteGranularity {
    fn clone(&self) -> (r: Self)
        ensures
            r@ == self@,
    {
        match self {
            WriteGranularity::WholeTable => WriteGranularity::WholeTable,
            WriteGranularity::Partitions(p) => WriteGranularity::Partitions(clone_strings(p)),
            WriteGranularity::Keys { key_columns, affected_keys } => WriteGranularity::Keys {
                key_columns: clone_strings(key_columns),
                affected_keys: clone_strings(affected_keys),
            },
        }
    }
}

impl Default for WriteGranularity {
    fn default() -> (r: Self)
        ensures
            r@ == GranularityModel::WholeTable,
    {
        WriteGranularity::WholeTable
    }
}

/// What a table write is, over plain values.
pub struct WriteModel {
    pub table_name: Seq<char>,
    pub new_version: u64,
    pub chunk_hashes: Seq<Seq<char>>,
    pub schema_hash: Option<Seq<char>>,
    pub granularity: GranularityModel,
    pub branch: Option<Seq<char>>,
}

/// One write of a transaction: the next version of one table.
#[derive(Debug)]
pub struct TableWrite {
    /// Table that is written.
    pub table_name: String,
    /// Version number that the writer expects to get.
    pub new_version: u64,
    /// Chunk hashes of the new version.
    pub chunk_hashes: Vec<String>,
    /// Hash of the schema, if known.
    pub schema_hash: Option<String>,
    /// How much of the table the write touches.
    pub granularity: WriteGranularity,
    /// Branch that the write goes to; `None` for the transaction's branch.
    pub branch: Option<String>,
}

impl View for TableWrite {
    type V = WriteModel;

    open spec fn view(&self) -> WriteModel {
        WriteModel {
            table_name: self.table_name@,
            new_version: self.new_version,
            chunk_hashes: self.chunk_hashes.deep_view(),
            schema_hash: opt_text(self.schema_hash),
            granularity: self.granularity@,
            branch: opt_text(self.branch),
        }
    }
}

impl Clone for TableWrite {
    fn clone(&self) -> (r: Self)
        ensures
            r@ == self@,
    {
        TableWrite {
            table_name: self.table_name.clone(),
            new_version: self.new_version,
            chunk_hashes: clone_strings(&self.chunk_hashes),
            schema_hash: clone_opt_string(&self.schema_hash),
            granularity: self.granularity.clone(),
            branch: clone_opt_string(&self.branch),
        }
    }
}

impl TableWrite {
    /// A write of the whole table, to the transaction's branch, without a
    /// schema hash.
    pub fn new(table_name: &str, new_version: u64, chunk_hashes: Vec<String>) -> (r: Self)
        ensures
            r@ == (WriteModel {
                table_name: table_name@,
                new_version,
                chunk_hashes: chunk_hashes.deep_view(),
                schema_hash: None,
                granularity: GranularityModel::WholeTable,
                branch: None,
            }),
    {
        TableWrite {
            table_name: table_name.to_owned(),
            new_version,
            chunk_hashes,
            schema_hash: None,
            granularity: WriteGranularity::WholeTable,
            branch: None,
        }
    }

    /// The same write with the schema hash `hash`.
    pub fn with_schema_hash(self, hash: &str) -> (r: Self)
        ensures
            r@ == (WriteModel { schema_hash: Some(hash@), ..self@ }),
    {
        let mut r = self;
        r.schema_hash = Some(hash.to_owned());
        r
    }

    /// The same write, to the branch `branch`.
    pub fn with_branch(self, branch: &str) -> (r: Self)
        ensures
            r@ == (WriteModel { branch: Some(branch@), ..self@ }),
    {
        let mut r = self;
        r.branch = Some(branch.to_owned());
        r
    }

    /// The same write with the given granularity.
    pub fn with_granularity(self, granularity: WriteGranularity) -> (r: Self)
        ensures
            r@ == (WriteModel { granularity: granularity@, ..self@ }),
    {
        let mut r = self;
        r.granularity = granularity;
        r
    }
}

/// The views of a list of writes.
pub open spec fn writes_view(ws: Seq<TableWrite>) -> Seq<WriteModel> {
    Seq::new(ws.len(), |i: int| ws[i]@)
}

/// A copy of a list of writes.
pub fn clone_writes(ws: &Vec<TableWrite>) -> (r: Vec<TableWrite>)
    ensures
        writes_view(r@) == writes_view(ws@),
{
    let mut r: Vec<TableWrite> = Vec::new();
    let mut i: usize = 0;
    while i < ws.len()
        invariant
            i <= ws.len(),
            r.len() == i,
            forall|j: int| 0 <= j < i ==> r[j]@ == ws[j]@,
        decreases ws.len() - i,
    {
        r.push(ws[i].clone());
        i += 1;
    }
    assert(writes_view(r@) =~= writes_view(ws@));
    r
}

/// What a transaction record is, over plain values.
pub struct RecordModel {
    pub tx_id: u64,
    pub epoch_id: u64,
    pub started_at: i64,
    pub committed_at: Option<i64>,
    pub read_snapshot: Map<Seq<char>, u64>,
    pub writes: Seq<WriteModel>,
    pub status: StatusModel,
    pub branch: Seq<char>,
    pub metadata: Map<Seq<char>, Seq<char>>,
    pub format_version: u32,
    pub extensions: Option<Seq<char>>,
}

/// The whole state of one transaction.
#[derive(Debug)]
pub struct TransactionRecord {
    /// Id of the transaction.
    pub tx_id: TxId,
    /// Epoch that the transaction belongs to.
    pub epoch_id: EpochId,
    /// Unix time at which the transaction began.
    pub started_at: i64,
    /// Unix time at which it committed, if it did.
    pub committed_at: Option<i64>,
    /// The version of each table that the transaction read.
    pub read_snapshot: StrMap<u64>,
    /// The writes, in the order in which they were added.
    pub writes: Vec<TableWrite>,
    /// The status.
    pub status: TransactionStatus,
    /// Branch that the transaction works on.
    pub branch: String,
    /// Free metadata.
    pub metadata: StrMap<String>,
    /// Version of the record format.
    pub format_version: u32,
    /// Extensions of later formats, as JSON text.
    pub extensions: Option<String>,
}

impl View for TransactionRecord {
    type V = RecordModel;

    open spec fn view(&self) -> RecordModel {
        RecordModel {
            tx_id: self.tx_id,
            epoch_id: self.epoch_id,
            started_at: self.started_at,
            committed_at: self.committed_at,
            read_snapshot: self.read_snapshot@,
            writes: writes_view(self.writes@),
            status: self.status@,
            branch: self.branch@,
            metadata: text_map(self.metadata@),
            format_version: self.format_version,
            extensions: opt_text(self.extensions),
        }
    }
}

impl Clone for TransactionRecord {
    fn clone(&self) -> (r: Self)
        ensures
            r@ == self@,
    {
        TransactionRecord {
            tx_id: self.tx_id,
            epoch_id: self.epoch_id,
            started_at: self.started_at,
            committed_at: self.committed_at,
            read_snapshot: self.read_snapshot.copied(),
            writes: clone_writes(&self.writes),
            status: self.status.clone(),
            branch: self.branch.clone(),
            metadata: clone_text_map(&self.metadata),
            format_version: self.format_version,
            extensions: clone_opt_string(&self.extensions),
        }
    }
}

/// The version of the record format that this library writes.
pub const CURRENT_FORMAT_VERSION: u32 = 1;

/// The names of the tables of a list of writes, in order.
pub open spec fn written_names(ws: Seq<WriteModel>) -> Seq<Seq<char>> {
    Seq::new(ws.len(), |i: int| ws[i].table_name)
}

impl TransactionRecord {
    /// An active transaction that begins now, with an empty snapshot and no
    /// writes.
    pub fn new(tx_id: TxId, epoch_id: EpochId, branch: String) -> (r: Self)
        ensures
            r@ == (RecordModel {
                tx_id,
                epoch_id,
                started_at: r@.started_at,
                committed_at: None,
                read_snapshot: Map::empty(),
                writes: Seq::empty(),
                status: StatusModel::Active,
                branch: branch@,
                metadata: Map::empty(),
                format_version: CURRENT_FORMAT_VERSION,
                extensions: None,
            }),
    {
        let r = TransactionRecord {
            tx_id,
            epoch_id,
            started_at: unix_now(),
            committed_at: None,
            read_snapshot: StrMap::new(),
            writes: Vec::new(),
            status: TransactionStatus::Active,
            branch,
            metadata: StrMap::new(),
            format_version: CURRENT_FORMAT_VERSION,
            extensions: None,
        };
        proof {
            assert(r@.writes =~= Seq::empty());
            assert(r@.metadata =~= Map::empty());
        }
        r
    }

    /// Whether the transaction is active.
    pub fn is_active(&self) -> (r: bool)
        ensures
            r == (self@.status is Active),
    {
        match self.status {
            TransactionStatus::Active => true,
            _ => false,
        }
    }

    /// Whether the transaction is preparing.
    pub fn is_preparing(&self) -> (r: bool)
        ensures
            r == (self@.status is Preparing),
    {
        match self.status {
            TransactionStatus::Preparing => true,
            _ => false,
        }
    }

    /// Whether the transaction committed.
    pub fn is_committed(&self) -> (r: bool)
        ensures
            r == (self@.status is Committed),
    {
        match self.status {
            TransactionStatus::Committed => true,
            _ => false,
        }
    }

    /// Whether the transaction was aborted.
    pub fn is_aborted(&self) -> (r: bool)
        ensures
            r == (self@.status is Aborted),
    {
        match self.status {
            TransactionStatus::Aborted { .. } => true,
            _ => false,
        }
    }

    /// The names of the written tables, one per write, in order.
    pub fn written_tables(&self) -> (r: Vec<String>)
        ensures
            r.deep_view() == written_names(self@.writes),
    {
        let mut r: Vec<String> = Vec::new();
        let mut i: usize = 0;
        while i < self.writes.len()
            invariant
                i <= self.writes.len(),
                r.len() == i,
                forall|j: int| 0 <= j < i ==> r[j]@ == self.writes[j].table_name@,
            decreases self.writes.len() - i,
        {
            r.push(self.writes[i].table_name.clone());
            i += 1;
        }
        assert(r.deep_view() =~= written_names(self@.writes));
        r
    }

    /// The names of the tables in the read snapshot, sorted.
    pub fn read_tables(&self) -> (r: Vec<String>)
        ensures
            crate::strmap::sorted_strict(r.deep_view()),
            forall|t: Seq<char>| r.deep_view().contains(t) <==> self@.read_snapshot.contains_key(t),
    {
        self.read_snapshot.keys()
    }

    /// Adds a write at the end.
    pub fn add_write(&mut self, write: TableWrite)
        ensures
            final(self)@ == (RecordModel { writes: old(self)@.writes.push(write@), ..old(self)@ }),
    {
        self.writes.push(write);
        assert(self@.writes =~= old(self)@.writes.push(write@));
    }

    /// Records that `table_name` was read at `version`.
    pub fn record_read(&mut self, table_name: &str, version: u64)
        ensures
            final(self)@ == (RecordModel {
                read_snapshot: old(self)@.read_snapshot.insert(table_name@, version),
                ..old(self)@
            }),
    {
        self.read_snapshot.insert(table_name.to_owned(), version);
    }

    /// Sets the status to preparing.
    pub fn mark_preparing(&mut self)
        ensures
            final(self)@ == (RecordModel { status: StatusModel::Preparing, ..old(self)@ }),
    {
        self.status = TransactionStatus::Preparing;
    }

    /// Sets the status to committed, as of now.
    pub fn mark_committed(&mut self)
        ensures
            final(self)@.committed_at is Some,
            final(self)@ == (RecordModel {
                status: StatusModel::Committed,
                committed_at: final(self)@.committed_at,
                ..old(self)@
            }),
    {
        self.status = TransactionStatus::Committed;
        self.committed_at = Some(unix_now());
    }

    /// Sets the status to aborted, for the given reason.
    pub fn mark_aborted(&mut self, reason: &str)
        ensures
            final(self)@ == (RecordModel { status: StatusModel::Aborted { reason: reason@ }, ..old(self)@ }),
    {
        self.status = TransactionStatus::Aborted { reason: reason.to_owned() };
    }

    /// Sets a metadata entry.
    pub fn set_metadata(&mut self, key: &str, value: &str)
        ensures
            final(self)@ == (RecordModel { metadata: old(self)@.metadata.insert(key@, value@), ..old(self)@ }),
    {
        self.metadata.insert(key.to_owned(), value.to_owned());
        assert(self@.metadata =~= old(self)@.metadata.insert(key@, value@));
    }
}

} // verus!
