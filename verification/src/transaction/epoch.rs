//! Epochs: coarse groups of transactions, for log organization and recovery.

use vstd::prelude::*;
use crate::clock::unix_now;

verus! {

/// How epochs are cut.
#[derive(Debug, Clone, Copy, PartialEq, Eq)]
pub struct EpochConfig {
    /// Length of an epoch in milliseconds; 0 for immediate mode.
    pub duration_ms: u64,
    /// Most transactions in one epoch.
    pub max_transactions: u64,
    /// Whether transactions are batched within an epoch.
    pub batching_enabled: bool,
}

impl Default for EpochConfig {
    fn default() -> (r: Self)
        ensures
            r.duration_ms == 100,
            r.max_transactions == 1000,
            r.batching_enabled,
    {
        EpochConfig { duration_ms: 100, max_transactions: 1000, batching_enabled: true }
    }
}

impl EpochConfig {
    /// One transaction per epoch, committed at once.
    pub fn single_node() -> (r: Self)
        ensures
            r.duration_ms == 0,
            r.max_transactions == 1,
            !r.batching_enabled,
    {
        EpochConfig { duration_ms: 0, max_transactions: 1, batching_enabled: false }
    }

    /// Many transactions per epoch.
    pub fn high_throughput() -> (r: Self)
        ensures
            r.duration_ms == 50,
            r.max_transactions == 10000,
            r.batching_enabled,
    {
        EpochConfig { duration_ms: 50, max_transactions: 10000, batching_enabled: true }
    }

    /// Short epochs with small batches.
    pub fn low_latency() -> (r: Self)
        ensures
            r.duration_ms == 10,
            r.max_transactions == 100,
            r.batching_enabled,
    {
        EpochConfig { duration_ms: 10, max_transactions: 100, batching_enabled: true }
    }

    /// Whether every transaction is its own epoch.
    pub fn is_immediate(&self) -> (r: bool)
        ensures
            r == (self.duration_ms == 0 || self.max_transactions <= 1),
    {
        self.duration_ms == 0 || self.max_transactions <= 1
    }
}

/// The status of an epoch.
#[derive(Debug, Clone, Copy, PartialEq, Eq, Structural)]
pub enum EpochStatus {
    /// The epoch accepts transactions.
    Active,
    /// The epoch is closed and its transactions are being committed.
    Committing,
    /// All transactions of the epoch are committed.
    Committed,
    /// The epoch was rolled back.
    RolledBack,
}

impl EpochStatus {
    /// The status in words.
    pub open spec fn text(self) -> Seq<char> {
        match self {
            EpochStatus::Active => "Active"@,
            EpochStatus::Committing => "Committing"@,
            EpochStatus::Committed => "Committed"@,
            EpochStatus::RolledBack => "RolledBack"@,
        }
    }

    /// The status in words.
    pub fn to_string(&self) -> (s: String)
        ensures
            s@ == self.text(),
    {
        match self {
            EpochStatus::Active => "Active".to_owned(),
            EpochStatus::Committing => "Committing".to_owned(),
            EpochStatus::Committed => "Committed".to_owned(),
            EpochStatus::RolledBack => "RolledBack".to_owned(),
        }
    }
}

/// What the metadata of an epoch is, over plain values.
pub struct EpochModel {
    pub epoch_id: u64,
    pub started_at: i64,
    pub ended_at: Option<i64>,
    pub status: EpochStatus,
    pub transactions: Seq<u64>,
    pub first_tx_id: Option<u64>,
    pub last_tx_id: Option<u64>,
    pub committed_count: u64,
    pub aborted_count: u64,
    pub format_version: u32,
}

/// The metadata of the epoch `epoch_id` that has just begun, at the time
/// `started_at`: active, without transactions, all counts at zero.
pub open spec fn fresh_epoch(epoch_id: u64, started_at: i64) -> EpochModel {
    EpochModel {
        epoch_id,
        started_at,
        ended_at: None,
        status: EpochStatus::Active,
        transactions: Seq::empty(),
        first_tx_id: None,
        last_tx_id: None,
        committed_count: 0,
        aborted_count: 0,
        format_version: 1,
    }
}

/// The metadata after the transaction `tx_id` joined the epoch: it is the
/// last of the list, and the first if the list was empty.
pub open spec fn with_transaction(m: EpochModel, tx_id: u64) -> EpochModel {
    EpochModel {
        transactions: m.transactions.push(tx_id),
        first_tx_id: if m.first_tx_id is None {
            Some(tx_id)
        } else {
            m.first_tx_id
        },
        last_tx_id: Some(tx_id),
        ..m
    }
}

/// The metadata of an epoch.
#[derive(Debug, Clone)]
pub struct EpochMetadata {
    /// Id of the epoch.
    pub epoch_id: u64,
    /// Unix time at which the epoch began.
    pub started_at: i64,
    /// Unix time at which it ended, if it did.
    pub ended_at: Option<i64>,
    /// The status.
    pub status: EpochStatus,
    /// Ids of the transactions of the epoch, in the order in which they began.
    pub transactions: Vec<u64>,
    /// Id of the first transaction.
    pub first_tx_id: Option<u64>,
    /// Id of the last transaction.
    pub last_tx_id: Option<u64>,
    /// Number of committed transactions.
    pub committed_count: u64,
    /// Number of aborted transactions.
    pub aborted_count: u64,
    /// Version of the record format.
    pub format_version: u32,
}

impl View for EpochMetadata {
    type V = EpochModel;

    open spec fn view(&self) -> EpochModel {
        EpochModel {
            epoch_id: self.epoch_id,
            started_at: self.started_at,
            ended_at: self.ended_at,
            status: self.status,
            transactions: self.transactions@,
            first_tx_id: self.first_tx_id,
            last_tx_id: self.last_tx_id,
            committed_count: self.committed_count,
            aborted_count: self.aborted_count,
            format_version: self.format_version,
        }
    }
}

/// `n + 1`, held at the top of the range.
pub open spec fn counted_up(n: u64) -> u64 {
    if n < u64::MAX {
        (n + 1) as u64
    } else {
        u64::MAX
    }
}

/// The milliseconds between `started_at` and `ended_at`: 0 for an end before
/// the start, the top of the range where the number does not fit.
pub open spec fn span_ms(started_at: i64, ended_at: i64) -> u64 {
    if ended_at <= started_at {
        0
    } else if (ended_at - started_at) * 1000 > u64::MAX {
        u64::MAX
    } else {
        ((ended_at - started_at) * 1000) as u64
    }
}

impl EpochMetadata {
    /// A copy of the metadata.
    pub fn duplicate(&self) -> (r: Self)
        ensures
            r@ == self@,
    {
        let mut transactions: Vec<u64> = Vec::new();
        let mut i: usize = 0;
        while i < self.transactions.len()
            invariant
                i <= self.transactions.len(),
                transactions@ == self.transactions@.subrange(0, i as int),
            decreases self.transactions.len() - i,
        {
            transactions.push(self.transactions[i]);
            i += 1;
            assert(transactions@ =~= self.transactions@.subrange(0, i as int));
        }
        assert(self.transactions@.subrange(0, self.transactions.len() as int) =~= self.transactions@);
        EpochMetadata {
            epoch_id: self.epoch_id,
            started_at: self.started_at,
            ended_at: self.ended_at,
            status: self.status,
            transactions,
            first_tx_id: self.first_tx_id,
            last_tx_id: self.last_tx_id,
            committed_count: self.committed_count,
            aborted_count: self.aborted_count,
            format_version: self.format_version,
        }
    }

    /// The metadata of an active epoch that begins now, without
    /// transactions.
    pub fn new(epoch_id: u64) -> (r: Self)
        ensures
            r@ == fresh_epoch(epoch_id, r@.started_at),
    {
        EpochMetadata {
            epoch_id,
            started_at: unix_now(),
            ended_at: None,
            status: EpochStatus::Active,
            transactions: Vec::new(),
            first_tx_id: None,
            last_tx_id: None,
            committed_count: 0,
            aborted_count: 0,
            format_version: 1,
        }
    }

    /// Adds a transaction: it becomes the last, and the first if there was
    /// none.
    pub fn add_transaction(&mut self, tx_id: u64)
        ensures
            final(self)@ == with_transaction(old(self)@, tx_id),
    {
        if self.first_tx_id.is_none() {
            self.first_tx_id = Some(tx_id);
        }
        self.last_tx_id = Some(tx_id);
        self.transactions.push(tx_id);
    }

    /// Counts a committed transaction.
    pub fn record_commit(&mut self)
        ensures
            final(self)@ == (EpochModel { committed_count: counted_up(old(self)@.committed_count), ..old(self)@ }),
    {
        if self.committed_count < u64::MAX {
            self.committed_count = self.committed_count + 1;
        }
    }

    /// Counts an aborted transaction.
    pub fn record_abort(&mut self)
        ensures
            final(self)@ == (EpochModel { aborted_count: counted_up(old(self)@.aborted_count), ..old(self)@ }),
    {
        if self.aborted_count < u64::MAX {
            self.aborted_count = self.aborted_count + 1;
        }
    }

    /// The number of transactions.
    pub fn transaction_count(&self) -> (n: usize)
        ensures
            n == self@.transactions.len(),
    {
        self.transactions.len()
    }

    /// Whether the epoch is active.
    pub fn is_active(&self) -> (r: bool)
        ensures
            r == (self@.status == EpochStatus::Active),
    {
        self.status == EpochStatus::Active
    }

    /// Whether the epoch is committed.
    pub fn is_committed(&self) -> (r: bool)
        ensures
            r == (self@.status == EpochStatus::Committed),
    {
        self.status == EpochStatus::Committed
    }

    /// Closes the epoch for new transactions.
    pub fn mark_committing(&mut self)
        ensures
            final(self)@ == (EpochModel { status: EpochStatus::Committing, ..old(self)@ }),
    {
        self.status = EpochStatus::Committing;
    }

    /// Marks the epoch committed, as of now.
    pub fn mark_committed(&mut self)
        ensures
            final(self)@.ended_at is Some,
            final(self)@ == (EpochModel {
                status: EpochStatus::Committed,
                ended_at: final(self)@.ended_at,
                ..old(self)@
            }),
    {
        self.status = EpochStatus::Committed;
        self.ended_at = Some(unix_now());
    }

    /// Marks the epoch rolled back, as of now.
    pub fn mark_rolled_back(&mut self)
        ensures
            final(self)@.ended_at is Some,
            final(self)@ == (EpochModel {
                status: EpochStatus::RolledBack,
                ended_at: final(self)@.ended_at,
                ..old(self)@
            }),
    {
        self.status = EpochStatus::RolledBack;
        self.ended_at = Some(unix_now());
    }

    /// The length of the epoch in milliseconds, if it has ended.
    pub fn duration_ms(&self) -> (r: Option<u64>)
        ensures
            r == (match self@.ended_at {
                Some(end) => Some(span_ms(self@.started_at, end)),
                None => None,
            }),
    {
        match self.ended_at {
            None => None,
            Some(end) => {
                if end <= self.started_at {
                    Some(0)
                } else {
                    let span: i128 = (end as i128 - self.started_at as i128) * 1000;
                    if span > u64::MAX as i128 {
                        Some(u64::MAX)
                    } else {
                        Some(span as u64)
                    }
                }
            },
        }
    }
}

} // verus!
