//! The transaction manager: begin, read, write, commit and abort under
//! snapshot isolation.
//!
//! The manager owns the log, the catalog and, where branches are used, the
//! branch manager. A commit checks for conflicts with the transactions
//! committed lately, checks that nothing the transaction read has moved on,
//! and only then mints the new versions and moves the branch heads.

use std::collections::VecDeque;
use vstd::prelude::*;
use crate::branch::branch::BranchModel;
use crate::branch::error::{BranchError, BranchErrorModel};
use crate::branch::manager::BranchManager;
use crate::catalog::error::{CatalogError, CatalogErrorModel};
use crate::catalog::file_catalog::{CatalogModel, FileCatalog};
use crate::catalog::version::parent_of;
use crate::changelog::entry::{entry_of, ChangelogEntry, EntryModel};
use crate::changelog::query::{ChangelogQuery, QueryModel};
use crate::idmap::{ids_increasing, IdMap};
use crate::strmap::{lemma_sorted_distinct, sorted_strict, StrMap};
use crate::text::{clone_strings, lex_lt, list_contains, str_eq};
use crate::transaction::conflict::{Conflict, ConflictDetector, TableLevelConflictDetector};
use crate::transaction::epoch::{fresh_epoch, with_transaction, counted_up, EpochConfig, EpochModel, EpochStatus};
use crate::transaction::error::{TransactionError, TxErrorModel};
use crate::transaction::log::{is_pending, last_id, StorageConfig, records_in, records_view, LogModel, SlotModel, TransactionLog};
use crate::transaction::recovery::{all_issues, roll_back, scanned, settled, verify_consistency, RecoveryManager, RecoveryReport, ReportModel};
use crate::transaction::types::{RecordModel, StatusModel, TableWrite, TransactionRecord, WriteModel, CURRENT_FORMAT_VERSION};

verus! {

/// What the manager is, over plain values.
pub struct ManagerModel {
    pub log: LogModel,
    pub config: EpochConfig,
    pub active: Map<u64, RecordModel>,
    pub recent: Seq<RecordModel>,
    pub max_recent: usize,
    pub catalog: CatalogModel,
    pub branches: Option<Map<Seq<char>, BranchModel>>,
    pub default_branch: Option<Seq<char>>,
}

impl ManagerModel {
    /// The version at which `table` stands for a transaction on `branch`:
    /// the head of the branch or, without branches, the latest version of
    /// the catalog. `None` where the table has no version there.
    pub open spec fn current_version(self, branch: Seq<char>, table: Seq<char>) -> Option<u64> {
        match self.branches {
            Some(bs) => if bs.contains_key(branch) && bs[branch].head.contains_key(table) {
                Some(bs[branch].head[table])
            } else {
                None
            },
            None => if self.catalog.latest(table) >= 1 {
                Some(self.catalog.latest(table) as u64)
            } else {
                None
            },
        }
    }

    /// The branch of `tx` exists, where branches are used.
    pub open spec fn branch_known(self, branch: Seq<char>) -> bool {
        self.branches matches Some(bs) ==> bs.contains_key(branch)
    }

    /// The table `t` of the snapshot of `tx` has moved on.
    pub open spec fn moved_on(self, tx: RecordModel, t: Seq<char>) -> bool {
        &&& tx.read_snapshot.contains_key(t)
        &&& self.current_version(tx.branch, t) is Some
        &&& self.current_version(tx.branch, t)->0 != tx.read_snapshot[t]
    }

    /// Nothing that `tx` read has moved on.
    pub open spec fn snapshot_valid(self, tx: RecordModel) -> bool {
        forall|t: Seq<char>| !#[trigger] self.moved_on(tx, t)
    }

    /// Every branch head names a version that the catalog holds.
    pub open spec fn heads_resolvable(self) -> bool {
        self.branches matches Some(bs) ==> forall|b: Seq<char>, t: Seq<char>| bs.contains_key(b) && #[trigger] bs[b].head.contains_key(t) ==> 1 <= bs[b].head[t] <= self.catalog.latest(t)
    }
}

/// The snapshot that a transaction on `branch` starts with: the head of the
/// branch or, without branches, the latest version of every table that has
/// one and whose name does not start with a dot.
pub open spec fn start_snapshot(m: ManagerModel, branch: Seq<char>) -> Map<Seq<char>, u64> {
    match m.branches {
        Some(bs) => bs[branch].head,
        None => Map::new(
            |t: Seq<char>| m.catalog.tables.contains_key(t) && m.catalog.latest(t) >= 1 && !(t.len() > 0 && t[0] == '.'),
            |t: Seq<char>| m.catalog.latest(t) as u64,
        ),
    }
}

/// The branch that a transaction begun on `branch` works on: the given one,
/// else the default branch, else `main` where branches are not used.
pub open spec fn begin_branch(m: ManagerModel, branch: Option<Seq<char>>) -> Option<Seq<char>> {
    match branch {
        Some(b) => Some(b),
        None => match m.branches {
            Some(_) => m.default_branch,
            None => Some("main"@),
        },
    }
}

/// `recent` after `tx` was added and the oldest records beyond `max` were
/// dropped.
pub open spec fn remembered(recent: Seq<RecordModel>, tx: RecordModel, max: usize) -> Seq<RecordModel> {
    let all = recent.push(tx);
    if all.len() > max {
        all.skip(all.len() - max)
    } else {
        all
    }
}

/// The manager of transactions.
pub struct TransactionManager<D: ConflictDetector> {
    log: TransactionLog,
    config: EpochConfig,
    active: IdMap<TransactionRecord>,
    recent_committed: VecDeque<TransactionRecord>,
    max_recent_committed: usize,
    detector: D,
    catalog: FileCatalog,
    branch_manager: Option<BranchManager>,
}

impl<D: ConflictDetector> View for TransactionManager<D> {
    type V = ManagerModel;

    closed spec fn view(&self) -> ManagerModel {
        ManagerModel {
            log: self.log@,
            config: self.config,
            active: Map::new(|id: u64| self.active@.contains_key(id), |id: u64| self.active@[id]@),
            recent: records_view(self.recent_committed@),
            max_recent: self.max_recent_committed,
            catalog: self.catalog@,
            branches: match self.branch_manager {
                Some(bm) => Some(bm.models()),
                None => None,
            },
            default_branch: match self.branch_manager {
                Some(bm) => bm.default_name(),
                None => None,
            },
        }
    }
}

/// The log of a manager that was just made under `base_path`, at the time
/// `created_at`: it lies in the directory `transactions`, stores the
/// single-node configuration, and holds no epoch, record, counter or
/// pointer.
pub open spec fn fresh_log(base_path: Seq<char>, created_at: i64) -> LogModel {
    LogModel {
        base_path: base_path + "/transactions"@,
        config: Some(
            StorageConfig {
                format_version: 1,
                epoch_config: EpochConfig { duration_ms: 0, max_transactions: 1, batching_enabled: false },
                created_at,
            },
        ),
        sequence: 0,
        epoch_sequence: None,
        latest_committed: None,
        committed_index: None,
        epochs: Map::empty(),
    }
}

impl TransactionManager<TableLevelConflictDetector> {
    /// A manager over `catalog` and, where given, `branch_manager`, with an
    /// empty log at `base_path` that is set up with the single-node
    /// configuration, and with table-level conflict detection.
    pub fn new(base_path: &str, catalog: FileCatalog, branch_manager: Option<BranchManager>) -> (r: Result<Self, TransactionError>)
        requires
            catalog.wf(),
            branch_manager matches Some(bm) ==> bm.wf(),
        ensures
            r is Ok,
            r->Ok_0.wf(),
            r->Ok_0@.catalog == catalog@,
            r->Ok_0@.branches == (match branch_manager {
                Some(bm) => Some(bm.models()),
                None => None,
            }),
            r->Ok_0@.default_branch == (match branch_manager {
                Some(bm) => bm.default_name(),
                None => None,
            }),
            r->Ok_0@.active == Map::<u64, RecordModel>::empty(),
            r->Ok_0@.recent == Seq::<RecordModel>::empty(),
            r->Ok_0@.max_recent == 1,
            r->Ok_0@.config == (EpochConfig { duration_ms: 0, max_transactions: 1, batching_enabled: false }),
            r->Ok_0@.log == fresh_log(base_path@, r->Ok_0@.log.config->0.created_at),
    {
        Self::with_config(base_path, catalog, branch_manager, EpochConfig::single_node())
    }

    /// As `new`. The configuration that counts is the one that the log
    /// stores; a fresh log stores the single-node configuration.
    pub fn with_config(base_path: &str, catalog: FileCatalog, branch_manager: Option<BranchManager>, config: EpochConfig) -> (r: Result<Self, TransactionError>)
        requires
            catalog.wf(),
            branch_manager matches Some(bm) ==> bm.wf(),
        ensures
            r is Ok,
            r->Ok_0.wf(),
            r->Ok_0@.catalog == catalog@,
            r->Ok_0@.branches == (match branch_manager {
                Some(bm) => Some(bm.models()),
                None => None,
            }),
            r->Ok_0@.default_branch == (match branch_manager {
                Some(bm) => bm.default_name(),
                None => None,
            }),
            r->Ok_0@.active == Map::<u64, RecordModel>::empty(),
            r->Ok_0@.recent == Seq::<RecordModel>::empty(),
            r->Ok_0@.max_recent == 1,
            r->Ok_0@.config == (EpochConfig { duration_ms: 0, max_transactions: 1, batching_enabled: false }),
            r->Ok_0@.log == fresh_log(base_path@, r->Ok_0@.log.config->0.created_at),
    {
        let mut tx_path = base_path.to_owned();
        tx_path.append("/transactions");
        let log = TransactionLog::new(tx_path.as_str());
        Ok(Self::open(log, catalog, branch_manager, TableLevelConflictDetector::new()))
    }
}

impl<D: ConflictDetector> TransactionManager<D> {
    /// The catalog and the branch manager are well-formed.
    pub closed spec fn wf(&self) -> bool {
        &&& self.catalog.wf()
        &&& (self.branch_manager matches Some(bm) ==> bm.wf())
    }

    /// The conflict detector.
    pub closed spec fn detector(&self) -> D {
        self.detector
    }

    /// A manager over the given log, catalog and branch manager, with the
    /// given conflict detector. A log without configuration gets the
    /// single-node configuration stored. No transaction is active.
    pub fn open(log: TransactionLog, catalog: FileCatalog, branch_manager: Option<BranchManager>, detector: D) -> (r: Self)
        requires
            catalog.wf(),
            branch_manager matches Some(bm) ==> bm.wf(),
        ensures
            r.wf(),
            r.detector() == detector,
            r@.catalog == catalog@,
            r@.branches == (match branch_manager {
                Some(bm) => Some(bm.models()),
                None => None,
            }),
            r@.default_branch == (match branch_manager {
                Some(bm) => bm.default_name(),
                None => None,
            }),
            r@.active == Map::<u64, RecordModel>::empty(),
            r@.recent == Seq::<RecordModel>::empty(),
            r@.log == (LogModel { config: Some(r@.log.config->0), ..log@ }),
            log@.config matches Some(c) ==> r@.log.config == Some(c),
            log@.config is None ==> r@.log.config->0.format_version == 1 && r@.log.config->0.epoch_config == (EpochConfig {
                duration_ms: 0,
                max_transactions: 1,
                batching_enabled: false,
            }),
            r@.config == r@.log.config->0.epoch_config,
            r@.max_recent as int == r@.config.max_transactions as usize as int,
    {
        let mut log = log;
        let storage = match log.initialize_if_needed() {
            Ok(c) => c,
            Err(_) => crate::transaction::log::StorageConfig::new(EpochConfig::single_node()),
        };
        let max_recent = storage.epoch_config.max_transactions as usize;
        let r = TransactionManager {
            log,
            config: storage.epoch_config,
            active: IdMap::new(),
            recent_committed: VecDeque::new(),
            max_recent_committed: max_recent,
            detector,
            catalog,
            branch_manager,
        };
        proof {
            assert(r@.active =~= Map::<u64, RecordModel>::empty());
            assert(r@.recent =~= Seq::<RecordModel>::empty());
        }
        r
    }

    /// Replaces the conflict detector.
    pub fn set_conflict_detector(&mut self, detector: D)
        ensures
            final(self)@ == old(self)@,
            final(self).detector() == detector,
            final(self).wf() == old(self).wf(),
    {
        self.detector = detector;
    }

    /// The epoch configuration.
    pub fn config(&self) -> (r: &EpochConfig)
        ensures
            *r == self@.config,
    {
        &self.config
    }

    /// The catalog.
    pub fn catalog(&self) -> (r: &FileCatalog)
        ensures
            r@ == self@.catalog,
    {
        &self.catalog
    }

    /// The log.
    pub fn log(&self) -> (r: &TransactionLog)
        ensures
            r@ == self@.log,
    {
        &self.log
    }

    /// The branch manager, where branches are used.
    pub fn branch_manager(&self) -> (r: Option<&BranchManager>)
        ensures
            r is Some == self@.branches is Some,
            r matches Some(bm) ==> Some(bm.models()) == self@.branches && bm.default_name() == self@.default_branch && (self.wf() ==> bm.wf()),
    {
        match &self.branch_manager {
            Some(bm) => Some(bm),
            None => None,
        }
    }

    /// Records that the active transaction `tx_id` read `table_name` at
    /// `version`; an earlier read of the table is overwritten.
    pub fn record_read(&mut self, tx_id: u64, table_name: &str, version: u64) -> (r: Result<(), TransactionError>)
        ensures
            final(self).wf() == old(self).wf(),
            final(self).detector() == old(self).detector(),
            r is Ok <==> old(self)@.active.contains_key(tx_id) && old(self)@.active[tx_id].status is Active,
            r is Ok ==> final(self)@ == (ManagerModel {
                active: old(self)@.active.insert(
                    tx_id,
                    RecordModel {
                        read_snapshot: old(self)@.active[tx_id].read_snapshot.insert(table_name@, version),
                        ..old(self)@.active[tx_id]
                    },
                ),
                ..old(self)@
            }),
            r matches Err(e) ==> final(self)@ == old(self)@ && e@ == (if old(self)@.active.contains_key(tx_id) {
                TxErrorModel::TransactionNotActive(tx_id)
            } else {
                TxErrorModel::TransactionNotFound(tx_id)
            }),
    {
        let mut tx = match self.active.get(tx_id) {
            Some(t) => t.clone(),
            None => {
                return Err(TransactionError::TransactionNotFound(tx_id));
            },
        };
        if !tx.is_active() {
            return Err(TransactionError::TransactionNotActive(tx_id));
        }
        tx.record_read(table_name, version);
        let ghost tm = tx@;
        self.active.insert(tx_id, tx);
        assert(self@.active =~= old(self)@.active.insert(tx_id, tm));
        Ok(())
    }

    /// Adds `write` to the active transaction `tx_id`.
    pub fn add_write(&mut self, tx_id: u64, write: TableWrite) -> (r: Result<(), TransactionError>)
        ensures
            final(self).wf() == old(self).wf(),
            final(self).detector() == old(self).detector(),
            r is Ok <==> old(self)@.active.contains_key(tx_id) && old(self)@.active[tx_id].status is Active,
            r is Ok ==> final(self)@ == (ManagerModel {
                active: old(self)@.active.insert(
                    tx_id,
                    RecordModel { writes: old(self)@.active[tx_id].writes.push(write@), ..old(self)@.active[tx_id] },
                ),
                ..old(self)@
            }),
            r matches Err(e) ==> final(self)@ == old(self)@ && e@ == (if old(self)@.active.contains_key(tx_id) {
                TxErrorModel::TransactionNotActive(tx_id)
            } else {
                TxErrorModel::TransactionNotFound(tx_id)
            }),
    {
        let mut tx = match self.active.get(tx_id) {
            Some(t) => t.clone(),
            None => {
                return Err(TransactionError::TransactionNotFound(tx_id));
            },
        };
        if !tx.is_active() {
            return Err(TransactionError::TransactionNotActive(tx_id));
        }
        tx.add_write(write);
        let ghost tm = tx@;
        self.active.insert(tx_id, tx);
        assert(self@.active =~= old(self)@.active.insert(tx_id, tm));
        Ok(())
    }

    /// Aborts the active transaction `tx_id` for `reason`: the record is
    /// logged as aborted, the epoch counts the abort, and the transaction
    /// leaves the active set.
    pub fn abort(&mut self, tx_id: u64, reason: &str) -> (r: Result<(), TransactionError>)
        ensures
            final(self).wf() == old(self).wf(),
            final(self).detector() == old(self).detector(),
            r is Ok <==> {
                &&& old(self)@.active.contains_key(tx_id)
                &&& is_pending(old(self)@.active[tx_id])
                &&& old(self)@.log.with_record(aborted(old(self)@.active[tx_id], reason@)).slot(old(self)@.active[tx_id].epoch_id).meta is Some
            },
            r is Ok ==> {
                let tx = aborted(old(self)@.active[tx_id], reason@);
                let logged = old(self)@.log.with_record(tx);
                let meta = logged.slot(tx.epoch_id).meta->0;
                final(self)@ == (ManagerModel {
                    active: old(self)@.active.remove(tx_id),
                    log: logged.with_meta(EpochModel { aborted_count: counted_up(meta.aborted_count), ..meta }),
                    ..old(self)@
                })
            },
            r matches Err(e) ==> {
                &&& !old(self)@.active.contains_key(tx_id) ==> e@ == TxErrorModel::TransactionNotFound(tx_id) && final(self)@ == old(self)@
                &&& old(self)@.active.contains_key(tx_id) && !is_pending(old(self)@.active[tx_id]) ==> e@ == TxErrorModel::TransactionNotActive(tx_id) && final(self)@ == old(self)@
                &&& old(self)@.active.contains_key(tx_id) && is_pending(old(self)@.active[tx_id]) ==> {
                    &&& e@ == TxErrorModel::EpochNotFound(old(self)@.active[tx_id].epoch_id)
                    &&& final(self)@ == (ManagerModel {
                        active: old(self)@.active.insert(tx_id, aborted(old(self)@.active[tx_id], reason@)),
                        log: old(self)@.log.with_record(aborted(old(self)@.active[tx_id], reason@)),
                        ..old(self)@
                    })
                }
            },
    {
        let mut tx = match self.active.get(tx_id) {
            Some(t) => t.clone(),
            None => {
                return Err(TransactionError::TransactionNotFound(tx_id));
            },
        };
        if !tx.is_active() && !tx.is_preparing() {
            return Err(TransactionError::TransactionNotActive(tx_id));
        }
        tx.mark_aborted(reason);
        let ghost tm = tx@;
        let _ = self.log.write_transaction(&tx);
        let mut epoch_meta = match self.log.get_epoch(tx.epoch_id) {
            Ok(m) => m,
            Err(e) => {
                self.active.insert(tx_id, tx);
                assert(self@.active =~= old(self)@.active.insert(tx_id, tm));
                return Err(e);
            },
        };
        epoch_meta.record_abort();
        let _ = self.log.write_epoch_metadata(&epoch_meta);
        let _ = self.active.remove(tx_id);
        assert(self@.active =~= old(self)@.active.remove(tx_id));
        Ok(())
    }

    /// The record of the transaction `tx_id`: the active one or else the
    /// one that the log finds.
    pub fn get_transaction(&self, tx_id: u64) -> (r: Result<TransactionRecord, TransactionError>)
        ensures
            r is Ok <==> self@.active.contains_key(tx_id) || self@.log.lookup(tx_id) is Some,
            r matches Ok(tx) ==> tx@ == (if self@.active.contains_key(tx_id) {
                self@.active[tx_id]
            } else {
                self@.log.lookup(tx_id)->0
            }),
            r matches Err(e) ==> e@ == TxErrorModel::TransactionNotFound(tx_id),
    {
        match self.active.get(tx_id) {
            Some(tx) => Ok(tx.clone()),
            None => self.log.read_transaction(tx_id),
        }
    }

    /// The records of the active transactions, by increasing id.
    pub fn active_transactions(&self) -> (r: Result<Vec<TransactionRecord>, TransactionError>)
        ensures
            r is Ok,
            r->Ok_0@.len() == self.active_ids().len(),
            ids_increasing(self.active_ids()),
            forall|i: int| 0 <= i < r->Ok_0@.len() ==> self@.active.contains_key(self.active_ids()[i]) && (#[trigger] r->Ok_0@[i])@ == self@.active[self.active_ids()[i]],
    {
        let n = self.active.len();
        let mut out: Vec<TransactionRecord> = Vec::new();
        let mut i: usize = 0;
        proof {
            self.active.lemma_dom();
        }
        while i < n
            invariant
                i <= n,
                n == self.active.ids_seq().len(),
                self.active.wf(),
                out.len() == i,
                forall|j: int| 0 <= j < i ==> (#[trigger] out[j])@ == self.active@[self.active.ids_seq()[j]]@ && self.active@.contains_key(self.active.ids_seq()[j]),
            decreases n - i,
        {
            proof {
                self.active.lemma_dom();
            }
            out.push(self.active.value_at(i).clone());
            i += 1;
        }
        Ok(out)
    }

    /// The ids of the active transactions, in increasing order.
    pub closed spec fn active_ids(&self) -> Seq<u64> {
        self.active.ids_seq()
    }

    /// The number of active transactions.
    pub fn active_count(&self) -> (r: Result<usize, TransactionError>)
        ensures
            r is Ok,
            r->Ok_0 == self.active_ids().len(),
    {
        Ok(self.active.len())
    }

    /// Forgets the transactions committed lately.
    pub fn clear_recent_committed(&mut self) -> (r: Result<(), TransactionError>)
        ensures
            r is Ok,
            final(self).wf() == old(self).wf(),
            final(self).detector() == old(self).detector(),
            final(self)@ == (ManagerModel { recent: Seq::empty(), ..old(self)@ }),
    {
        self.recent_committed.clear();
        assert(self@.recent =~= Seq::<RecordModel>::empty());
        assert(self@.active =~= old(self)@.active);
        Ok(())
    }

    /// Scans the log and reports what it holds. Nothing is changed.
    pub fn recover(&self) -> (r: Result<RecoveryReport, TransactionError>)
        ensures
            r is Ok,
            r->Ok_0@ == scanned(&self.log_ref()),
    {
        let recovery = RecoveryManager::new(&self.log);
        recovery.recover()
    }

    /// The log, for specifications.
    pub closed spec fn log_ref(&self) -> TransactionLog {
        self.log
    }

    /// Scans the log and marks every pending transaction aborted.
    pub fn recover_and_apply(&mut self) -> (r: Result<RecoveryReport, TransactionError>)
        ensures
            r is Ok,
            final(self).wf() == old(self).wf(),
            final(self).detector() == old(self).detector(),
            r->Ok_0@ == (ReportModel {
                errors: roll_back(old(self)@.log, scanned(&old(self).log_ref()).errors, scanned(&old(self).log_ref()).rolled_back).1,
                ..scanned(&old(self).log_ref())
            }),
            final(self)@ == (ManagerModel {
                log: roll_back(old(self)@.log, scanned(&old(self).log_ref()).errors, scanned(&old(self).log_ref()).rolled_back).0,
                ..old(self)@
            }),
            settled(final(self)@.log),
    {
        let r = RecoveryManager::recover_and_apply(&mut self.log);
        assert(self@.active =~= old(self)@.active);
        r
    }

    /// Checks the log against itself and lists what disagrees.
    pub fn verify_consistency(&self) -> (r: Result<Vec<String>, TransactionError>)
        ensures
            r is Ok,
            r->Ok_0.deep_view() == all_issues(self@.log, self.log_ref().epoch_ids(), |e: u64| self.log_ref().tx_ids(e)),
    {
        verify_consistency(&self.log)
    }

    /// Whether committing `tx` would conflict with a transaction committed
    /// lately that began before it, or with another transaction that is
    /// preparing.
    fn check_conflicts(&self, tx: &TransactionRecord) -> (r: Result<(), TransactionError>)
        ensures
            r is Ok <==> !write_conflict(self.detector, self@, tx@),
            r matches Err(e) ==> e@ is WriteConflict && e@->WriteConflict_0.len() > 0,
    {
        let mut i: usize = 0;
        while i < self.recent_committed.len()
            invariant
                i <= self.recent_committed.len(),
                forall|j: int| 0 <= j < i ==> !((#[trigger] self@.recent[j]).tx_id < tx@.tx_id && conflicting(self.detector, tx@, self@.recent[j])),
            decreases self.recent_committed.len() - i,
        {
            let committed_tx = &self.recent_committed[i];
            assert(self@.recent[i as int] == committed_tx@);
            if committed_tx.tx_id < tx.tx_id {
                match self.detector.detect(tx, committed_tx) {
                    Some(conflict) => {
                        return Err(TransactionError::WriteConflict(conflict.tables));
                    },
                    None => {},
                }
            }
            i += 1;
        }
        let n = self.active.len();
        let mut k: usize = 0;
        proof {
            self.active.lemma_dom();
        }
        while k < n
            invariant
                k <= n,
                n == self.active.ids_seq().len(),
                self.active.wf(),
                forall|j: int| 0 <= j < self@.recent.len() ==> !((#[trigger] self@.recent[j]).tx_id < tx@.tx_id && conflicting(self.detector, tx@, self@.recent[j])),
                forall|j: int| 0 <= j < k ==> {
                    let other = self@.active[#[trigger] self.active.ids_seq()[j]];
                    !(other.tx_id != tx@.tx_id && other.status is Preparing && conflicting(self.detector, tx@, other))
                },
            decreases n - k,
        {
            let other = self.active.value_at(k);
            proof {
                self.active.lemma_dom();
                assert(self@.active[self.active.ids_seq()[k as int]] == other@);
            }
            if other.tx_id != tx.tx_id && other.is_preparing() {
                match self.detector.detect(tx, other) {
                    Some(conflict) => {
                        proof {
                            assert(self@.active.contains_key(self.active.ids_seq()[k as int]));
                        }
                        return Err(TransactionError::WriteConflict(conflict.tables));
                    },
                    None => {},
                }
            }
            k += 1;
        }
        proof {
            self.active.lemma_dom();
            if exists|id: u64| #[trigger] self@.active.contains_key(id) && self@.active[id].tx_id != tx@.tx_id && self@.active[id].status is Preparing && conflicting(self.detector, tx@, self@.active[id]) {
                let id = choose|id: u64| #[trigger] self@.active.contains_key(id) && self@.active[id].tx_id != tx@.tx_id && self@.active[id].status is Preparing && conflicting(self.detector, tx@, self@.active[id]);
                assert(self.active@.contains_key(id));
                let j = self.active.ids_seq().index_of(id);
                assert(self.active.ids_seq()[j] == id);
            }
        }
        Ok(())
    }

    /// The version at which `table` stands for a transaction on `branch`.
    fn current(&self, branch: &str, table: &str) -> (r: Option<u64>)
        requires
            self.wf(),
            self@.branch_known(branch@),
        ensures
            r == self@.current_version(branch@, table@),
    {
        match &self.branch_manager {
            Some(bm) => match bm.get_table_version(branch, table) {
                Ok(v) => v,
                Err(_) => None,
            },
            None => {
                let latest = self.catalog.get_latest_version_num(table);
                if latest >= 1 {
                    Some(latest)
                } else {
                    None
                }
            },
        }
    }

    /// Whether the branch of `tx` exists and nothing that `tx` read has
    /// moved on. The first table, in sorted order, that has moved on is
    /// reported.
    fn validate_snapshot(&self, tx: &TransactionRecord) -> (r: Result<(), TransactionError>)
        requires
            self.wf(),
        ensures
            r is Ok <==> self@.branch_known(tx@.branch) && self@.snapshot_valid(tx@),
            r matches Err(e) ==> {
                &&& !self@.branch_known(tx@.branch) ==> e@ == TxErrorModel::BranchError(BranchErrorModel::BranchNotFound(tx@.branch).text())
                &&& self@.branch_known(tx@.branch) ==> {
                    &&& e@ is SnapshotConflict
                    &&& self@.moved_on(tx@, e@->SnapshotConflict_table)
                    &&& e@->SnapshotConflict_read_version == tx@.read_snapshot[e@->SnapshotConflict_table]
                    &&& Some(e@->SnapshotConflict_current_version) == self@.current_version(tx@.branch, e@->SnapshotConflict_table)
                    &&& forall|t: Seq<char>| lex_lt(t, e@->SnapshotConflict_table) ==> !#[trigger] self@.moved_on(tx@, t)
                }
            },
    {
        match &self.branch_manager {
            Some(bm) => {
                match bm.get_table_version(tx.branch.as_str(), "") {
                    Ok(_) => {},
                    Err(e) => {
                        return Err(TransactionError::BranchError(e.to_string()));
                    },
                }
            },
            None => {},
        }
        let n = tx.read_snapshot.len();
        let ghost keys = tx.read_snapshot.keys_seq();
        proof {
            tx.read_snapshot.lemma_dom();
        }
        let mut i: usize = 0;
        while i < n
            invariant
                i <= n,
                n == keys.len(),
                keys == tx.read_snapshot.keys_seq(),
                tx.read_snapshot.wf(),
                self.wf(),
                self@.branch_known(tx@.branch),
                forall|j: int| 0 <= j < i ==> !self@.moved_on(tx@, #[trigger] keys[j]),
            decreases n - i,
        {
            let table = tx.read_snapshot.key_at(i);
            let read_version = *tx.read_snapshot.value_at(i);
            match self.current(tx.branch.as_str(), table.as_str()) {
                Some(current) => {
                    if current != read_version {
                        proof {
                            tx.read_snapshot.lemma_dom();
                            assert(self@.moved_on(tx@, table@));
                            assert forall|t: Seq<char>| lex_lt(t, table@) implies !#[trigger] self@.moved_on(tx@, t) by {
                                if self@.moved_on(tx@, t) {
                                    assert(tx.read_snapshot@.dom().contains(t));
                                    assert(keys.to_set().contains(t));
                                    let j = keys.index_of(t);
                                    assert(keys[j] == t);
                                    crate::text::lemma_lex_asymmetric(t, table@);
                                    if j > i {
                                        assert(lex_lt(keys[i as int], keys[j]));
                                    }
                                }
                            }
                        }
                        return Err(
                            TransactionError::SnapshotConflict {
                                table: table.clone(),
                                read_version,
                                current_version: current,
                            },
                        );
                    }
                },
                None => {},
            }
            i += 1;
        }
        proof {
            tx.read_snapshot.lemma_dom();
            assert forall|t: Seq<char>| !#[trigger] self@.moved_on(tx@, t) by {
                if self@.moved_on(tx@, t) {
                    assert(tx.read_snapshot@.dom().contains(t));
                    assert(keys.to_set().contains(t));
                    let j = keys.index_of(t);
                    assert(keys[j] == t);
                }
            }
        }
        Ok(())
    }

    /// Whether the writes of `tx` can be applied: every written table can
    /// take the versions, every target branch exists, and the epoch has
    /// metadata.
    fn check_writes(&self, tx: &TransactionRecord) -> (r: Result<(), TransactionError>)
        requires
            self.wf(),
        ensures
            r is Ok <==> !catalog_full(self@, tx@) && !target_missing(self@, tx@) && self@.log.slot(tx@.epoch_id).meta is Some,
            r matches Err(e) ==> {
                &&& catalog_full(self@, tx@) ==> reports_full(e@, self@, tx@)
                &&& !catalog_full(self@, tx@) && target_missing(self@, tx@) ==> reports_missing(e@, self@, tx@)
                &&& !catalog_full(self@, tx@) && !target_missing(self@, tx@) ==> e@ == TxErrorModel::EpochNotFound(tx@.epoch_id)
            },
    {
        let count = tx.writes.len() as u64;
        let mut i: usize = 0;
        while i < tx.writes.len()
            invariant
                i <= tx.writes.len(),
                count == tx.writes.len(),
                forall|k: int| 0 <= k < i ==> self@.catalog.latest((#[trigger] tx@.writes[k]).table_name) + tx@.writes.len() <= u64::MAX,
            decreases tx.writes.len() - i,
        {
            let w = &tx.writes[i];
            assert(tx@.writes[i as int] == w@);
            let latest = self.catalog.get_latest_version_num(w.table_name.as_str());
            if latest > u64::MAX - count {
                let e = CatalogError::LatestPointerCorrupted(w.table_name.clone());
                let r = TransactionError::CatalogError(e.to_string());
                proof {
                    assert(full_at(self@, tx@, i as int));
                    assert forall|j: int| 0 <= j < i implies !#[trigger] full_at(self@, tx@, j) by {
                        assert(self@.catalog.latest(tx@.writes[j].table_name) + tx@.writes.len() <= u64::MAX);
                    }
                    assert(reports_full(r@, self@, tx@));
                }
                return Err(r);
            }
            i += 1;
        }
        match &self.branch_manager {
            Some(bm) => {
                let mut k: usize = 0;
                while k < tx.writes.len()
                    invariant
                        k <= tx.writes.len(),
                        bm.wf(),
                        self@.branches == Some(bm.models()),
                        !catalog_full(self@, tx@),
                        forall|j: int| 0 <= j < k ==> bm.models().contains_key(#[trigger] target_branch(tx@.writes[j], tx@.branch)),
                    decreases tx.writes.len() - k,
                {
                    let w = &tx.writes[k];
                    assert(tx@.writes[k as int] == w@);
                    let branch: &str = match &w.branch {
                        Some(b) => b.as_str(),
                        None => tx.branch.as_str(),
                    };
                    match bm.get_table_version(branch, w.table_name.as_str()) {
                        Ok(_) => {},
                        Err(e) => {
                            let r = TransactionError::BranchError(e.to_string());
                            proof {
                                assert(!bm.models().contains_key(target_branch(tx@.writes[k as int], tx@.branch)));
                                assert(branch@ == target_branch(tx@.writes[k as int], tx@.branch));
                                assert(missing_at(self@, tx@, k as int));
                                assert forall|j: int| 0 <= j < k implies !#[trigger] missing_at(self@, tx@, j) by {
                                    assert(bm.models().contains_key(target_branch(tx@.writes[j], tx@.branch)));
                                }
                                assert(e@ == BranchErrorModel::BranchNotFound(branch@));
                                assert(reports_missing(r@, self@, tx@));
                            }
                            return Err(r);
                        },
                    }
                    k += 1;
                }
            },
            None => {},
        }
        match self.log.get_epoch(tx.epoch_id) {
            Ok(_) => Ok(()),
            Err(e) => Err(e),
        }
    }

    /// Begins a transaction on `branch`, or on the default branch.
    ///
    /// The transaction gets the next id and the current epoch, and starts
    /// with the heads of its branch as its read snapshot (without branches:
    /// with the latest version of every table). Its record is logged and
    /// its id added to the epoch.
    pub fn begin(&mut self, branch: Option<&str>) -> (r: Result<u64, TransactionError>)
        requires
            old(self).wf(),
            old(self)@.log.sequence < u64::MAX,
        ensures
            final(self).wf(),
            final(self).detector() == old(self).detector(),
            final(self)@.catalog == old(self)@.catalog,
            final(self)@.branches == old(self)@.branches,
            final(self)@.default_branch == old(self)@.default_branch,
            final(self)@.recent == old(self)@.recent,
            final(self)@.config == old(self)@.config,
            final(self)@.max_recent == old(self)@.max_recent,
            final(self)@.log.sequence == old(self)@.log.sequence + 1,
            r is Ok <==> {
                let name = begin_branch(old(self)@, match branch {
                    Some(b) => Some(b@),
                    None => None,
                });
                &&& name is Some
                &&& old(self)@.branch_known(name->0)
                &&& (old(self)@.log.epoch_sequence matches Some(e) ==> old(self)@.log.slot(e).meta is Some)
            },
            r is Ok ==> {
                let id = (old(self)@.log.sequence + 1) as u64;
                match old(self)@.log.epoch_sequence {
                    Some(e) => final(self)@.log == (LogModel { sequence: id, ..old(self)@.log }).with_record(
                        final(self)@.active[id],
                    ).with_meta(with_transaction(old(self)@.log.slot(e).meta->0, id)),
                    None => final(self)@.log == (LogModel {
                        sequence: id,
                        epoch_sequence: Some(1u64),
                        ..old(self)@.log
                    }).with_record(final(self)@.active[id]).with_meta(
                        with_transaction(fresh_epoch(1, final(self)@.log.slot(1).meta->0.started_at), id),
                    ),
                }
            },
            r is Err && old(self)@.log.epoch_sequence is Some ==> final(self)@.log == (LogModel {
                sequence: (old(self)@.log.sequence + 1) as u64,
                ..old(self)@.log
            }),
            r is Ok ==> {
                let id = (old(self)@.log.sequence + 1) as u64;
                let name = begin_branch(old(self)@, match branch {
                    Some(b) => Some(b@),
                    None => None,
                });
                &&& r->Ok_0 == id
                &&& name is Some
                &&& old(self)@.branch_known(name->0)
                &&& final(self)@.active.dom() == old(self)@.active.dom().insert(id)
                &&& forall|other: u64| other != id && old(self)@.active.contains_key(other) ==> final(self)@.active[other] == old(self)@.active[other]
                &&& final(self)@.active[id].tx_id == id
                &&& final(self)@.active[id].epoch_id == final(self)@.log.epoch_sequence->0
                &&& final(self)@.active[id].status is Active
                &&& final(self)@.active[id].writes == Seq::<WriteModel>::empty()
                &&& final(self)@.active[id].branch == name->0
                &&& final(self)@.active[id].read_snapshot == start_snapshot(old(self)@, name->0)
                &&& final(self)@.log.has_record(final(self)@.active[id].epoch_id, id)
                &&& final(self)@.log.epochs[final(self)@.active[id].epoch_id].transactions[id] == final(self)@.active[id]
            },
            r matches Err(e) ==> {
                let name = begin_branch(old(self)@, match branch {
                    Some(b) => Some(b@),
                    None => None,
                });
                &&& final(self)@.active == old(self)@.active
                &&& name is None ==> e@ == TxErrorModel::BranchError("No default branch"@)
                &&& name is Some && !old(self)@.branch_known(name->0) ==> e@ == TxErrorModel::BranchError(BranchErrorModel::BranchNotFound(name->0).text())
                &&& name is Some && old(self)@.branch_known(name->0) ==> e@ == TxErrorModel::EpochNotFound(
                    old(self)@.log.epoch_sequence->0,
                )
            },
    {
        let tx_id = match self.log.next_tx_id() {
            Ok(id) => id,
            Err(e) => {
                assert(self@.active =~= old(self)@.active);
                return Err(e);
            },
        };
        let epoch_id = match self.log.current_epoch_id() {
            Ok(id) => id,
            Err(e) => {
                assert(self@.active =~= old(self)@.active);
                return Err(e);
            },
        };
        assert(self@.active =~= old(self)@.active);
        let branch_name: String = match branch {
            Some(b) => b.to_owned(),
            None => match &self.branch_manager {
                Some(bm) => match bm.get_default() {
                    Ok(Some(d)) => d,
                    _ => {
                        return Err(TransactionError::BranchError("No default branch".to_owned()));
                    },
                },
                None => "main".to_owned(),
            },
        };
        let mut tx = TransactionRecord::new(tx_id, epoch_id, branch_name.clone());
        let snapshot = match self.capture_snapshot(branch_name.as_str()) {
            Ok(s) => s,
            Err(e) => {
                return Err(e);
            },
        };
        tx.read_snapshot = snapshot;
        let mut epoch_meta = match self.log.get_epoch(epoch_id) {
            Ok(m) => m,
            Err(e) => {
                return Err(e);
            },
        };
        let ghost tm = tx@;
        let ghost a0 = self@.active;
        let ghost log0 = self@.log;
        let ghost meta0 = epoch_meta@;
        self.active.insert(tx_id, tx.clone());
        let _ = self.log.write_transaction(&tx);
        epoch_meta.add_transaction(tx_id);
        let _ = self.log.write_epoch_metadata(&epoch_meta);
        proof {
            assert(self@.active =~= a0.insert(tx_id, tm));
            assert(self@.active.dom() =~= old(self)@.active.dom().insert(tx_id));
            assert(self@.log == log0.with_record(tm).with_meta(with_transaction(meta0, tx_id)));
            match old(self)@.log.epoch_sequence {
                Some(e) => {
                    assert(log0 == (LogModel { sequence: tx_id, ..old(self)@.log }));
                    assert(meta0 == old(self)@.log.slot(e).meta->0);
                },
                None => {
                    let at = meta0.started_at;
                    assert(meta0 == fresh_epoch(1, at));
                    assert(self@.log.slot(1).meta->0.started_at == at);
                    let made = (LogModel { sequence: tx_id, ..old(self)@.log }).with_meta(meta0);
                    assert(log0 == (LogModel { epoch_sequence: Some(1u64), ..made }));
                    let direct = (LogModel { sequence: tx_id, epoch_sequence: Some(1u64), ..old(self)@.log });
                    assert(log0.with_record(tm).with_meta(with_transaction(meta0, tx_id)).epochs =~= direct.with_record(tm).with_meta(
                        with_transaction(meta0, tx_id),
                    ).epochs);
                },
            }
        }
        Ok(tx_id)
    }

    /// The snapshot that a transaction on `branch` starts with.
    fn capture_snapshot(&self, branch: &str) -> (r: Result<StrMap<u64>, TransactionError>)
        requires
            self.wf(),
        ensures
            r is Ok <==> self@.branch_known(branch@),
            r matches Ok(s) ==> s@ == start_snapshot(self@, branch@),
            r matches Err(e) ==> e@ == TxErrorModel::BranchError(BranchErrorModel::BranchNotFound(branch@).text()),
    {
        match &self.branch_manager {
            Some(bm) => match bm.get(branch) {
                Ok(b) => Ok(b.head),
                Err(e) => Err(TransactionError::BranchError(e.to_string())),
            },
            None => {
                let tables = self.catalog.table_names();
                let ghost names = tables.deep_view();
                let ghost cat = self@.catalog;
                let mut snapshot: StrMap<u64> = StrMap::new();
                let mut i: usize = 0;
                proof {
                    assert forall|t: Seq<char>| #[trigger] names.contains(t) <==> (cat.tables.contains_key(t) && !(t.len() > 0 && t[0] == '.')) by {
                        assert(tables.deep_view().contains(t) <==> (self.catalog@.tables.contains_key(t) && !(t.len() > 0 && t[0] == '.')));
                    }
                }
                while i < tables.len()
                    invariant
                        i <= tables.len(),
                        names == tables.deep_view(),
                        cat == self.catalog@,
                        forall|t: Seq<char>| #[trigger] names.contains(t) <==> (cat.tables.contains_key(t) && !(t.len() > 0 && t[0] == '.')),
                        forall|t: Seq<char>| #[trigger] snapshot@.contains_key(t) <==> (crate::select::in_prefix(names, i as int, t) && cat.latest(t) >= 1),
                        forall|t: Seq<char>| #[trigger] snapshot@.contains_key(t) ==> snapshot@[t] == cat.latest(t),
                    decreases tables.len() - i,
                {
                    let table = &tables[i];
                    let latest = self.catalog.get_latest_version_num(table.as_str());
                    if latest >= 1 {
                        snapshot.insert(table.clone(), latest);
                    }
                    proof {
                        assert(names[i as int] == table@);
                        assert forall|t: Seq<char>| crate::select::in_prefix(names, i + 1, t) <==> (t == names[i as int] || crate::select::in_prefix(names, i as int, t)) by {
                            crate::select::lemma_prefix_step(names, i as int, t);
                        }
                    }
                    i += 1;
                }
                proof {
                    assert forall|t: Seq<char>| crate::select::in_prefix(names, names.len() as int, t) <==> names.contains(t) by {
                        crate::select::lemma_prefix_all(names, t);
                    }
                    let want = start_snapshot(self@, branch@);
                    assert(self@.branches is None);
                    assert forall|t: Seq<char>| snapshot@.contains_key(t) == want.contains_key(t) by {
                        assert(names.contains(t) <==> (cat.tables.contains_key(t) && !(t.len() > 0 && t[0] == '.')));
                    }
                    assert forall|t: Seq<char>| snapshot@.contains_key(t) implies snapshot@[t] == want[t] by {
                        assert(snapshot@[t] == cat.latest(t));
                        assert(want.contains_key(t));
                        assert(self@.catalog == cat);
                    }
                    assert(snapshot@ =~= want);
                }
                Ok(snapshot)
            },
        }
    }

    /// Commits the active transaction `tx_id`.
    ///
    /// The commit is refused, and nothing changes, where another
    /// transaction wrote the same data, where a table that the transaction
    /// read has moved on, or where the writes cannot be applied. Otherwise
    /// every write mints the next version of its table, the heads of the
    /// target branches move to the minted versions, the record is logged as
    /// committed, the epoch counts the commit, and the transaction moves
    /// from the active set to the transactions committed lately.
    pub fn commit(&mut self, tx_id: u64) -> (r: Result<(), TransactionError>)
        requires
            old(self).wf(),
        ensures
            final(self).wf(),
            final(self).detector() == old(self).detector(),
            r is Ok <==> commit_bar(old(self).detector(), old(self)@, tx_id) is Nothing,
            r matches Err(e) ==> final(self)@ == old(self)@ && reports(e@, commit_bar(old(self).detector(), old(self)@, tx_id), old(self)@, tx_id),
            r is Ok ==> exists|at: i64| #[trigger] commit_done(old(self)@, final(self)@, tx_id, at),
    {
        let mut tx = match self.active.get(tx_id) {
            Some(t) => t.clone(),
            None => {
                return Err(TransactionError::TransactionNotFound(tx_id));
            },
        };
        if !tx.is_active() {
            return Err(TransactionError::TransactionNotActive(tx_id));
        }
        match self.check_conflicts(&tx) {
            Ok(_) => {},
            Err(e) => {
                return Err(e);
            },
        }
        match self.validate_snapshot(&tx) {
            Ok(_) => {},
            Err(e) => {
                return Err(e);
            },
        }
        match self.check_writes(&tx) {
            Ok(_) => {},
            Err(e) => {
                return Err(e);
            },
        }
        let ghost before = self@;
        let ghost tx0 = tx@;
        tx.mark_committed();
        let ghost done = tx@;
        proof {
            assert forall|k: int| 0 <= k < tx.writes.len() implies self.catalog@.latest((#[trigger] tx.writes[k]).table_name@) + tx.writes.len() <= u64::MAX by {
                assert(tx0.writes[k] == tx.writes[k]@);
            }
        }
        let versions = apply_writes(&mut self.catalog, &tx.writes);
        let ghost cat = self.catalog@;
        match &mut self.branch_manager {
            Some(bm) => {
                proof {
                    assert forall|k: int| 0 <= k < tx@.writes.len() implies versions@.contains_key((#[trigger] tx@.writes[k]).table_name) && versions@[tx@.writes[k].table_name] == cat.latest(tx@.writes[k].table_name) by {
                        let t = tx@.writes[k].table_name;
                        lemma_written_counted(tx@.writes, k);
                        assert(count_writes(tx@.writes, t) > 0);
                        assert(tx@.writes == crate::transaction::types::writes_view(tx.writes@));
                        assert(versions@.contains_key(t));
                        assert(versions@[t] == cat.latest(t));
                    }
                }
                move_heads(bm, &tx, &versions, Ghost(cat));
            },
            None => {},
        }
        let _ = self.log.write_transaction(&tx);
        match self.log.get_epoch(tx.epoch_id) {
            Ok(meta) => {
                let mut meta = meta;
                meta.record_commit();
                let _ = self.log.write_epoch_metadata(&meta);
            },
            Err(_) => {},
        }
        remember(&mut self.recent_committed, tx, self.max_recent_committed);
        let _ = self.active.remove(tx_id);
        proof {
            assert(self@.active =~= old(self)@.active.remove(tx_id));
            assert(commit_done(old(self)@, self@, tx_id, done.committed_at->0));
        }
        Ok(())
    }

    /// The changelog entries that match `query`, by going through the
    /// committed transactions in the order of the index.
    ///
    /// A transaction that a filter passes over still moves the versions
    /// that later entries report as their old versions. Reading stops once
    /// the limit of the query is reached.
    pub fn get_changelog(&mut self, query: ChangelogQuery) -> (r: Result<Vec<ChangelogEntry>, TransactionError>)
        ensures
            r is Ok,
            final(self).wf() == old(self).wf(),
            final(self).detector() == old(self).detector(),
            exists|i: Seq<(u64, u64)>| #[trigger]
                old(self)@.log.reads_index(i) && final(self)@ == (ManagerModel {
                    log: old(self)@.log.after_reading(i),
                    ..old(self)@
                }) && entries_view(r->Ok_0@) == feed(query@, records_in(old(self)@.log.epochs, i)).entries,
    {
        let committed = match self.log.list_committed_transactions() {
            Ok(c) => c,
            Err(e) => {
                assert(self@.active =~= old(self)@.active);
                return Err(e);
            },
        };
        assert(self@.active =~= old(self)@.active);
        let entries = changelog_of(&query, &committed);
        proof {
            let i = choose|i: Seq<(u64, u64)>| #[trigger]
                old(self)@.log.reads_index(i) && self@.log == old(self)@.log.after_reading(i) && records_view(committed@) == records_in(
                    old(self)@.log.epochs,
                    i,
                );
            assert(self@ == (ManagerModel { log: old(self)@.log.after_reading(i), ..old(self)@ }));
        }
        Ok(entries)
    }

    /// The id of the transaction committed last, if any.
    pub fn latest_tx_id(&mut self) -> (r: Result<Option<u64>, TransactionError>)
        ensures
            r is Ok,
            final(self).wf() == old(self).wf(),
            final(self).detector() == old(self).detector(),
            old(self)@.log.latest_committed matches Some(t) ==> r->Ok_0 == Some(t) && final(self)@ == old(self)@,
            old(self)@.log.latest_committed is None ==> exists|i: Seq<(u64, u64)>| #[trigger]
                old(self)@.log.reads_index(i) && r->Ok_0 == last_id(records_in(old(self)@.log.epochs, i)) && final(self)@ == (ManagerModel {
                    log: LogModel { latest_committed: r->Ok_0, ..old(self)@.log.after_reading(i) },
                    ..old(self)@
                }),
    {
        let r = self.log.latest_committed_tx_id();
        assert(self@.active =~= old(self)@.active);
        proof {
            if old(self)@.log.latest_committed is None {
                let i = choose|i: Seq<(u64, u64)>| #[trigger]
                    old(self)@.log.reads_index(i) && r->Ok_0 == last_id(records_in(old(self)@.log.epochs, i)) && self@.log == (LogModel {
                        latest_committed: r->Ok_0,
                        ..old(self)@.log.after_reading(i)
                    });
                assert(self@ == (ManagerModel {
                    log: LogModel { latest_committed: r->Ok_0, ..old(self)@.log.after_reading(i) },
                    ..old(self)@
                }));
            }
        }
        r
    }
}

/// The two transactions conflict, as the detector `d` sees it.
pub open spec fn conflicting<D: ConflictDetector>(d: D, a: RecordModel, b: RecordModel) -> bool {
    exists|t: Seq<char>| d.conflicts_on(a, b, t)
}

/// Committing `tx` would conflict with a transaction committed lately that
/// began before it, or with another transaction that is preparing.
pub open spec fn write_conflict<D: ConflictDetector>(d: D, m: ManagerModel, tx: RecordModel) -> bool {
    ||| exists|i: int| 0 <= i < m.recent.len() && (#[trigger] m.recent[i]).tx_id < tx.tx_id && conflicting(d, tx, m.recent[i])
    ||| exists|id: u64| #[trigger] m.active.contains_key(id) && m.active[id].tx_id != tx.tx_id && m.active[id].status is Preparing && conflicting(d, tx, m.active[id])
}

/// The branch that the write `w` of a transaction on `tx_branch` goes to.
pub open spec fn target_branch(w: WriteModel, tx_branch: Seq<char>) -> Seq<char> {
    match w.branch {
        Some(b) => b,
        None => tx_branch,
    }
}

/// The number of writes of `ws` to `table`.
#[verifier::opaque]
pub open spec fn count_writes(ws: Seq<WriteModel>, table: Seq<char>) -> nat
    decreases ws.len(),
{
    if ws.len() == 0 {
        0
    } else {
        count_writes(ws.drop_last(), table) + if ws.last().table_name == table {
            1nat
        } else {
            0nat
        }
    }
}

/// Some write of `ws` goes to `table` on `branch`.
pub open spec fn targets(ws: Seq<WriteModel>, tx_branch: Seq<char>, branch: Seq<char>, table: Seq<char>) -> bool {
    exists|k: int| 0 <= k < ws.len() && (#[trigger] ws[k]).table_name == table && target_branch(ws[k], tx_branch) == branch
}

/// `new` is `old` after the writes `ws` were committed, one version each, in
/// order: every table gains as many versions as it has writes, the versions
/// it had stay, and the version of each write carries the chunks of the
/// write.
pub open spec fn writes_applied(old: CatalogModel, new: CatalogModel, ws: Seq<WriteModel>) -> bool {
    &&& new.gapless()
    &&& forall|t: Seq<char>| #[trigger] new.tables.contains_key(t) <==> old.tables.contains_key(t) || count_writes(ws, t) > 0
    &&& forall|t: Seq<char>| #[trigger] new.latest(t) == old.latest(t) + count_writes(ws, t)
    &&& forall|t: Seq<char>, i: int| 0 <= i < old.latest(t) ==> (#[trigger] new.tables[t][i]) == old.tables[t][i]
    &&& forall|k: int| 0 <= k < ws.len() ==> {
        let t = (#[trigger] ws[k]).table_name;
        let n = old.latest(t) + count_writes(ws.subrange(0, k), t);
        &&& new.tables[t][n as int].table_name == t
        &&& new.tables[t][n as int].chunk_hashes == ws[k].chunk_hashes
        &&& new.tables[t][n as int].version == n + 1
        &&& new.tables[t][n as int].parent_version == parent_of((n + 1) as u64)
        &&& new.tables[t][n as int].schema_hash is None
        &&& new.tables[t][n as int].metadata == Map::<Seq<char>, Seq<char>>::empty()
    }
}

/// `new` is `old` after the heads were moved for the writes `ws`: on the
/// target branch of each write the written table points at the latest
/// version that `catalog` holds of it; every other head stays.
pub open spec fn heads_moved(
    old: Map<Seq<char>, BranchModel>,
    new: Map<Seq<char>, BranchModel>,
    ws: Seq<WriteModel>,
    tx_branch: Seq<char>,
    catalog: CatalogModel,
) -> bool {
    &&& new.dom() == old.dom()
    &&& forall|b: Seq<char>| #[trigger] old.contains_key(b) ==> new[b] == (BranchModel {
        head: Map::new(
            |t: Seq<char>| old[b].head.contains_key(t) || targets(ws, tx_branch, b, t),
            |t: Seq<char>|
                if targets(ws, tx_branch, b, t) {
                    catalog.latest(t) as u64
                } else {
                    old[b].head[t]
                },
        ),
        ..old[b]
    })
}

/// The record `tx` as committed at `at`.
pub open spec fn committed(tx: RecordModel, at: i64) -> RecordModel {
    RecordModel { status: StatusModel::Committed, committed_at: Some(at), ..tx }
}

/// What stands in the way of committing the transaction `tx_id`, in the
/// order in which a commit checks.
pub enum CommitBar {
    /// No such active transaction.
    NotFound,
    /// The transaction is not active.
    NotActive,
    /// Another transaction wrote the same data.
    WriteConflict,
    /// The branch of the transaction does not exist.
    BranchMissing,
    /// A table of the read snapshot has moved on.
    SnapshotConflict,
    /// A written table cannot take more versions.
    CatalogFull,
    /// The target branch of a write does not exist.
    TargetMissing,
    /// The epoch of the transaction has no metadata.
    EpochMissing,
    /// Nothing: the commit goes through.
    Nothing,
}

/// The table of the write `k` cannot take as many versions as the
/// transaction has writes.
pub open spec fn full_at(m: ManagerModel, tx: RecordModel, k: int) -> bool {
    0 <= k < tx.writes.len() && m.catalog.latest(tx.writes[k].table_name) + tx.writes.len() > u64::MAX
}

/// Some written table cannot take as many versions as the transaction has
/// writes.
pub open spec fn catalog_full(m: ManagerModel, tx: RecordModel) -> bool {
    exists|k: int| 0 <= k < tx.writes.len() && m.catalog.latest((#[trigger] tx.writes[k]).table_name) + tx.writes.len() > u64::MAX
}

/// The write `k` goes to a branch that does not exist.
pub open spec fn missing_at(m: ManagerModel, tx: RecordModel, k: int) -> bool {
    m.branches is Some && 0 <= k < tx.writes.len() && !m.branches->0.contains_key(target_branch(tx.writes[k], tx.branch))
}

/// Some write goes to a branch that does not exist.
pub open spec fn target_missing(m: ManagerModel, tx: RecordModel) -> bool {
    m.branches is Some && exists|k: int| 0 <= k < tx.writes.len() && !m.branches->0.contains_key(#[trigger] target_branch(tx.writes[k], tx.branch))
}

/// The error names the table of the first write whose table is full.
pub open spec fn reports_full(e: TxErrorModel, m: ManagerModel, tx: RecordModel) -> bool {
    exists|k: int| #[trigger]
        full_at(m, tx, k) && (forall|j: int| 0 <= j < k ==> !#[trigger] full_at(m, tx, j)) && e == TxErrorModel::CatalogError(
            CatalogErrorModel::LatestPointerCorrupted(tx.writes[k].table_name).text(),
        )
}

/// The error names the branch of the first write whose branch is missing.
pub open spec fn reports_missing(e: TxErrorModel, m: ManagerModel, tx: RecordModel) -> bool {
    exists|k: int| #[trigger]
        missing_at(m, tx, k) && (forall|j: int| 0 <= j < k ==> !#[trigger] missing_at(m, tx, j)) && e == TxErrorModel::BranchError(
            BranchErrorModel::BranchNotFound(target_branch(tx.writes[k], tx.branch)).text(),
        )
}

/// What stands in the way of committing `tx_id`.
pub open spec fn commit_bar<D: ConflictDetector>(d: D, m: ManagerModel, tx_id: u64) -> CommitBar {
    if !m.active.contains_key(tx_id) {
        CommitBar::NotFound
    } else {
        let tx = m.active[tx_id];
        if !(tx.status is Active) {
            CommitBar::NotActive
        } else if write_conflict(d, m, tx) {
            CommitBar::WriteConflict
        } else if !m.branch_known(tx.branch) {
            CommitBar::BranchMissing
        } else if !m.snapshot_valid(tx) {
            CommitBar::SnapshotConflict
        } else if catalog_full(m, tx) {
            CommitBar::CatalogFull
        } else if target_missing(m, tx) {
            CommitBar::TargetMissing
        } else if m.log.slot(tx.epoch_id).meta is None {
            CommitBar::EpochMissing
        } else {
            CommitBar::Nothing
        }
    }
}

/// The error `e` reports the bar `bar` to committing `tx`.
pub open spec fn reports(e: TxErrorModel, bar: CommitBar, m: ManagerModel, tx_id: u64) -> bool {
    match bar {
        CommitBar::NotFound => e == TxErrorModel::TransactionNotFound(tx_id),
        CommitBar::NotActive => e == TxErrorModel::TransactionNotActive(tx_id),
        CommitBar::WriteConflict => e is WriteConflict && e->WriteConflict_0.len() > 0,
        CommitBar::BranchMissing => e == TxErrorModel::BranchError(
            BranchErrorModel::BranchNotFound(m.active[tx_id].branch).text(),
        ),
        CommitBar::SnapshotConflict => {
            &&& e is SnapshotConflict
            &&& m.moved_on(m.active[tx_id], e->SnapshotConflict_table)
            &&& e->SnapshotConflict_read_version == m.active[tx_id].read_snapshot[e->SnapshotConflict_table]
            &&& Some(e->SnapshotConflict_current_version) == m.current_version(
                m.active[tx_id].branch,
                e->SnapshotConflict_table,
            )
            &&& forall|t: Seq<char>| lex_lt(t, e->SnapshotConflict_table) ==> !#[trigger] m.moved_on(m.active[tx_id], t)
        },
        CommitBar::CatalogFull => reports_full(e, m, m.active[tx_id]),
        CommitBar::TargetMissing => reports_missing(e, m, m.active[tx_id]),
        CommitBar::EpochMissing => e == TxErrorModel::EpochNotFound(m.active[tx_id].epoch_id),
        CommitBar::Nothing => false,
    }
}

/// One more write counts one more where it is to the table, and as many
/// otherwise.
pub proof fn lemma_count_step(ws: Seq<WriteModel>, k: int, t: Seq<char>)
    requires
        0 <= k < ws.len(),
    ensures
        count_writes(ws.subrange(0, k + 1), t) == count_writes(ws.subrange(0, k), t) + if ws[k].table_name == t {
            1nat
        } else {
            0nat
        },
{
    reveal(count_writes);
    let next = ws.subrange(0, k + 1);
    assert(next.drop_last() =~= ws.subrange(0, k));
    assert(next.last() == ws[k]);
}

/// More writes do not count fewer writes to a table.
pub proof fn lemma_count_mono(ws: Seq<WriteModel>, k: int, n: int, t: Seq<char>)
    requires
        0 <= k <= n <= ws.len(),
    ensures
        count_writes(ws.subrange(0, k), t) <= count_writes(ws.subrange(0, n), t),
        count_writes(ws.subrange(0, n), t) <= n,
    decreases n,
{
    if n == 0 {
        reveal(count_writes);
        assert(ws.subrange(0, 0) =~= Seq::<WriteModel>::empty());
    } else {
        lemma_count_step(ws, n - 1, t);
        if k < n {
            lemma_count_mono(ws, k, n - 1, t);
        } else {
            lemma_count_mono(ws, n - 1, n - 1, t);
        }
    }
}

/// `new` is `old` after the first `n` writes of `ws` were committed.
pub open spec fn writes_applied_n(old: CatalogModel, new: CatalogModel, ws: Seq<WriteModel>, n: int) -> bool {
    &&& new.gapless()
    &&& forall|t: Seq<char>| #[trigger] new.tables.contains_key(t) <==> old.tables.contains_key(t) || count_writes(ws.subrange(0, n), t) > 0
    &&& forall|t: Seq<char>| #[trigger] new.latest(t) == old.latest(t) + count_writes(ws.subrange(0, n), t)
    &&& forall|t: Seq<char>, i: int| 0 <= i < old.latest(t) ==> (#[trigger] new.tables[t][i]) == old.tables[t][i]
    &&& forall|k: int| 0 <= k < n ==> {
        let t = (#[trigger] ws[k]).table_name;
        let p = old.latest(t) + count_writes(ws.subrange(0, k), t);
        &&& new.tables[t][p as int].table_name == t
        &&& new.tables[t][p as int].chunk_hashes == ws[k].chunk_hashes
        &&& new.tables[t][p as int].version == p + 1
        &&& new.tables[t][p as int].parent_version == parent_of((p + 1) as u64)
        &&& new.tables[t][p as int].schema_hash is None
        &&& new.tables[t][p as int].metadata == Map::<Seq<char>, Seq<char>>::empty()
    }
}

/// What one commit of the next version does to the catalog.
pub open spec fn one_more(cur: CatalogModel, new: CatalogModel, w: WriteModel) -> bool {
    let table = w.table_name;
    &&& new.gapless()
    &&& new.latest(table) == cur.latest(table) + 1
    &&& new.tables.dom() == cur.tables.dom().insert(table)
    &&& new.tables[table].drop_last() == (if cur.tables.contains_key(table) {
        cur.tables[table]
    } else {
        Seq::empty()
    })
    &&& new.tables[table].last().table_name == table
    &&& new.tables[table].last().version == cur.latest(table) + 1
    &&& new.tables[table].last().chunk_hashes == w.chunk_hashes
    &&& new.tables[table].last().parent_version == parent_of((cur.latest(table) + 1) as u64)
    &&& new.tables[table].last().schema_hash is None
    &&& new.tables[table].last().metadata == Map::<Seq<char>, Seq<char>>::empty()
    &&& forall|t: Seq<char>| t != table && cur.tables.contains_key(t) ==> #[trigger] new.tables[t] == cur.tables[t]
}

/// A write that appends one version moves the latest version of its table
/// by one and that of no other table.
proof fn lemma_one_more_latest(cur: CatalogModel, new: CatalogModel, w: WriteModel, t: Seq<char>)
    requires
        one_more(cur, new, w),
    ensures
        new.latest(t) == cur.latest(t) + if t == w.table_name {
            1nat
        } else {
            0nat
        },
        new.tables.contains_key(t) <==> cur.tables.contains_key(t) || t == w.table_name,
        forall|j: int| 0 <= j < cur.latest(t) ==> #[trigger] new.tables[t][j] == cur.tables[t][j],
{
    let table = w.table_name;
    assert(new.tables.dom().contains(t) == cur.tables.dom().insert(table).contains(t));
    if t == table {
        assert forall|j: int| 0 <= j < cur.latest(t) implies #[trigger] new.tables[t][j] == cur.tables[t][j] by {
            assert(new.tables[t].drop_last()[j] == new.tables[t][j]);
        }
    } else if cur.tables.contains_key(t) {
        assert(new.tables[t] == cur.tables[t]);
    }
}

/// One more write applied: from the first `i` writes to the first `i + 1`.
#[verifier::rlimit(40)]
proof fn lemma_apply_step(start: CatalogModel, cur: CatalogModel, new: CatalogModel, ws: Seq<WriteModel>, i: int)
    requires
        0 <= i < ws.len(),
        writes_applied_n(start, cur, ws, i),
        one_more(cur, new, ws[i]),
    ensures
        writes_applied_n(start, new, ws, i + 1),
{
    let table = ws[i].table_name;
    assert forall|t: Seq<char>| #[trigger] new.tables.contains_key(t) <==> start.tables.contains_key(t) || count_writes(ws.subrange(0, i + 1), t) > 0 by {
        lemma_count_step(ws, i, t);
        lemma_one_more_latest(cur, new, ws[i], t);
        assert(cur.tables.contains_key(t) <==> start.tables.contains_key(t) || count_writes(ws.subrange(0, i), t) > 0);
    }
    assert forall|t: Seq<char>| #[trigger] new.latest(t) == start.latest(t) + count_writes(ws.subrange(0, i + 1), t) by {
        lemma_count_step(ws, i, t);
        lemma_one_more_latest(cur, new, ws[i], t);
        assert(cur.latest(t) == start.latest(t) + count_writes(ws.subrange(0, i), t));
    }
    assert forall|t: Seq<char>, j: int| 0 <= j < start.latest(t) implies (#[trigger] new.tables[t][j]) == start.tables[t][j] by {
        lemma_one_more_latest(cur, new, ws[i], t);
        assert(cur.tables[t][j] == start.tables[t][j]);
        assert(cur.latest(t) == start.latest(t) + count_writes(ws.subrange(0, i), t));
    }
    assert forall|k: int| 0 <= k < i + 1 implies ({
        let t = (#[trigger] ws[k]).table_name;
        let p = start.latest(t) + count_writes(ws.subrange(0, k), t);
        &&& new.tables[t][p as int].table_name == t
        &&& new.tables[t][p as int].chunk_hashes == ws[k].chunk_hashes
        &&& new.tables[t][p as int].version == p + 1
        &&& new.tables[t][p as int].parent_version == parent_of((p + 1) as u64)
        &&& new.tables[t][p as int].schema_hash is None
        &&& new.tables[t][p as int].metadata == Map::<Seq<char>, Seq<char>>::empty()
    }) by {
        let t = ws[k].table_name;
        let p = start.latest(t) + count_writes(ws.subrange(0, k), t);
        lemma_one_more_latest(cur, new, ws[i], t);
        assert(cur.latest(t) == start.latest(t) + count_writes(ws.subrange(0, i), t));
        if k < i {
            lemma_count_step(ws, k, t);
            lemma_count_mono(ws, k + 1, i, t);
            assert(p < cur.latest(t));
            assert(new.tables[t][p as int] == cur.tables[t][p as int]);
        } else {
            assert(p == cur.latest(table));
            assert(new.tables[table].last() == new.tables[table][p as int]);
        }
    }
}

/// Every written table has a write, hence a version assigned.
proof fn lemma_written_counted(ws: Seq<WriteModel>, k: int)
    requires
        0 <= k < ws.len(),
    ensures
        count_writes(ws, ws[k].table_name) > 0,
{
    let t = ws[k].table_name;
    lemma_count_step(ws, k, t);
    lemma_count_mono(ws, k + 1, ws.len() as int, t);
    assert(ws.subrange(0, ws.len() as int) =~= ws);
}

/// Adds `tx` to the transactions committed lately and drops the oldest
/// beyond `max`.
fn remember(recent: &mut VecDeque<TransactionRecord>, tx: TransactionRecord, max: usize)
    ensures
        records_view(final(recent)@) == remembered(records_view(old(recent)@), tx@, max),
{
    let ghost r0 = records_view(recent@);
    let ghost done = tx@;
    recent.push_back(tx);
    let ghost all = r0.push(done);
    let n = recent.len();
    proof {
        assert(records_view(recent@) =~= all);
        assert(all.skip(0) =~= all);
        assert(all.len() == n);
    }
    let mut dropped: usize = 0;
    while recent.len() > max
        invariant
            all == r0.push(done),
            dropped <= all.len(),
            all.len() <= usize::MAX,
            records_view(recent@) == all.skip(dropped as int),
            recent@.len() == all.len() - dropped,
            dropped > 0 ==> all.len() - dropped >= max,
        decreases recent@.len(),
    {
        let ghost before = recent@;
        let _ = recent.pop_front();
        dropped += 1;
        proof {
            assert(recent@ =~= before.subrange(1, before.len() as int));
            assert forall|j: int| 0 <= j < recent@.len() implies #[trigger] records_view(recent@)[j] == all.skip(dropped as int)[j] by {
                assert(recent@[j] == before[j + 1]);
                assert(records_view(before)[j + 1] == all.skip(dropped - 1)[j + 1]);
            }
            assert(records_view(recent@) =~= all.skip(dropped as int));
        }
    }
    proof {
        if all.len() > max {
            assert(dropped == all.len() - max);
        } else {
            assert(dropped == 0);
            assert(all.skip(0) =~= all);
        }
    }
}

/// Commits the writes to the catalog, in order, and returns for each
/// written table the version that it stands at afterwards.
fn apply_writes(catalog: &mut FileCatalog, writes: &Vec<TableWrite>) -> (versions: StrMap<u64>)
    requires
        old(catalog).wf(),
        forall|k: int| 0 <= k < writes.len() ==> old(catalog)@.latest((#[trigger] writes[k]).table_name@) + writes.len() <= u64::MAX,
    ensures
        final(catalog).wf(),
        writes_applied(old(catalog)@, final(catalog)@, crate::transaction::types::writes_view(writes@)),
        forall|t: Seq<char>| #[trigger] versions@.contains_key(t) <==> count_writes(crate::transaction::types::writes_view(writes@), t) > 0,
        forall|t: Seq<char>| #[trigger] versions@.contains_key(t) ==> versions@[t] == final(catalog)@.latest(t),
{
    let ghost ws = crate::transaction::types::writes_view(writes@);
    let ghost start = catalog@;
    let mut versions: StrMap<u64> = StrMap::new();
    let mut i: usize = 0;
    proof {
        assert(ws.subrange(0, 0) =~= Seq::<WriteModel>::empty());
        assert forall|t: Seq<char>| count_writes(ws.subrange(0, 0), t) == 0 by {
            lemma_count_mono(ws, 0, 0, t);
        }
    }
    while i < writes.len()
        invariant
            i <= writes.len(),
            ws == crate::transaction::types::writes_view(writes@),
            catalog.wf(),
            forall|k: int| 0 <= k < writes.len() ==> start.latest((#[trigger] ws[k]).table_name) + writes.len() <= u64::MAX,
            writes_applied_n(start, catalog@, ws, i as int),
            forall|t: Seq<char>| #[trigger] versions@.contains_key(t) <==> count_writes(ws.subrange(0, i as int), t) > 0,
            forall|t: Seq<char>| #[trigger] versions@.contains_key(t) ==> versions@[t] == catalog@.latest(t),
        decreases writes.len() - i,
    {
        let w = &writes[i];
        let ghost cur = catalog@;
        let ghost table = w.table_name@;
        proof {
            assert(ws[i as int] == w@);
            lemma_count_mono(ws, i as int, i as int, table);
            assert(cur.latest(table) == start.latest(table) + count_writes(ws.subrange(0, i as int), table));
        }
        let result = catalog.commit_next_version(w.table_name.as_str(), clone_strings(&w.chunk_hashes));
        let v = match result {
            Ok(v) => v,
            Err(_) => 0,
        };
        let ghost vers0 = versions@;
        versions.insert(w.table_name.clone(), v);
        proof {
            let new = catalog@;
            assert(one_more(cur, new, ws[i as int]));
            lemma_apply_step(start, cur, new, ws, i as int);
            assert forall|t: Seq<char>| #[trigger] versions@.contains_key(t) <==> count_writes(ws.subrange(0, i + 1), t) > 0 by {
                lemma_count_step(ws, i as int, t);
                assert(vers0.contains_key(t) <==> count_writes(ws.subrange(0, i as int), t) > 0);
            }
            assert forall|t: Seq<char>| #[trigger] versions@.contains_key(t) implies versions@[t] == new.latest(t) by {
                lemma_count_step(ws, i as int, t);
                if t != table {
                    assert(vers0.contains_key(t));
                    assert(new.latest(t) == start.latest(t) + count_writes(ws.subrange(0, i + 1), t));
                    assert(cur.latest(t) == start.latest(t) + count_writes(ws.subrange(0, i as int), t));
                }
            }
        }
        i += 1;
    }
    proof {
        assert(ws.subrange(0, ws.len() as int) =~= ws);
        assert forall|k: int| 0 <= k < ws.len() implies ({
            let t = (#[trigger] ws[k]).table_name;
            let n = start.latest(t) + count_writes(ws.subrange(0, k), t);
            &&& catalog@.tables[t][n as int].table_name == t
            &&& catalog@.tables[t][n as int].chunk_hashes == ws[k].chunk_hashes
            &&& catalog@.tables[t][n as int].version == n + 1
        }) by {}
    }
    versions
}

/// Some write among the first `n` of `ws` goes to `table` on `branch`.
pub open spec fn targets_n(ws: Seq<WriteModel>, n: int, tx_branch: Seq<char>, branch: Seq<char>, table: Seq<char>) -> bool {
    exists|k: int| 0 <= k < n && k < ws.len() && (#[trigger] ws[k]).table_name == table && target_branch(ws[k], tx_branch) == branch
}

/// Taking one more write into account adds its table to the targets of
/// its branch.
pub proof fn lemma_targets_step(ws: Seq<WriteModel>, n: int, tx_branch: Seq<char>, branch: Seq<char>, table: Seq<char>)
    requires
        0 <= n < ws.len(),
    ensures
        targets_n(ws, n + 1, tx_branch, branch, table) <==> (targets_n(ws, n, tx_branch, branch, table) || (ws[n].table_name == table && target_branch(ws[n], tx_branch) == branch)),
{
    if targets_n(ws, n, tx_branch, branch, table) {
        let k = choose|k: int| 0 <= k < n && k < ws.len() && (#[trigger] ws[k]).table_name == table && target_branch(ws[k], tx_branch) == branch;
        assert(0 <= k < n + 1 && ws[k].table_name == table);
    }
    if ws[n].table_name == table && target_branch(ws[n], tx_branch) == branch {
        assert(0 <= n < n + 1 && ws[n].table_name == table);
    }
}

/// The heads of `old` after the first `n` writes of `ws` moved them.
pub open spec fn moved_heads(
    old: Map<Seq<char>, BranchModel>,
    ws: Seq<WriteModel>,
    n: int,
    tx_branch: Seq<char>,
    catalog: CatalogModel,
) -> Map<Seq<char>, BranchModel> {
    Map::new(
        |b: Seq<char>| old.contains_key(b),
        |b: Seq<char>|
            BranchModel {
                head: Map::new(
                    |t: Seq<char>| old[b].head.contains_key(t) || targets_n(ws, n, tx_branch, b, t),
                    |t: Seq<char>|
                        if targets_n(ws, n, tx_branch, b, t) {
                            catalog.latest(t) as u64
                        } else {
                            old[b].head[t]
                        },
                ),
                ..old[b]
            },
    )
}

/// Moves, for each write, the head of its target branch to the version that
/// the written table stands at.
fn move_heads(bm: &mut BranchManager, tx: &TransactionRecord, versions: &StrMap<u64>, Ghost(catalog): Ghost<CatalogModel>)
    requires
        old(bm).wf(),
        forall|k: int| 0 <= k < tx@.writes.len() ==> old(bm).models().contains_key(#[trigger] target_branch(tx@.writes[k], tx@.branch)),
        forall|k: int| 0 <= k < tx@.writes.len() ==> versions@.contains_key((#[trigger] tx@.writes[k]).table_name) && versions@[tx@.writes[k].table_name] == catalog.latest(tx@.writes[k].table_name),
    ensures
        final(bm).wf(),
        final(bm).default_name() == old(bm).default_name(),
        heads_moved(old(bm).models(), final(bm).models(), tx@.writes, tx@.branch, catalog),
{
    let ghost ws = tx@.writes;
    let ghost txb = tx@.branch;
    let ghost start = bm.models();
    let mut i: usize = 0;
    proof {
        assert(bm.models() =~= moved_heads(start, ws, 0, txb, catalog)) by {
            assert forall|b: Seq<char>| start.contains_key(b) implies #[trigger] start[b] == moved_heads(start, ws, 0, txb, catalog)[b] by {
                assert(moved_heads(start, ws, 0, txb, catalog)[b].head =~= start[b].head);
            }
        }
    }
    while i < tx.writes.len()
        invariant
            i <= tx.writes.len(),
            ws == tx@.writes,
            txb == tx@.branch,
            bm.wf(),
            bm.default_name() == old(bm).default_name(),
            forall|k: int| 0 <= k < ws.len() ==> start.contains_key(#[trigger] target_branch(ws[k], txb)),
            forall|k: int| 0 <= k < ws.len() ==> versions@.contains_key((#[trigger] ws[k]).table_name) && versions@[ws[k].table_name] == catalog.latest(ws[k].table_name),
            bm.models() == moved_heads(start, ws, i as int, txb, catalog),
        decreases tx.writes.len() - i,
    {
        let w = &tx.writes[i];
        proof {
            assert(ws[i as int] == w@);
        }
        let branch: &str = match &w.branch {
            Some(b) => b.as_str(),
            None => tx.branch.as_str(),
        };
        assert(branch@ == target_branch(ws[i as int], txb));
        let version = match versions.get(w.table_name.as_str()) {
            Some(v) => *v,
            None => w.new_version,
        };
        let ghost cur = bm.models();
        let _ = bm.update_head(branch, w.table_name.as_str(), version);
        proof {
            let want = moved_heads(start, ws, i + 1, txb, catalog);
            let b0 = branch@;
            let t0 = w.table_name@;
            assert forall|b: Seq<char>| bm.models().contains_key(b) == want.contains_key(b) by {}
            assert forall|b: Seq<char>| bm.models().contains_key(b) implies #[trigger] bm.models()[b] == want[b] by {
                assert forall|t: Seq<char>| targets_n(ws, i + 1, txb, b, t) <==> (targets_n(ws, i as int, txb, b, t) || (t == t0 && b == b0)) by {
                    lemma_targets_step(ws, i as int, txb, b, t);
                }
                assert(bm.models()[b].head =~= want[b].head);
            }
            assert(bm.models() =~= want);
        }
        i += 1;
    }
    proof {
        let fin = bm.models();
        assert(fin.dom() =~= start.dom());
        assert forall|b: Seq<char>| #[trigger] start.contains_key(b) implies fin[b] == (BranchModel {
            head: Map::new(
                |t: Seq<char>| start[b].head.contains_key(t) || targets(ws, txb, b, t),
                |t: Seq<char>|
                    if targets(ws, txb, b, t) {
                        catalog.latest(t) as u64
                    } else {
                        start[b].head[t]
                    },
            ),
            ..start[b]
        }) by {
            let h = Map::new(
                |t: Seq<char>| start[b].head.contains_key(t) || targets(ws, txb, b, t),
                |t: Seq<char>|
                    if targets(ws, txb, b, t) {
                        catalog.latest(t) as u64
                    } else {
                        start[b].head[t]
                    },
            );
            assert forall|t: Seq<char>| targets_n(ws, ws.len() as int, txb, b, t) <==> targets(ws, txb, b, t) by {
                if targets(ws, txb, b, t) {
                    let k = choose|k: int| 0 <= k < ws.len() && (#[trigger] ws[k]).table_name == t && target_branch(ws[k], txb) == b;
                    assert(0 <= k < ws.len() && k < ws.len() && ws[k].table_name == t);
                }
            }
            assert(fin[b].head =~= h);
        }
    }
}

/// `new` is `old` after the transaction `tx_id` was committed at `at`.
pub open spec fn commit_done(old: ManagerModel, new: ManagerModel, tx_id: u64, at: i64) -> bool {
    let tx = old.active[tx_id];
    let done = committed(tx, at);
    let logged = old.log.with_record(done);
    let meta = logged.slot(tx.epoch_id).meta->0;
    &&& new.active == old.active.remove(tx_id)
    &&& new.recent == remembered(old.recent, done, old.max_recent)
    &&& writes_applied(old.catalog, new.catalog, tx.writes)
    &&& (old.branches matches Some(bs) ==> new.branches is Some && heads_moved(bs, new.branches->0, tx.writes, tx.branch, new.catalog))
    &&& (old.branches is None ==> new.branches is None)
    &&& new.log == logged.with_meta(EpochModel { committed_count: counted_up(meta.committed_count), ..meta })
    &&& new.default_branch == old.default_branch
    &&& new.config == old.config
    &&& new.max_recent == old.max_recent
}

/// The views of a list of entries.
pub open spec fn entries_view(es: Seq<ChangelogEntry>) -> Seq<EntryModel> {
    Seq::new(es.len(), |i: int| es[i]@)
}

/// Where the reader of the changelog stands: the entries so far, the
/// version of each table after the transactions read, and whether the limit
/// was reached.
pub struct FeedState {
    pub entries: Seq<EntryModel>,
    pub previous: Map<Seq<char>, u64>,
    pub stopped: bool,
}

/// The versions after the writes `ws`, in order, on top of `previous`.
pub open spec fn versions_after(previous: Map<Seq<char>, u64>, ws: Seq<WriteModel>) -> Map<Seq<char>, u64>
    decreases ws.len(),
{
    if ws.len() == 0 {
        previous
    } else {
        versions_after(previous, ws.drop_last()).insert(ws.last().table_name, ws.last().new_version)
    }
}

/// The id, time or branch filter of `q` passes `tx` over.
pub open spec fn passed_over(q: QueryModel, tx: RecordModel) -> bool {
    ||| (q.since_tx_id is Some && tx.tx_id <= q.since_tx_id->0)
    ||| (q.since_timestamp is Some && tx.committed_at is Some && tx.committed_at->0 < q.since_timestamp->0)
    ||| (q.branch is Some && tx.branch != q.branch->0)
}

/// Some write of `tx` is to one of `tables`.
pub open spec fn writes_any(tables: Seq<Seq<char>>, tx: RecordModel) -> bool {
    exists|i: int| 0 <= i < tx.writes.len() && tables.contains((#[trigger] tx.writes[i]).table_name)
}

/// The table filter of `q` lets `tx` in.
pub open spec fn let_in(q: QueryModel, tx: RecordModel) -> bool {
    q.tables is Some ==> writes_any(q.tables->0, tx)
}

/// The reader after the transaction `tx`.
pub open spec fn feed_step(q: QueryModel, s: FeedState, tx: RecordModel) -> FeedState {
    if s.stopped {
        s
    } else if passed_over(q, tx) || !let_in(q, tx) {
        FeedState { previous: versions_after(s.previous, tx.writes), ..s }
    } else {
        let entries = s.entries.push(entry_of(tx, s.previous));
        if q.limit is Some && entries.len() >= q.limit->0 {
            FeedState { entries, stopped: true, ..s }
        } else {
            FeedState { entries, previous: versions_after(s.previous, tx.writes), ..s }
        }
    }
}

/// The reader after the transactions `txs`, in order.
pub open spec fn feed(q: QueryModel, txs: Seq<RecordModel>) -> FeedState
    decreases txs.len(),
{
    if txs.len() == 0 {
        FeedState { entries: Seq::empty(), previous: Map::empty(), stopped: false }
    } else {
        feed_step(q, feed(q, txs.drop_last()), txs.last())
    }
}

/// Takes the writes of `tx` into the versions.
fn track(previous: &mut StrMap<u64>, tx: &TransactionRecord)
    ensures
        final(previous)@ == versions_after(old(previous)@, tx@.writes),
{
    let ghost ws = tx@.writes;
    let ghost start = previous@;
    let mut i: usize = 0;
    assert(ws.subrange(0, 0) =~= Seq::<WriteModel>::empty());
    while i < tx.writes.len()
        invariant
            i <= tx.writes.len(),
            ws == tx@.writes,
            previous@ == versions_after(start, ws.subrange(0, i as int)),
        decreases tx.writes.len() - i,
    {
        let w = &tx.writes[i];
        proof {
            let next = ws.subrange(0, i + 1);
            assert(next.drop_last() =~= ws.subrange(0, i as int));
            assert(next.last() == w@);
        }
        previous.insert(w.table_name.clone(), w.new_version);
        i += 1;
    }
    assert(ws.subrange(0, ws.len() as int) =~= ws);
}

/// Whether some write of `tx` is to one of `tables`.
fn writes_one_of(tables: &Vec<String>, tx: &TransactionRecord) -> (r: bool)
    ensures
        r == writes_any(tables.deep_view(), tx@),
{
    let mut i: usize = 0;
    while i < tx.writes.len()
        invariant
            i <= tx.writes.len(),
            forall|j: int| 0 <= j < i ==> !tables.deep_view().contains((#[trigger] tx@.writes[j]).table_name),
        decreases tx.writes.len() - i,
    {
        assert(tx@.writes[i as int] == tx.writes[i as int]@);
        if list_contains(tables, tx.writes[i].table_name.as_str()) {
            return true;
        }
        i += 1;
    }
    false
}

/// The changelog entries of the committed transactions `committed` that
/// match `query`.
pub fn changelog_of(query: &ChangelogQuery, committed: &Vec<TransactionRecord>) -> (entries: Vec<ChangelogEntry>)
    ensures
        entries_view(entries@) == feed(query@, records_view(committed@)).entries,
{
    let ghost q = query@;
    let ghost txs = records_view(committed@);
    let mut entries: Vec<ChangelogEntry> = Vec::new();
    let mut previous: StrMap<u64> = StrMap::new();
    let mut stopped = false;
    let mut i: usize = 0;
    proof {
        assert(txs.subrange(0, 0) =~= Seq::<RecordModel>::empty());
        assert(entries_view(entries@) =~= Seq::<EntryModel>::empty());
    }
    while i < committed.len()
        invariant
            i <= committed.len(),
            q == query@,
            txs == records_view(committed@),
            feed(q, txs.subrange(0, i as int)) == (FeedState { entries: entries_view(entries@), previous: previous@, stopped }) || (stopped && feed(q, txs.subrange(0, i as int)).stopped && feed(q, txs.subrange(0, i as int)).entries == entries_view(entries@)),
        decreases committed.len() - i,
    {
        let tx = &committed[i];
        let ghost before = feed(q, txs.subrange(0, i as int));
        proof {
            let next = txs.subrange(0, i + 1);
            assert(next.drop_last() =~= txs.subrange(0, i as int));
            assert(next.last() == tx@);
        }
        if !stopped {
            let over_id = match query.since_tx_id {
                Some(since) => tx.tx_id <= since,
                None => false,
            };
            let over_time = match (query.since_timestamp, tx.committed_at) {
                (Some(ts), Some(c)) => c < ts,
                _ => false,
            };
            let over_branch = match &query.branch {
                Some(b) => !str_eq(tx.branch.as_str(), b.as_str()),
                None => false,
            };
            let keep = if over_id || over_time || over_branch {
                false
            } else {
                match &query.tables {
                    Some(tables) => writes_one_of(tables, tx),
                    None => true,
                }
            };
            if keep {
                let entry = ChangelogEntry::from_transaction(tx, &previous);
                let ghost e0 = entries_view(entries@);
                let ghost em = entry@;
                entries.push(entry);
                proof {
                    assert(entries_view(entries@) =~= e0.push(em));
                }
                let reached = match query.limit {
                    Some(limit) => entries.len() >= limit,
                    None => false,
                };
                if reached {
                    stopped = true;
                } else {
                    track(&mut previous, tx);
                }
            } else {
                track(&mut previous, tx);
            }
        }
        i += 1;
    }
    assert(txs.subrange(0, txs.len() as int) =~= txs);
    entries
}

/// Branch head resolvability. A commit keeps every branch head pointing at
/// a version that the catalog holds.
pub proof fn law_commit_keeps_heads_resolvable(old: ManagerModel, new: ManagerModel, tx_id: u64, at: i64)
    requires
        old.active.contains_key(tx_id),
        !catalog_full(old, old.active[tx_id]),
        commit_done(old, new, tx_id, at),
        old.heads_resolvable(),
    ensures
        new.heads_resolvable(),
{
    let tx = old.active[tx_id];
    if old.branches is Some {
        let bs = old.branches->0;
        let ns = new.branches->0;
        assert forall|b: Seq<char>, t: Seq<char>| ns.contains_key(b) && #[trigger] ns[b].head.contains_key(t) implies 1 <= ns[b].head[t] <= new.catalog.latest(t) by {
            assert(ns.dom().contains(b) == bs.dom().contains(b));
            assert(bs.contains_key(b));
            assert(new.catalog.latest(t) == old.catalog.latest(t) + count_writes(tx.writes, t));
            if targets(tx.writes, tx.branch, b, t) {
                let k = choose|k: int| 0 <= k < tx.writes.len() && (#[trigger] tx.writes[k]).table_name == t && target_branch(tx.writes[k], tx.branch) == b;
                lemma_written_counted(tx.writes, k);
                lemma_count_mono(tx.writes, 0, tx.writes.len() as int, t);
                assert(tx.writes.subrange(0, tx.writes.len() as int) =~= tx.writes);
                assert(old.catalog.latest(tx.writes[k].table_name) + tx.writes.len() <= u64::MAX);
            } else {
                assert(bs[b].head.contains_key(t));
            }
        }
    }
}

/// Snapshot validation detects a changed read. Take a transaction that
/// read a table at the version at which the table stood, and let another
/// transaction commit a write to that table on the same branch. Then the
/// first transaction, still active, cannot commit: its commit fails with a
/// write conflict or a snapshot conflict.
pub proof fn law_changed_read_fails_commit<D: ConflictDetector>(
    d: D,
    old: ManagerModel,
    new: ManagerModel,
    reader: u64,
    writer: u64,
    at: i64,
    table: Seq<char>,
)
    requires
        old.heads_resolvable(),
        commit_done(old, new, writer, at),
        reader != writer,
        old.active.contains_key(reader),
        old.active[reader].status is Active,
        old.branch_known(old.active[reader].branch),
        old.active[reader].read_snapshot.contains_key(table),
        Some(old.active[reader].read_snapshot[table]) == old.current_version(old.active[reader].branch, table),
        new.catalog.latest(table) <= u64::MAX,
        match old.branches {
            Some(_) => targets(old.active[writer].writes, old.active[writer].branch, old.active[reader].branch, table),
            None => count_writes(old.active[writer].writes, table) > 0,
        },
    ensures
        commit_bar(d, new, reader) is WriteConflict || commit_bar(d, new, reader) is SnapshotConflict,
{
    let tx = old.active[reader];
    let w = old.active[writer];
    assert(new.active.contains_key(reader) && new.active[reader] == tx);
    assert(new.catalog.latest(table) == old.catalog.latest(table) + count_writes(w.writes, table));
    if old.branches is Some {
        let bs = old.branches->0;
        let ns = new.branches->0;
        assert(ns.dom().contains(tx.branch) == bs.dom().contains(tx.branch));
        let k = choose|k: int| 0 <= k < w.writes.len() && (#[trigger] w.writes[k]).table_name == table && target_branch(w.writes[k], w.branch) == tx.branch;
        lemma_written_counted(w.writes, k);
        assert(bs[tx.branch].head.contains_key(table));
        assert(ns[tx.branch].head.contains_key(table));
        assert(ns[tx.branch].head[table] == new.catalog.latest(table) as u64);
    }
    assert(new.moved_on(tx, table));
}

/// The record `tx` with the status aborted for `reason`.
pub open spec fn aborted(tx: RecordModel, reason: Seq<char>) -> RecordModel {
    RecordModel { status: StatusModel::Aborted { reason }, ..tx }
}

} // verus!
