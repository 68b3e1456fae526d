//! Recovery after a crash or restart.
//!
//! Recovery scans every epoch and every record. A committed record is kept,
//! an aborted one is noted, and a record that was still active or preparing
//! is rolled back.

use vstd::prelude::*;
use crate::distributed::simulation::capped_sum;
use crate::text::{decimal, push_decimal};
use crate::transaction::epoch::EpochStatus;
use crate::transaction::error::{TransactionError, TxErrorModel};
use crate::transaction::log::{filed_in_place, lists_cover, LogModel, TransactionLog};
use crate::transaction::settling::law_recovery_settles;
use crate::transaction::types::{RecordModel, StatusModel, TransactionRecord, TransactionStatus};

verus! {

/// What a recovery report is, over plain values.
pub struct ReportModel {
    pub last_committed_epoch: Option<u64>,
    pub replayed: Seq<u64>,
    pub rolled_back: Seq<u64>,
    pub already_aborted: Seq<u64>,
    pub already_committed: Seq<u64>,
    pub warnings: Seq<Seq<char>>,
    pub errors: Seq<Seq<char>>,
    pub epochs_scanned: usize,
    pub transactions_scanned: usize,
}

/// What recovery found.
#[derive(Debug, Clone)]
pub struct RecoveryReport {
    /// The last epoch whose commit marker is set.
    pub last_committed_epoch: Option<u64>,
    /// Transactions that were replayed.
    pub replayed: Vec<u64>,
    /// Transactions that were pending and are rolled back.
    pub rolled_back: Vec<u64>,
    /// Transactions found aborted.
    pub already_aborted: Vec<u64>,
    /// Transactions found committed.
    pub already_committed: Vec<u64>,
    /// Anomalies that did not stop recovery.
    pub warnings: Vec<String>,
    /// Failures met during recovery.
    pub errors: Vec<String>,
    /// Number of epochs scanned.
    pub epochs_scanned: usize,
    /// Number of records scanned.
    pub transactions_scanned: usize,
}

impl View for RecoveryReport {
    type V = ReportModel;

    open spec fn view(&self) -> ReportModel {
        ReportModel {
            last_committed_epoch: self.last_committed_epoch,
            replayed: self.replayed@,
            rolled_back: self.rolled_back@,
            already_aborted: self.already_aborted@,
            already_committed: self.already_committed@,
            warnings: self.warnings.deep_view(),
            errors: self.errors.deep_view(),
            epochs_scanned: self.epochs_scanned,
            transactions_scanned: self.transactions_scanned,
        }
    }
}

/// The report of a recovery that found nothing.
pub open spec fn empty_report() -> ReportModel {
    ReportModel {
        last_committed_epoch: None,
        replayed: Seq::empty(),
        rolled_back: Seq::empty(),
        already_aborted: Seq::empty(),
        already_committed: Seq::empty(),
        warnings: Seq::empty(),
        errors: Seq::empty(),
        epochs_scanned: 0,
        transactions_scanned: 0,
    }
}

impl RecoveryReport {
    /// The report of a recovery that found nothing.
    pub fn new() -> (r: Self)
        ensures
            r@ == empty_report(),
    {
        let r = RecoveryReport {
            last_committed_epoch: None,
            replayed: Vec::new(),
            rolled_back: Vec::new(),
            already_aborted: Vec::new(),
            already_committed: Vec::new(),
            warnings: Vec::new(),
            errors: Vec::new(),
            epochs_scanned: 0,
            transactions_scanned: 0,
        };
        proof {
            assert(r@.warnings =~= Seq::empty());
            assert(r@.errors =~= Seq::empty());
        }
        r
    }

    /// Whether recovery met no failure.
    pub fn is_clean(&self) -> (r: bool)
        ensures
            r == (self@.errors.len() == 0),
    {
        self.errors.len() == 0
    }

    /// Whether recovery noted an anomaly.
    pub fn has_warnings(&self) -> (r: bool)
        ensures
            r == (self@.warnings.len() > 0),
    {
        self.warnings.len() > 0
    }

    /// The number of transactions replayed or rolled back.
    pub fn total_affected(&self) -> (n: usize)
        ensures
            n == capped_sum(self@.replayed.len() as usize, self@.rolled_back.len() as usize),
    {
        let a = self.replayed.len();
        let b = self.rolled_back.len();
        if a <= usize::MAX - b {
            a + b
        } else {
            usize::MAX
        }
    }

    /// Notes an anomaly.
    pub fn warn(&mut self, msg: &str)
        ensures
            final(self)@ == (ReportModel { warnings: old(self)@.warnings.push(msg@), ..old(self)@ }),
    {
        self.warnings.push(msg.to_owned());
        assert(self@.warnings =~= old(self)@.warnings.push(msg@));
    }

    /// Notes a failure.
    pub fn error(&mut self, msg: &str)
        ensures
            final(self)@ == (ReportModel { errors: old(self)@.errors.push(msg@), ..old(self)@ }),
    {
        self.errors.push(msg.to_owned());
        assert(self@.errors =~= old(self)@.errors.push(msg@));
    }
}

impl Default for RecoveryReport {
    fn default() -> (r: Self)
        ensures
            r@ == empty_report(),
    {
        RecoveryReport::new()
    }
}

/// What recovery does with a transaction.
#[derive(Debug, Clone, Copy, PartialEq, Eq, Structural)]
pub enum RecoveryDecision {
    /// The transaction committed and is kept.
    Keep,
    /// The transaction was pending and is rolled back.
    Rollback,
    /// The transaction was aborted before.
    AlreadyAborted,
    /// The transaction committed, but its effects have to be applied again.
    Replay,
}

/// The decision for a transaction in the given status.
pub open spec fn decision_for(status: StatusModel) -> RecoveryDecision {
    match status {
        StatusModel::Committed => RecoveryDecision::Keep,
        StatusModel::Aborted { .. } => RecoveryDecision::AlreadyAborted,
        StatusModel::Active => RecoveryDecision::Rollback,
        StatusModel::Preparing => RecoveryDecision::Rollback,
    }
}

/// The warning for a pending transaction in an epoch marked committed.
pub open spec fn uncommitted_text(tx_id: u64, epoch_id: u64) -> Seq<char> {
    "Transaction "@ + decimal(tx_id as nat) + " in committed epoch "@ + decimal(epoch_id as nat)
        + " is not committed"@
}

/// The report after one record was scanned.
pub open spec fn scan_record(r: ReportModel, tx: RecordModel, tx_id: u64, epoch_id: u64, epoch_committed: bool) -> ReportModel {
    let counted = ReportModel { transactions_scanned: capped_sum(r.transactions_scanned, 1), ..r };
    match decision_for(tx.status) {
        RecoveryDecision::Keep => ReportModel {
            already_committed: counted.already_committed.push(tx_id),
            ..counted
        },
        RecoveryDecision::AlreadyAborted => ReportModel {
            already_aborted: counted.already_aborted.push(tx_id),
            ..counted
        },
        RecoveryDecision::Rollback => ReportModel {
            rolled_back: counted.rolled_back.push(tx_id),
            warnings: if epoch_committed {
                counted.warnings.push(uncommitted_text(tx_id, epoch_id))
            } else {
                counted.warnings
            },
            ..counted
        },
        RecoveryDecision::Replay => ReportModel { replayed: counted.replayed.push(tx_id), ..counted },
    }
}

/// The report after the records `tx_ids` of the epoch `epoch_id` were
/// scanned, in order.
pub open spec fn scan_records(r: ReportModel, log: LogModel, epoch_id: u64, tx_ids: Seq<u64>, epoch_committed: bool) -> ReportModel
    decreases tx_ids.len(),
{
    if tx_ids.len() == 0 {
        r
    } else {
        scan_record(
            scan_records(r, log, epoch_id, tx_ids.drop_last(), epoch_committed),
            log.epochs[epoch_id].transactions[tx_ids.last()],
            tx_ids.last(),
            epoch_id,
            epoch_committed,
        )
    }
}

/// The report after the epochs `epoch_ids` were scanned, in order. `ids_of`
/// gives the record ids of each epoch, in order.
pub open spec fn scan_epochs(r: ReportModel, log: LogModel, epoch_ids: Seq<u64>, ids_of: spec_fn(u64) -> Seq<u64>) -> ReportModel
    decreases epoch_ids.len(),
{
    if epoch_ids.len() == 0 {
        r
    } else {
        let before = scan_epochs(r, log, epoch_ids.drop_last(), ids_of);
        let e = epoch_ids.last();
        let committed = log.slot(e).committed;
        let marked = if committed {
            ReportModel { last_committed_epoch: Some(e), ..before }
        } else {
            before
        };
        scan_records(marked, log, e, ids_of(e), committed)
    }
}

/// The reason recorded for a transaction that recovery rolls back.
pub open spec fn rollback_reason() -> Seq<char> {
    "Recovery: pending transaction rolled back"@
}

/// The message for a rolled-back transaction whose record cannot be read.
pub open spec fn unreadable_text(tx_id: u64) -> Seq<char> {
    "Failed to read tx "@ + decimal(tx_id as nat) + " for rollback: Transaction not found: "@
        + decimal(tx_id as nat)
}

/// The log and the errors after the transactions `tx_ids` were rolled back,
/// in order: a record found by its id and still pending is written back
/// aborted; an id without a record adds an error.
pub open spec fn roll_back(log: LogModel, errors: Seq<Seq<char>>, tx_ids: Seq<u64>) -> (LogModel, Seq<Seq<char>>)
    decreases tx_ids.len(),
{
    if tx_ids.len() == 0 {
        (log, errors)
    } else {
        let before = roll_back(log, errors, tx_ids.drop_last());
        let id = tx_ids.last();
        match before.0.lookup(id) {
            Some(tx) => if tx.status is Active || tx.status is Preparing {
                (
                    before.0.with_record(
                        RecordModel { status: StatusModel::Aborted { reason: rollback_reason() }, ..tx },
                    ),
                    before.1,
                )
            } else {
                before
            },
            None => (before.0, before.1.push(unreadable_text(id))),
        }
    }
}

/// Recovery over a transaction log.
pub struct RecoveryManager<'a> {
    log: &'a TransactionLog,
}

impl<'a> RecoveryManager<'a> {
    /// The log that recovery reads.
    pub closed spec fn log(&self) -> TransactionLog {
        *self.log
    }

    /// Recovery over `log`.
    pub fn new(log: &'a TransactionLog) -> (r: Self)
        ensures
            r.log() == *log,
    {
        RecoveryManager { log }
    }

    /// Scans the log and reports what it holds. Nothing is changed.
    pub fn recover(&self) -> (r: Result<RecoveryReport, TransactionError>)
        ensures
            r is Ok,
            r->Ok_0@ == scanned(&self.log()),
            filed_in_place(self.log()@),
            lists_cover(self.log()@, self.log().epoch_ids(), |e: u64| self.log().tx_ids(e)),
    {
        scan_log(self.log)
    }

    /// What recovery does with `tx`.
    pub fn decide(&self, tx: &TransactionRecord) -> (d: RecoveryDecision)
        ensures
            d == decision_for(tx@.status),
    {
        decide_status(&tx.status)
    }

    /// Scans `log` and marks every pending transaction aborted. The report
    /// is that of the scan, with an error added for every transaction whose
    /// record could not be read back. The log is left settled: run again,
    /// recovery changes nothing more.
    pub fn recover_and_apply(log: &mut TransactionLog) -> (r: Result<RecoveryReport, TransactionError>)
        ensures
            r is Ok,
            r->Ok_0@ == (ReportModel {
                errors: roll_back(old(log)@, scanned(old(log)).errors, scanned(old(log)).rolled_back).1,
                ..scanned(old(log))
            }),
            final(log)@ == roll_back(old(log)@, scanned(old(log)).errors, scanned(old(log)).rolled_back).0,
            settled(final(log)@),
            filed_in_place(old(log)@),
            lists_cover(old(log)@, old(log).epoch_ids(), |e: u64| old(log).tx_ids(e)),
    {
        let mut report = match scan_log(log) {
            Ok(r) => r,
            Err(e) => {
                return Err(e);
            },
        };
        let ghost ids = report@.rolled_back;
        let ghost start = log@;
        let ghost errs = report@.errors;
        let ghost scan = report@;
        let n = report.rolled_back.len();
        let mut i: usize = 0;
        assert(ids.subrange(0, 0) =~= Seq::<u64>::empty());
        while i < n
            invariant
                i <= n,
                n == ids.len(),
                report@ == (ReportModel { errors: report@.errors, ..scan }),
                scan.rolled_back == ids,
                (log@, report@.errors) == roll_back(start, errs, ids.subrange(0, i as int)),
            decreases n - i,
        {
            let tx_id = report.rolled_back[i];
            proof {
                let next = ids.subrange(0, i + 1);
                assert(next.drop_last() =~= ids.subrange(0, i as int));
                assert(next.last() == tx_id);
            }
            match log.read_transaction(tx_id) {
                Ok(tx) => {
                    let mut tx = tx;
                    if tx.is_active() || tx.is_preparing() {
                        tx.mark_aborted("Recovery: pending transaction rolled back");
                        let _ = log.write_transaction(&tx);
                    }
                },
                Err(_) => {
                    let mut msg = "Failed to read tx ".to_owned();
                    push_decimal(&mut msg, tx_id);
                    msg.append(" for rollback: Transaction not found: ");
                    push_decimal(&mut msg, tx_id);
                    report.error(msg.as_str());
                },
            }
            i += 1;
        }
        assert(ids.subrange(0, ids.len() as int) =~= ids);
        proof {
            let first = ReportModel { epochs_scanned: old(log).epoch_ids().len() as usize, ..empty_report() };
            assert forall|errors: Seq<Seq<char>>, later: Seq<u64>| (#[trigger] roll_back(log@, errors, later)).0 == log@ by {
                law_recovery_settles(start, first, old(log).epoch_ids(), |e: u64| old(log).tx_ids(e), errors, later);
            }
        }
        Ok(report)
    }
}

/// Nothing is left to roll back: whatever ids a rollback is given, it
/// leaves the log as it is.
pub open spec fn settled(log: LogModel) -> bool {
    forall|errors: Seq<Seq<char>>, ids: Seq<u64>| (#[trigger] roll_back(log, errors, ids)).0 == log
}

/// The report of a scan of `log`.
pub open spec fn scanned(log: &TransactionLog) -> ReportModel {
    scan_epochs(
        ReportModel { epochs_scanned: log.epoch_ids().len() as usize, ..empty_report() },
        log@,
        log.epoch_ids(),
        |e: u64| log.tx_ids(e),
    )
}

/// What recovery does with a transaction in the given status.
fn decide_status(status: &TransactionStatus) -> (d: RecoveryDecision)
    ensures
        d == decision_for(status@),
{
    match status {
        TransactionStatus::Committed => RecoveryDecision::Keep,
        TransactionStatus::Aborted { .. } => RecoveryDecision::AlreadyAborted,
        TransactionStatus::Active | TransactionStatus::Preparing => RecoveryDecision::Rollback,
    }
}

/// Scans the records of one epoch.
fn scan_epoch(log: &TransactionLog, epoch_id: u64, epoch_committed: bool, report: &mut RecoveryReport)
    requires
        log@.epochs.contains_key(epoch_id),
    ensures
        final(report)@ == scan_records(old(report)@, log@, epoch_id, log.tx_ids(epoch_id), epoch_committed),
{
    let tx_ids = match log.list_transactions_in_epoch(epoch_id) {
        Ok(ids) => ids,
        Err(_) => {
            return;
        },
    };
    let ghost ids = log.tx_ids(epoch_id);
    let ghost start = report@;
    let mut i: usize = 0;
    assert(ids.subrange(0, 0) =~= Seq::<u64>::empty());
    while i < tx_ids.len()
        invariant
            i <= tx_ids.len(),
            tx_ids@ == ids,
            ids == log.tx_ids(epoch_id),
            forall|t: u64| ids.contains(t) <==> log@.has_record(epoch_id, t),
            report@ == scan_records(start, log@, epoch_id, ids.subrange(0, i as int), epoch_committed),
        decreases tx_ids.len() - i,
    {
        let tx_id = tx_ids[i];
        proof {
            let next = ids.subrange(0, i + 1);
            assert(next.drop_last() =~= ids.subrange(0, i as int));
            assert(next.last() == tx_id);
            assert(ids.contains(tx_id));
        }
        report.transactions_scanned = if report.transactions_scanned < usize::MAX {
            report.transactions_scanned + 1
        } else {
            usize::MAX
        };
        match log.read_transaction_from_epoch(tx_id, epoch_id) {
            Err(_) => {},
            Ok(tx) => {
                match decide_status(&tx.status) {
                    RecoveryDecision::Keep => {
                        report.already_committed.push(tx_id);
                    },
                    RecoveryDecision::AlreadyAborted => {
                        report.already_aborted.push(tx_id);
                    },
                    RecoveryDecision::Rollback => {
                        if epoch_committed {
                            let mut msg = "Transaction ".to_owned();
                            push_decimal(&mut msg, tx_id);
                            msg.append(" in committed epoch ");
                            push_decimal(&mut msg, epoch_id);
                            msg.append(" is not committed");
                            report.warn(msg.as_str());
                        }
                        report.rolled_back.push(tx_id);
                    },
                    RecoveryDecision::Replay => {
                        report.replayed.push(tx_id);
                    },
                }
            },
        }
        i += 1;
    }
    assert(ids.subrange(0, ids.len() as int) =~= ids);
}

/// Scans all epochs of `log`, oldest first.
fn scan_log(log: &TransactionLog) -> (r: Result<RecoveryReport, TransactionError>)
    ensures
        r is Ok,
        r->Ok_0@ == scanned(log),
        filed_in_place(log@),
        lists_cover(log@, log.epoch_ids(), |e: u64| log.tx_ids(e)),
{
    let mut report = RecoveryReport::new();
    let epochs = match log.list_epochs() {
        Ok(e) => e,
        Err(e) => {
            return Err(e);
        },
    };
    report.epochs_scanned = epochs.len();
    let ghost eids = log.epoch_ids();
    let ghost start = report@;
    let ghost ids_of = |e: u64| log.tx_ids(e);
    let mut i: usize = 0;
    assert(eids.subrange(0, 0) =~= Seq::<u64>::empty());
    while i < epochs.len()
        invariant
            i <= epochs.len(),
            epochs@ == eids,
            eids == log.epoch_ids(),
            ids_of == (|e: u64| log.tx_ids(e)),
            forall|e: u64| eids.contains(e) <==> log@.epochs.contains_key(e),
            report@ == scan_epochs(start, log@, eids.subrange(0, i as int), ids_of),
        decreases epochs.len() - i,
    {
        let epoch_id = epochs[i];
        proof {
            let next = eids.subrange(0, i + 1);
            assert(next.drop_last() =~= eids.subrange(0, i as int));
            assert(next.last() == epoch_id);
            assert(eids.contains(epoch_id));
        }
        let is_committed = match log.is_epoch_committed(epoch_id) {
            Ok(c) => c,
            Err(_) => false,
        };
        if is_committed {
            report.last_committed_epoch = Some(epoch_id);
        }
        scan_epoch(log, epoch_id, is_committed, &mut report);
        i += 1;
    }
    assert(eids.subrange(0, eids.len() as int) =~= eids);
    Ok(report)
}

/// Recovery is a function of the log. Where a scan finds nothing to roll
/// back, recovery with rollback changes nothing and reports what the scan
/// reports.
pub proof fn law_recovery_without_pending(log: LogModel, report: ReportModel)
    requires
        report.rolled_back.len() == 0,
    ensures
        roll_back(log, report.errors, report.rolled_back) == (log, report.errors),
{
}

/// The count mismatch that a consistency check reports for an epoch.
pub open spec fn count_mismatch_text(epoch_id: u64, files: nat, listed: nat) -> Seq<char> {
    "Epoch "@ + decimal(epoch_id as nat) + ": transaction count mismatch (files: "@ + decimal(files)
        + ", metadata: "@ + decimal(listed) + ")"@
}

/// The first index from `from` on at which the two lists, of one length,
/// differ; their length if they agree from there on.
pub open spec fn first_difference(a: Seq<u64>, b: Seq<u64>, from: int) -> int
    decreases a.len() - from,
{
    if from < 0 || from >= a.len() {
        a.len() as int
    } else if a[from] != b[from] {
        from
    } else {
        first_difference(a, b, from + 1)
    }
}

/// The list mismatch that a consistency check reports for an epoch whose
/// records and metadata list as many transactions, but not the same: it
/// names the first position at which they differ and the two ids there.
pub open spec fn list_mismatch_text(epoch_id: u64, position: nat, file: u64, listed: u64) -> Seq<char> {
    "Epoch "@ + decimal(epoch_id as nat) + ": transaction list mismatch at position "@ + decimal(position)
        + " (files: "@ + decimal(file as nat) + ", metadata: "@ + decimal(listed as nat) + ")"@
}

/// What a consistency check reports of the transaction list of an epoch:
/// nothing where the ids of the records, in increasing order, are the list
/// of the metadata; a count mismatch where the two differ in length; a list
/// mismatch where they differ otherwise.
pub open spec fn listing_issues(epoch_id: u64, files: Seq<u64>, listed: Seq<u64>) -> Seq<Seq<char>> {
    if files.len() != listed.len() {
        seq![count_mismatch_text(epoch_id, files.len(), listed.len())]
    } else if files != listed {
        let p = first_difference(files, listed, 0);
        seq![list_mismatch_text(epoch_id, p as nat, files[p], listed[p])]
    } else {
        Seq::empty()
    }
}

/// The first index at which the two lists, of one length, differ.
fn find_first_difference(a: &Vec<u64>, b: &Vec<u64>) -> (p: usize)
    requires
        a.len() == b.len(),
    ensures
        p == first_difference(a@, b@, 0),
        p <= a.len(),
        p == a.len() <==> a@ == b@,
        p < a.len() ==> a@[p as int] != b@[p as int],
{
    let mut i: usize = 0;
    while i < a.len()
        invariant
            i <= a.len(),
            a.len() == b.len(),
            first_difference(a@, b@, 0) == first_difference(a@, b@, i as int),
            forall|k: int| 0 <= k < i ==> a@[k] == b@[k],
        decreases a.len() - i,
    {
        if a[i] != b[i] {
            return i;
        }
        i += 1;
    }
    assert(a@ =~= b@);
    i
}

/// The report for a record that names another epoch than the one it is in.
pub open spec fn wrong_epoch_text(tx_id: u64, claimed: u64, found: u64) -> Seq<char> {
    "Transaction "@ + decimal(tx_id as nat) + " claims epoch "@ + decimal(claimed as nat)
        + " but found in epoch "@ + decimal(found as nat)
}

/// The report for an epoch without readable metadata.
pub open spec fn no_metadata_text(epoch_id: u64) -> Seq<char> {
    "Cannot read epoch "@ + decimal(epoch_id as nat) + " metadata: Epoch "@ + decimal(epoch_id as nat)
        + " not found"@
}

/// `true` or `false`, in words.
pub open spec fn bool_text(b: bool) -> Seq<char> {
    if b {
        "true"@
    } else {
        "false"@
    }
}

/// The report for a commit marker that disagrees with the metadata.
pub open spec fn marker_mismatch_text(epoch_id: u64, marker: bool, meta: bool) -> Seq<char> {
    "Epoch "@ + decimal(epoch_id as nat) + ": commit marker ("@ + bool_text(marker)
        + ") doesn't match metadata ("@ + bool_text(meta) + ")"@
}

/// The issues of the records `tx_ids` of the epoch `epoch_id`, in order.
pub open spec fn record_issues(log: LogModel, epoch_id: u64, tx_ids: Seq<u64>) -> Seq<Seq<char>>
    decreases tx_ids.len(),
{
    if tx_ids.len() == 0 {
        Seq::empty()
    } else {
        let rest = record_issues(log, epoch_id, tx_ids.drop_last());
        let tx = log.epochs[epoch_id].transactions[tx_ids.last()];
        if tx.epoch_id != epoch_id {
            rest.push(wrong_epoch_text(tx_ids.last(), tx.epoch_id, epoch_id))
        } else {
            rest
        }
    }
}

/// The issues of one epoch: missing metadata; or a list of records that
/// differs from the list of the metadata, records that name another epoch,
/// and a marker that disagrees with the metadata.
pub open spec fn epoch_issues(log: LogModel, epoch_id: u64, tx_ids: Seq<u64>) -> Seq<Seq<char>> {
    match log.slot(epoch_id).meta {
        None => seq![no_metadata_text(epoch_id)],
        Some(meta) => {
            let counts = listing_issues(epoch_id, tx_ids, meta.transactions);
            let marker = log.slot(epoch_id).committed;
            let meta_committed = meta.status == EpochStatus::Committed;
            let markers: Seq<Seq<char>> = if marker != meta_committed {
                seq![marker_mismatch_text(epoch_id, marker, meta_committed)]
            } else {
                Seq::empty()
            };
            counts + record_issues(log, epoch_id, tx_ids) + markers
        },
    }
}

/// The issues of the epochs `epoch_ids`, in order.
pub open spec fn all_issues(log: LogModel, epoch_ids: Seq<u64>, ids_of: spec_fn(u64) -> Seq<u64>) -> Seq<Seq<char>>
    decreases epoch_ids.len(),
{
    if epoch_ids.len() == 0 {
        Seq::empty()
    } else {
        all_issues(log, epoch_ids.drop_last(), ids_of) + epoch_issues(log, epoch_ids.last(), ids_of(epoch_ids.last()))
    }
}

/// Appends `true` or `false` to `s`.
fn push_bool(s: &mut String, b: bool)
    ensures
        final(s)@ == old(s)@ + bool_text(b),
{
    if b {
        s.append("true");
    } else {
        s.append("false");
    }
}

/// Checks the log against itself and lists what disagrees, epoch by epoch.
pub fn verify_consistency(log: &TransactionLog) -> (r: Result<Vec<String>, TransactionError>)
    ensures
        r is Ok,
        r->Ok_0.deep_view() == all_issues(log@, log.epoch_ids(), |e: u64| log.tx_ids(e)),
        filed_in_place(log@),
        lists_cover(log@, log.epoch_ids(), |e: u64| log.tx_ids(e)),
{
    let mut issues: Vec<String> = Vec::new();
    let epochs = match log.list_epochs() {
        Ok(e) => e,
        Err(e) => {
            return Err(e);
        },
    };
    let ghost eids = log.epoch_ids();
    let ghost ids_of = |e: u64| log.tx_ids(e);
    let mut i: usize = 0;
    assert(eids.subrange(0, 0) =~= Seq::<u64>::empty());
    assert(issues.deep_view() =~= Seq::<Seq<char>>::empty());
    while i < epochs.len()
        invariant
            i <= epochs.len(),
            epochs@ == eids,
            eids == log.epoch_ids(),
            ids_of == (|e: u64| log.tx_ids(e)),
            forall|e: u64| eids.contains(e) <==> log@.epochs.contains_key(e),
            issues.deep_view() == all_issues(log@, eids.subrange(0, i as int), ids_of),
        decreases epochs.len() - i,
    {
        let epoch_id = epochs[i];
        let ghost done = issues.deep_view();
        proof {
            let next = eids.subrange(0, i + 1);
            assert(next.drop_last() =~= eids.subrange(0, i as int));
            assert(next.last() == epoch_id);
            assert(eids.contains(epoch_id));
        }
        match log.get_epoch(epoch_id) {
            Err(_) => {
                let mut msg = "Cannot read epoch ".to_owned();
                push_decimal(&mut msg, epoch_id);
                msg.append(" metadata: Epoch ");
                push_decimal(&mut msg, epoch_id);
                msg.append(" not found");
                let ghost m = msg@;
                issues.push(msg);
                proof {
                    assert(issues.deep_view() =~= done + seq![m]);
                }
            },
            Ok(meta) => {
                let tx_ids = match log.list_transactions_in_epoch(epoch_id) {
                    Ok(ids) => ids,
                    Err(e) => {
                        return Err(e);
                    },
                };
                let ghost tids = log.tx_ids(epoch_id);
                let ghost counts = listing_issues(epoch_id, tids, meta@.transactions);
                if tx_ids.len() != meta.transactions.len() {
                    let mut msg = "Epoch ".to_owned();
                    push_decimal(&mut msg, epoch_id);
                    msg.append(": transaction count mismatch (files: ");
                    push_decimal(&mut msg, tx_ids.len() as u64);
                    msg.append(", metadata: ");
                    push_decimal(&mut msg, meta.transactions.len() as u64);
                    msg.append(")");
                    issues.push(msg);
                } else {
                    let p = find_first_difference(&tx_ids, &meta.transactions);
                    if p < tx_ids.len() {
                        let mut msg = "Epoch ".to_owned();
                        push_decimal(&mut msg, epoch_id);
                        msg.append(": transaction list mismatch at position ");
                        push_decimal(&mut msg, p as u64);
                        msg.append(" (files: ");
                        push_decimal(&mut msg, tx_ids[p]);
                        msg.append(", metadata: ");
                        push_decimal(&mut msg, meta.transactions[p]);
                        msg.append(")");
                        issues.push(msg);
                    }
                }
                proof {
                    assert(issues.deep_view() =~= done + counts);
                    assert(tids.subrange(0, 0) =~= Seq::<u64>::empty());
                    assert(done + counts + record_issues(log@, epoch_id, tids.subrange(0, 0)) =~= done + counts);
                }
                let mut j: usize = 0;
                while j < tx_ids.len()
                    invariant
                        j <= tx_ids.len(),
                        tx_ids@ == tids,
                        tids == log.tx_ids(epoch_id),
                        forall|t: u64| tids.contains(t) <==> log@.has_record(epoch_id, t),
                        issues.deep_view() == done + counts + record_issues(log@, epoch_id, tids.subrange(0, j as int)),
                    decreases tx_ids.len() - j,
                {
                    let tx_id = tx_ids[j];
                    let ghost so_far = issues.deep_view();
                    proof {
                        let next = tids.subrange(0, j + 1);
                        assert(next.drop_last() =~= tids.subrange(0, j as int));
                        assert(next.last() == tx_id);
                        assert(tids.contains(tx_id));
                    }
                    match log.read_transaction_from_epoch(tx_id, epoch_id) {
                        Ok(tx) => {
                            if tx.epoch_id != epoch_id {
                                let mut msg = "Transaction ".to_owned();
                                push_decimal(&mut msg, tx_id);
                                msg.append(" claims epoch ");
                                push_decimal(&mut msg, tx.epoch_id);
                                msg.append(" but found in epoch ");
                                push_decimal(&mut msg, epoch_id);
                                let ghost m = msg@;
                                issues.push(msg);
                                proof {
                                    assert(issues.deep_view() =~= so_far.push(m));
                                    assert(so_far.push(m) =~= done + counts + record_issues(log@, epoch_id, tids.subrange(0, j + 1)));
                                }
                            }
                        },
                        Err(_) => {},
                    }
                    j += 1;
                }
                assert(tids.subrange(0, tids.len() as int) =~= tids);
                let marker = match log.is_epoch_committed(epoch_id) {
                    Ok(c) => c,
                    Err(_) => false,
                };
                let meta_committed = meta.is_committed();
                let ghost so_far = issues.deep_view();
                if marker != meta_committed {
                    let mut msg = "Epoch ".to_owned();
                    push_decimal(&mut msg, epoch_id);
                    msg.append(": commit marker (");
                    push_bool(&mut msg, marker);
                    msg.append(") doesn't match metadata (");
                    push_bool(&mut msg, meta_committed);
                    msg.append(")");
                    let ghost m = msg@;
                    issues.push(msg);
                    proof {
                        assert(issues.deep_view() =~= so_far.push(m));
                    }
                }
                proof {
                    assert(issues.deep_view() =~= done + epoch_issues(log@, epoch_id, tids));
                }
            },
        }
        i += 1;
    }
    assert(eids.subrange(0, eids.len() as int) =~= eids);
    Ok(issues)
}

} // verus!
