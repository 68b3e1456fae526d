//! Recovery settles a log: after one recovery with rollback no record that
//! a lookup finds is pending, so a second recovery changes nothing.

use vstd::prelude::*;
use crate::transaction::log::{filed_in_place, is_pending, lists_cover, LogModel};
use crate::transaction::recovery::{decision_for, roll_back, rollback_reason, scan_epochs, scan_record, scan_records, RecoveryDecision, ReportModel};
use crate::transaction::types::{RecordModel, StatusModel};

verus! {

/// `b` is `a` with some pending records aborted in their places, and
/// nothing else changed.
#[verifier::opaque]
pub open spec fn settled_from(a: LogModel, b: LogModel) -> bool {
    &&& b.base_path == a.base_path
    &&& b.config == a.config
    &&& b.sequence == a.sequence
    &&& b.epoch_sequence == a.epoch_sequence
    &&& b.latest_committed == a.latest_committed
    &&& b.committed_index == a.committed_index
    &&& forall|e: u64| #[trigger] b.epochs.contains_key(e) <==> a.epochs.contains_key(e)
    &&& forall|e: u64| #[trigger]
        a.epochs.contains_key(e) ==> b.epochs[e].meta == a.epochs[e].meta && b.epochs[e].committed == a.epochs[e].committed
    &&& forall|e: u64, t: u64| #[trigger] b.has_record(e, t) <==> a.has_record(e, t)
    &&& forall|e: u64, t: u64| #[trigger]
        a.has_record(e, t) ==> b.epochs[e].transactions[t] == a.epochs[e].transactions[t] || (is_pending(
            a.epochs[e].transactions[t],
        ) && !is_pending(b.epochs[e].transactions[t]))
}

/// `e` is the latest epoch that holds a record of `t`.
pub open spec fn is_latest_with(log: LogModel, t: u64, e: u64) -> bool {
    log.has_record(e, t) && forall|e2: u64| e2 > e ==> !#[trigger] log.has_record(e2, t)
}

/// Among the listed epochs that hold a record of `t` there is a latest one.
proof fn lemma_latest_in_list(log: LogModel, t: u64, list: Seq<u64>) -> (m: int)
    requires
        exists|i: int| 0 <= i < list.len() && log.has_record(#[trigger] list[i], t),
    ensures
        0 <= m < list.len(),
        log.has_record(list[m], t),
        forall|j: int| 0 <= j < list.len() && log.has_record(#[trigger] list[j], t) ==> list[j] <= list[m],
    decreases list.len(),
{
    let shorter = list.drop_last();
    let top = list.len() - 1;
    if exists|i: int| 0 <= i < shorter.len() && log.has_record(#[trigger] shorter[i], t) {
        let m = lemma_latest_in_list(log, t, shorter);
        assert(shorter[m] == list[m]);
        if log.has_record(list[top], t) && list[top] > list[m] {
            assert forall|j: int| 0 <= j < list.len() && log.has_record(#[trigger] list[j], t) implies list[j] <= list[top] by {
                if j < top {
                    assert(shorter[j] == list[j]);
                }
            }
            top
        } else {
            assert forall|j: int| 0 <= j < list.len() && log.has_record(#[trigger] list[j], t) implies list[j] <= list[m] by {
                if j < top {
                    assert(shorter[j] == list[j]);
                }
            }
            m
        }
    } else {
        let i = choose|i: int| 0 <= i < list.len() && log.has_record(#[trigger] list[i], t);
        if i < top {
            assert(shorter[i] == list[i]);
        }
        assert forall|j: int| 0 <= j < list.len() && log.has_record(#[trigger] list[j], t) implies list[j] <= list[top] by {
            if j < top {
                assert(shorter[j] == list[j]);
            }
        }
        top
    }
}

/// Where some listed epoch holds a record of `t`, some epoch is the latest
/// that holds one.
proof fn lemma_latest_exists(log: LogModel, epoch_ids: Seq<u64>, t: u64) -> (top: u64)
    requires
        forall|e: u64| epoch_ids.contains(e) <==> #[trigger] log.epochs.contains_key(e),
        exists|e: u64| log.has_record(e, t),
    ensures
        is_latest_with(log, t, top),
{
    let e0 = choose|e: u64| log.has_record(e, t);
    assert(log.epochs.contains_key(e0));
    assert(epoch_ids.contains(e0));
    let i0 = epoch_ids.index_of(e0);
    assert(log.has_record(epoch_ids[i0], t));
    let m = lemma_latest_in_list(log, t, epoch_ids);
    let top = epoch_ids[m];
    assert forall|e2: u64| e2 > top implies !#[trigger] log.has_record(e2, t) by {
        if log.has_record(e2, t) {
            assert(log.epochs.contains_key(e2));
            assert(epoch_ids.contains(e2));
            let j = epoch_ids.index_of(e2);
            assert(log.has_record(epoch_ids[j], t));
        }
    }
    top
}

/// In a log whose epochs can be listed, the epoch from which a record of
/// `t` is read is the one that the index names or, where it names none,
/// the latest epoch that holds a record of `t`.
proof fn lemma_home(log: LogModel, epoch_ids: Seq<u64>, t: u64)
    requires
        forall|e: u64| epoch_ids.contains(e) <==> #[trigger] log.epochs.contains_key(e),
        log.indexed_epoch(t) is None,
        exists|e: u64| log.has_record(e, t),
    ensures
        log.home_epoch(t) is Some,
        is_latest_with(log, t, log.home_epoch(t)->0),
{
    let top = lemma_latest_exists(log, epoch_ids, t);
    assert(log.has_record(top, t) && forall|e2: u64| e2 > top ==> !#[trigger] log.has_record(e2, t));
}

/// Aborting pending records in their places does not move the epoch from
/// which a record is read.
proof fn lemma_same_home(a: LogModel, b: LogModel, epoch_ids: Seq<u64>, t: u64)
    requires
        settled_from(a, b),
        forall|e: u64| epoch_ids.contains(e) <==> #[trigger] a.epochs.contains_key(e),
    ensures
        b.home_epoch(t) == a.home_epoch(t),
{
    reveal(settled_from);
    assert(b.indexed_epoch(t) == a.indexed_epoch(t));
    if a.indexed_epoch(t) is None {
        if exists|e: u64| a.has_record(e, t) {
            let e0 = choose|e: u64| a.has_record(e, t);
            assert(b.has_record(e0, t));
            lemma_home(a, epoch_ids, t);
            assert forall|e: u64| epoch_ids.contains(e) <==> #[trigger] b.epochs.contains_key(e) by {}
            lemma_home(b, epoch_ids, t);
            let ea = a.home_epoch(t)->0;
            let eb = b.home_epoch(t)->0;
            assert(a.has_record(eb, t));
            assert(b.has_record(ea, t));
            assert(ea == eb);
        } else {
            assert forall|e: u64| !b.has_record(e, t) by {
                assert(b.has_record(e, t) == a.has_record(e, t));
            }
        }
    }
}

/// One pending record aborted in its place: the log is settled from the
/// one before, stays filed in place, and holds the aborted record where the
/// pending one stood.
proof fn lemma_abort_in_place(mid: LogModel, home: u64, id: u64)
    requires
        filed_in_place(mid),
        mid.has_record(home, id),
        is_pending(mid.epochs[home].transactions[id]),
    ensures
        ({
            let tx = mid.epochs[home].transactions[id];
            let after = mid.with_record(RecordModel { status: StatusModel::Aborted { reason: rollback_reason() }, ..tx });
            &&& settled_from(mid, after)
            &&& filed_in_place(after)
            &&& after.has_record(home, id)
            &&& !is_pending(after.epochs[home].transactions[id])
        }),
{
    reveal(settled_from);
    reveal(filed_in_place);
    let tx = mid.epochs[home].transactions[id];
    let aborted = RecordModel { status: StatusModel::Aborted { reason: rollback_reason() }, ..tx };
    let after = mid.with_record(aborted);
    assert(tx.epoch_id == home && tx.tx_id == id);
    assert(mid.slot(home) == mid.epochs[home]);
    assert(after.epochs == mid.epochs.insert(
        home,
        crate::transaction::log::SlotModel {
            transactions: mid.epochs[home].transactions.insert(id, aborted),
            ..mid.epochs[home]
        },
    ));
    assert forall|e: u64, t: u64| #[trigger] after.has_record(e, t) <==> mid.has_record(e, t) by {}
    assert forall|e: u64, t: u64| #[trigger] mid.has_record(e, t) implies after.epochs[e].transactions[t] == (if e == home && t == id {
        aborted
    } else {
        mid.epochs[e].transactions[t]
    }) by {}
    assert forall|e: u64, t: u64| #[trigger] after.has_record(e, t) implies after.epochs[e].transactions[t].epoch_id == e && after.epochs[e].transactions[t].tx_id == t by {
        assert(mid.has_record(e, t));
    }
}

/// Settling in two steps is settling.
proof fn lemma_settled_twice(a: LogModel, b: LogModel, c: LogModel)
    requires
        settled_from(a, b),
        settled_from(b, c),
    ensures
        settled_from(a, c),
{
    reveal(settled_from);
    assert forall|e: u64, t: u64| #[trigger] a.has_record(e, t) implies c.epochs[e].transactions[t] == a.epochs[e].transactions[t] || (is_pending(
        a.epochs[e].transactions[t],
    ) && !is_pending(c.epochs[e].transactions[t])) by {
        assert(b.has_record(e, t));
    }
    assert forall|e: u64| #[trigger] a.epochs.contains_key(e) implies c.epochs[e].meta == a.epochs[e].meta && c.epochs[e].committed == a.epochs[e].committed by {
        assert(b.epochs.contains_key(e));
    }
    assert forall|e: u64, t: u64| #[trigger] c.has_record(e, t) <==> a.has_record(e, t) by {
        assert(b.has_record(e, t) <==> a.has_record(e, t));
    }
    assert forall|e: u64| #[trigger] c.epochs.contains_key(e) <==> a.epochs.contains_key(e) by {
        assert(b.epochs.contains_key(e) <==> a.epochs.contains_key(e));
    }
}

/// What a lookup finds after settling is what it found before, or a record
/// that is not pending.
proof fn lemma_lookup_settled(a: LogModel, b: LogModel, epoch_ids: Seq<u64>, t: u64)
    requires
        settled_from(a, b),
        forall|e: u64| epoch_ids.contains(e) <==> #[trigger] a.epochs.contains_key(e),
    ensures
        (b.lookup(t) matches Some(x) && is_pending(x)) ==> b.lookup(t) == a.lookup(t),
        a.lookup(t) is None ==> b.lookup(t) is None,
{
    reveal(settled_from);
    lemma_same_home(a, b, epoch_ids, t);
    match a.home_epoch(t) {
        Some(h) => {
            assert(b.has_record(h, t) <==> a.has_record(h, t));
        },
        None => {},
    }
}

/// A lookup of `t` finds a pending record.
#[verifier::opaque]
pub open spec fn finds_pending(log: LogModel, t: u64) -> bool {
    log.lookup(t) matches Some(tx) && is_pending(tx)
}

/// The log after the record that a lookup of `t` finds was aborted by
/// recovery.
pub open spec fn with_aborted(log: LogModel, t: u64) -> LogModel {
    log.with_record(RecordModel { status: StatusModel::Aborted { reason: rollback_reason() }, ..log.lookup(t)->0 })
}

/// One step of a rollback: the record of the last id is aborted if it is
/// pending, and the log stays as it is otherwise.
proof fn lemma_roll_back_unfold(log: LogModel, errors: Seq<Seq<char>>, ids: Seq<u64>)
    requires
        ids.len() > 0,
    ensures
        roll_back(log, errors, ids).0 == (if finds_pending(roll_back(log, errors, ids.drop_last()).0, ids.last()) {
            with_aborted(roll_back(log, errors, ids.drop_last()).0, ids.last())
        } else {
            roll_back(log, errors, ids.drop_last()).0
        }),
{
    reveal(finds_pending);
}

/// The list names exactly the epochs of the log.
pub open spec fn epochs_listed(log: LogModel, epoch_ids: Seq<u64>) -> bool {
    forall|e: u64| epoch_ids.contains(e) <==> #[trigger] log.epochs.contains_key(e)
}

/// Settling keeps the epochs.
proof fn lemma_settled_listed(a: LogModel, b: LogModel, epoch_ids: Seq<u64>)
    requires
        settled_from(a, b),
        epochs_listed(a, epoch_ids),
    ensures
        epochs_listed(b, epoch_ids),
{
    reveal(settled_from);
}

/// A log is settled from itself.
proof fn lemma_settled_self(a: LogModel)
    ensures
        settled_from(a, a),
{
    reveal(settled_from);
}

/// The step of a rollback at a pending record.
proof fn lemma_roll_back_step(mid: LogModel, epoch_ids: Seq<u64>, id: u64, t: u64)
    requires
        filed_in_place(mid),
        epochs_listed(mid, epoch_ids),
        finds_pending(mid, id),
    ensures
        settled_from(mid, with_aborted(mid, id)),
        filed_in_place(with_aborted(mid, id)),
        !finds_pending(with_aborted(mid, id), id),
        finds_pending(with_aborted(mid, id), t) ==> finds_pending(mid, t),
{
    reveal(finds_pending);
    let after = with_aborted(mid, id);
    let home = mid.home_epoch(id)->0;
    assert(mid.has_record(home, id));
    lemma_abort_in_place(mid, home, id);
    lemma_same_home(mid, after, epoch_ids, id);
    lemma_lookup_settled(mid, after, epoch_ids, t);
}

/// What a rollback leaves behind. In a log that is filed in place, the
/// rollback of `ids` aborts pending records in their places and changes
/// nothing else, and no id of `ids` is left with a pending record that a
/// lookup finds.
proof fn lemma_roll_back(log: LogModel, errors: Seq<Seq<char>>, ids: Seq<u64>, epoch_ids: Seq<u64>)
    requires
        filed_in_place(log),
        epochs_listed(log, epoch_ids),
    ensures
        settled_from(log, roll_back(log, errors, ids).0),
        filed_in_place(roll_back(log, errors, ids).0),
        forall|i: int| 0 <= i < ids.len() ==> !finds_pending(roll_back(log, errors, ids).0, #[trigger] ids[i]),
    decreases ids.len(),
{
    if ids.len() > 0 {
        let shorter = ids.drop_last();
        let id = ids.last();
        lemma_roll_back(log, errors, shorter, epoch_ids);
        lemma_roll_back_unfold(log, errors, ids);
        let mid = roll_back(log, errors, shorter).0;
        let after = roll_back(log, errors, ids).0;
        lemma_settled_listed(log, mid, epoch_ids);
        if finds_pending(mid, id) {
            lemma_roll_back_step(mid, epoch_ids, id, id);
            lemma_settled_twice(log, mid, after);
            assert forall|i: int| 0 <= i < ids.len() implies !finds_pending(after, #[trigger] ids[i]) by {
                let t = ids[i];
                lemma_roll_back_step(mid, epoch_ids, id, t);
                if i < ids.len() - 1 {
                    assert(shorter[i] == t);
                }
            }
        } else {
            assert forall|i: int| 0 <= i < ids.len() implies !finds_pending(after, #[trigger] ids[i]) by {
                if i < ids.len() - 1 {
                    assert(shorter[i] == ids[i]);
                }
            }
        }
    } else {
        lemma_settled_self(log);
    }
}

/// A scan never takes an id off the list of those to roll back.
proof fn lemma_scan_records_keep(r: ReportModel, log: LogModel, epoch_id: u64, tx_ids: Seq<u64>, committed: bool, t: u64)
    requires
        r.rolled_back.contains(t),
    ensures
        scan_records(r, log, epoch_id, tx_ids, committed).rolled_back.contains(t),
    decreases tx_ids.len(),
{
    if tx_ids.len() > 0 {
        lemma_scan_records_keep(r, log, epoch_id, tx_ids.drop_last(), committed, t);
        let before = scan_records(r, log, epoch_id, tx_ids.drop_last(), committed);
        let i = before.rolled_back.index_of(t);
        let after = scan_records(r, log, epoch_id, tx_ids, committed);
        if after.rolled_back != before.rolled_back {
            assert(after.rolled_back == before.rolled_back.push(tx_ids.last()));
            assert(after.rolled_back[i] == t);
        }
    }
}

/// A scan of an epoch lists every pending record of the epoch for
/// rollback.
proof fn lemma_scan_records_find(r: ReportModel, log: LogModel, epoch_id: u64, tx_ids: Seq<u64>, committed: bool, t: u64)
    requires
        tx_ids.contains(t),
        is_pending(log.epochs[epoch_id].transactions[t]),
    ensures
        scan_records(r, log, epoch_id, tx_ids, committed).rolled_back.contains(t),
    decreases tx_ids.len(),
{
    let before = scan_records(r, log, epoch_id, tx_ids.drop_last(), committed);
    let after = scan_records(r, log, epoch_id, tx_ids, committed);
    if tx_ids.last() == t {
        assert(decision_for(log.epochs[epoch_id].transactions[t].status) == RecoveryDecision::Rollback);
        assert(after.rolled_back == before.rolled_back.push(t));
        assert(after.rolled_back[before.rolled_back.len() as int] == t);
    } else {
        let i = tx_ids.index_of(t);
        assert(tx_ids.drop_last()[i] == t);
        lemma_scan_records_find(r, log, epoch_id, tx_ids.drop_last(), committed, t);
        let j = before.rolled_back.index_of(t);
        if after.rolled_back != before.rolled_back {
            assert(after.rolled_back == before.rolled_back.push(tx_ids.last()));
            assert(after.rolled_back[j] == t);
        }
    }
}

/// A scan of the log lists every pending record for rollback.
proof fn lemma_scan_finds(r: ReportModel, log: LogModel, epoch_ids: Seq<u64>, ids_of: spec_fn(u64) -> Seq<u64>, e: u64, t: u64)
    requires
        epoch_ids.contains(e),
        ids_of(e).contains(t),
        is_pending(log.epochs[e].transactions[t]),
    ensures
        scan_epochs(r, log, epoch_ids, ids_of).rolled_back.contains(t),
    decreases epoch_ids.len(),
{
    let last = epoch_ids.last();
    let before = scan_epochs(r, log, epoch_ids.drop_last(), ids_of);
    let committed = log.slot(last).committed;
    let marked = if committed {
        ReportModel { last_committed_epoch: Some(last), ..before }
    } else {
        before
    };
    if last == e {
        lemma_scan_records_find(marked, log, e, ids_of(e), committed, t);
    } else {
        let i = epoch_ids.index_of(e);
        assert(epoch_ids.drop_last()[i] == e);
        lemma_scan_finds(r, log, epoch_ids.drop_last(), ids_of, e, t);
        assert(marked.rolled_back == before.rolled_back);
        lemma_scan_records_keep(marked, log, last, ids_of(last), committed, t);
    }
}

/// Where no id of `ids` has a pending record that a lookup finds, the
/// rollback of `ids` leaves the log as it is.
proof fn lemma_nothing_to_roll_back(log: LogModel, errors: Seq<Seq<char>>, ids: Seq<u64>)
    requires
        forall|t: u64| !#[trigger] finds_pending(log, t),
    ensures
        roll_back(log, errors, ids).0 == log,
    decreases ids.len(),
{
    if ids.len() > 0 {
        lemma_nothing_to_roll_back(log, errors, ids.drop_last());
        lemma_roll_back_unfold(log, errors, ids);
        assert(!finds_pending(log, ids.last()));
    }
}

/// Recovery idempotence. Take a log that is filed in place, scan it, and
/// roll back what the scan lists. In the log that this leaves, no record
/// that a lookup finds is pending: whatever a later scan lists for rollback,
/// rolling it back leaves the log as it is. Recovery run a second time
/// changes nothing.
pub proof fn law_recovery_settles(
    log: LogModel,
    start: ReportModel,
    epoch_ids: Seq<u64>,
    ids_of: spec_fn(u64) -> Seq<u64>,
    later_errors: Seq<Seq<char>>,
    later_ids: Seq<u64>,
)
    requires
        filed_in_place(log),
        lists_cover(log, epoch_ids, ids_of),
    ensures
        ({
            let first = scan_epochs(start, log, epoch_ids, ids_of);
            let after = roll_back(log, first.errors, first.rolled_back).0;
            roll_back(after, later_errors, later_ids).0 == after
        }),
{
    reveal(settled_from);
    let first = scan_epochs(start, log, epoch_ids, ids_of);
    let after = roll_back(log, first.errors, first.rolled_back).0;
    assert(epochs_listed(log, epoch_ids));
    lemma_roll_back(log, first.errors, first.rolled_back, epoch_ids);
    assert forall|t: u64| !#[trigger] finds_pending(after, t) by {
        reveal(finds_pending);
        if finds_pending(after, t) {
            let h = after.home_epoch(t)->0;
            assert(after.has_record(h, t));
            assert(log.has_record(h, t));
            assert(is_pending(log.epochs[h].transactions[t]));
            assert(epoch_ids.contains(h));
            assert(ids_of(h).contains(t));
            lemma_scan_finds(start, log, epoch_ids, ids_of, h, t);
            let i = first.rolled_back.index_of(t);
            assert(first.rolled_back[i] == t);
        }
    }
    lemma_nothing_to_roll_back(after, later_errors, later_ids);
}

} // verus!
