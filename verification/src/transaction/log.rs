//! The persistent transaction log, organized by epochs.
//!
//! The log holds the sequence counters, the configuration, the pointer to
//! the latest committed transaction, the index of committed transactions
//! and, for each epoch, its metadata, its commit marker and its transaction
//! records. What it decides is what the log directory has to hold
//! afterwards.

use vstd::prelude::*;
use crate::clock::unix_now;
use crate::idmap::{ids_increasing, IdMap};
use crate::text::{chars_to_string, decimal, push_decimal, str_chars};
use crate::transaction::epoch::{fresh_epoch, EpochConfig, EpochMetadata, EpochModel};
use crate::transaction::error::{TransactionError, TxErrorModel};
use crate::transaction::types::{RecordModel, TransactionRecord};

verus! {

/// The configuration that is stored once, when the log is set up.
#[derive(Debug, Clone, Copy, PartialEq, Eq)]
pub struct StorageConfig {
    /// Version of the record format.
    pub format_version: u32,
    /// How epochs are cut.
    pub epoch_config: EpochConfig,
    /// Unix time at which the log was set up.
    pub created_at: i64,
}

impl StorageConfig {
    /// The configuration of a log that is set up now.
    pub fn new(epoch_config: EpochConfig) -> (r: Self)
        ensures
            r.format_version == 1,
            r.epoch_config == epoch_config,
    {
        StorageConfig { format_version: 1, epoch_config, created_at: unix_now() }
    }
}

/// What the log holds for one epoch, over plain values.
pub struct SlotModel {
    pub meta: Option<EpochModel>,
    pub committed: bool,
    pub transactions: Map<u64, RecordModel>,
}

/// What the log is, over plain values.
pub struct LogModel {
    pub base_path: Seq<char>,
    pub config: Option<StorageConfig>,
    pub sequence: u64,
    pub epoch_sequence: Option<u64>,
    pub latest_committed: Option<u64>,
    pub committed_index: Option<Seq<(u64, u64)>>,
    pub epochs: Map<u64, SlotModel>,
}

/// The slot of an epoch that has no metadata, marker or transactions yet.
pub open spec fn empty_slot() -> SlotModel {
    SlotModel { meta: None, committed: false, transactions: Map::empty() }
}

impl LogModel {
    /// The slot of `epoch_id`; the empty slot for an unknown epoch.
    pub open spec fn slot(self, epoch_id: u64) -> SlotModel {
        if self.epochs.contains_key(epoch_id) {
            self.epochs[epoch_id]
        } else {
            empty_slot()
        }
    }

    /// Whether the epoch `epoch_id` holds a record of `tx_id`.
    pub open spec fn has_record(self, epoch_id: u64, tx_id: u64) -> bool {
        self.epochs.contains_key(epoch_id) && self.epochs[epoch_id].transactions.contains_key(tx_id)
    }

    /// The log after `meta` was written as the metadata of its epoch.
    pub open spec fn with_meta(self, meta: EpochModel) -> LogModel {
        LogModel {
            epochs: self.epochs.insert(meta.epoch_id, SlotModel { meta: Some(meta), ..self.slot(meta.epoch_id) }),
            ..self
        }
    }

    /// The log after `tx` was written: the record stands in its epoch, and a
    /// committed record also moves the latest-committed pointer and is
    /// appended to the index.
    pub open spec fn with_record(self, tx: RecordModel) -> LogModel {
        let slot = self.slot(tx.epoch_id);
        let epochs = self.epochs.insert(
            tx.epoch_id,
            SlotModel { transactions: slot.transactions.insert(tx.tx_id, tx), ..slot },
        );
        if tx.status is Committed {
            LogModel {
                epochs,
                latest_committed: Some(tx.tx_id),
                committed_index: Some(
                    (match self.committed_index {
                        Some(idx) => idx,
                        None => Seq::empty(),
                    }).push((tx.epoch_id, tx.tx_id)),
                ),
                ..self
            }
        } else {
            LogModel { epochs, ..self }
        }
    }

    /// The epoch from which a record of `tx_id` is read: the one that the
    /// index names first or, where the index does not list the
    /// transaction, the latest epoch that holds a record of it.
    pub open spec fn home_epoch(self, tx_id: u64) -> Option<u64> {
        match self.indexed_epoch(tx_id) {
            Some(e) => Some(e),
            None => if exists|e: u64| self.has_record(e, tx_id) {
                Some(choose|e: u64| #[trigger] self.has_record(e, tx_id) && forall|e2: u64| e2 > e ==> !#[trigger] self.has_record(e2, tx_id))
            } else {
                None
            },
        }
    }

    /// The record of `tx_id` as a lookup by id finds it.
    pub open spec fn lookup(self, tx_id: u64) -> Option<RecordModel> {
        match self.home_epoch(tx_id) {
            Some(e) => if self.has_record(e, tx_id) {
                Some(self.epochs[e].transactions[tx_id])
            } else {
                None
            },
            None => None,
        }
    }

    /// The epoch in which the index lists `tx_id` first, if it lists it.
    pub open spec fn indexed_epoch(self, tx_id: u64) -> Option<u64> {
        match self.committed_index {
            Some(idx) => first_epoch_of(idx, tx_id, 0),
            None => None,
        }
    }
}

/// The transaction is active or preparing.
pub open spec fn is_pending(tx: RecordModel) -> bool {
    tx.status is Active || tx.status is Preparing
}

/// Every record stands in the epoch, and under the id, that it names. A
/// log that was filled by writing records is filed in place.
#[verifier::opaque]
pub open spec fn filed_in_place(log: LogModel) -> bool {
    forall|e: u64, t: u64| #[trigger]
        log.has_record(e, t) ==> log.epochs[e].transactions[t].epoch_id == e && log.epochs[e].transactions[t].tx_id == t
}

/// The lists name every epoch of the log and, for each epoch, every record
/// in it.
pub open spec fn lists_cover(log: LogModel, epoch_ids: Seq<u64>, ids_of: spec_fn(u64) -> Seq<u64>) -> bool {
    &&& forall|e: u64| epoch_ids.contains(e) <==> #[trigger] log.epochs.contains_key(e)
    &&& forall|e: u64, t: u64| ids_of(e).contains(t) <==> #[trigger] log.has_record(e, t)
}

/// The epoch of the first entry of `idx`, from `from` on, for `tx_id`.
pub open spec fn first_epoch_of(idx: Seq<(u64, u64)>, tx_id: u64, from: int) -> Option<u64>
    decreases idx.len() - from,
{
    if from < 0 || from >= idx.len() {
        None
    } else if idx[from].1 == tx_id {
        Some(idx[from].0)
    } else {
        first_epoch_of(idx, tx_id, from + 1)
    }
}

/// What the log holds for one epoch.
#[derive(Debug)]
pub struct EpochSlot {
    meta: Option<EpochMetadata>,
    committed: bool,
    transactions: IdMap<TransactionRecord>,
}

impl View for EpochSlot {
    type V = SlotModel;

    closed spec fn view(&self) -> SlotModel {
        SlotModel {
            meta: match self.meta {
                Some(m) => Some(m@),
                None => None,
            },
            committed: self.committed,
            transactions: Map::new(|id: u64| self.transactions@.contains_key(id), |id: u64| self.transactions@[id]@),
        }
    }
}

/// The persistent transaction log.
#[derive(Debug)]
pub struct TransactionLog {
    base_path: String,
    config: Option<StorageConfig>,
    sequence: u64,
    epoch_sequence: Option<u64>,
    latest_committed: Option<u64>,
    committed_index: Option<Vec<(u64, u64)>>,
    epochs: IdMap<EpochSlot>,
}

impl View for TransactionLog {
    type V = LogModel;

    closed spec fn view(&self) -> LogModel {
        LogModel {
            base_path: self.base_path@,
            config: self.config,
            sequence: self.sequence,
            epoch_sequence: self.epoch_sequence,
            latest_committed: self.latest_committed,
            committed_index: match self.committed_index {
                Some(v) => Some(v@),
                None => None,
            },
            epochs: Map::new(|e: u64| self.epochs@.contains_key(e), |e: u64| self.epochs@[e]@),
        }
    }
}

/// The ids of the records of every slot are listed in increasing order,
/// and every record stands in the epoch, and under the id, that it names.
closed spec fn slots_in_place(epochs: Map<u64, EpochSlot>) -> bool {
    forall|e: u64| #[trigger]
        epochs.contains_key(e) ==> epochs[e].transactions.wf() && forall|t: u64| #[trigger]
            epochs[e].transactions@.contains_key(t) ==> epochs[e].transactions@[t].epoch_id == e
                && epochs[e].transactions@[t].tx_id == t
}

impl TransactionLog {
    /// The ids of the records of every epoch are listed in increasing
    /// order, and every record stands in the epoch, and under the id, that
    /// it names.
    #[verifier::type_invariant]
    closed spec fn inv(&self) -> bool {
        slots_in_place(self.epochs@)
    }
}

impl EpochSlot {
    /// The slot of an epoch that has no metadata, marker or transactions yet.
    fn empty() -> (r: Self)
        ensures
            r@ == empty_slot(),
            r.transactions@ == Map::<u64, TransactionRecord>::empty(),
    {
        let r = EpochSlot { meta: None, committed: false, transactions: IdMap::new() };
        assert(r@.transactions =~= Map::<u64, RecordModel>::empty());
        r
    }
}

/// The entries of the index are sorted by transaction id and, for one id,
/// by epoch id, and none occurs twice.
pub open spec fn index_sorted(idx: Seq<(u64, u64)>) -> bool {
    forall|i: int, j: int| 0 <= i < j < idx.len() ==> pair_before(#[trigger] idx[i], #[trigger] idx[j])
}

/// The entry `a` sorts before the entry `b`.
pub open spec fn pair_before(a: (u64, u64), b: (u64, u64)) -> bool {
    a.1 < b.1 || (a.1 == b.1 && a.0 < b.0)
}

impl LogModel {
    /// The record of `tx_id` in the epoch `epoch_id` is committed.
    pub open spec fn committed_record(self, epoch_id: u64, tx_id: u64) -> bool {
        self.has_record(epoch_id, tx_id) && self.epochs[epoch_id].transactions[tx_id].status is Committed
    }

    /// `idx` is the index rebuilt from the records: the committed records,
    /// sorted by transaction id.
    pub open spec fn is_rebuilt_index(self, idx: Seq<(u64, u64)>) -> bool {
        &&& index_sorted(idx)
        &&& forall|e: u64, t: u64| idx.contains((e, t)) <==> #[trigger] self.committed_record(e, t)
    }

    /// `idx` is the index that a reader uses: the stored one, or, where none
    /// is stored, the one rebuilt from the records.
    pub open spec fn reads_index(self, idx: Seq<(u64, u64)>) -> bool {
        match self.committed_index {
            Some(i) => idx == i,
            None => self.is_rebuilt_index(idx),
        }
    }

    /// The log after a reader used the index `idx`: an index that had to be
    /// rebuilt is stored, unless it is empty.
    pub open spec fn after_reading(self, idx: Seq<(u64, u64)>) -> LogModel {
        match self.committed_index {
            Some(i) => self,
            None => LogModel {
                committed_index: if idx.len() > 0 {
                    Some(idx)
                } else {
                    None
                },
                ..self
            },
        }
    }

    /// The entries of `idx` whose transaction id is greater than `since`, in
    /// order.
    pub open spec fn entries_after(idx: Seq<(u64, u64)>, since: u64) -> Seq<(u64, u64)>
        decreases idx.len(),
    {
        if idx.len() == 0 {
            Seq::empty()
        } else {
            let rest = Self::entries_after(idx.drop_last(), since);
            if idx.last().1 > since {
                rest.push(idx.last())
            } else {
                rest
            }
        }
    }
}

/// The id of the last record of `records`, if there is one.
pub open spec fn last_id(records: Seq<RecordModel>) -> Option<u64> {
    if records.len() > 0 {
        Some(records.last().tx_id)
    } else {
        None
    }
}

/// The records that the entries of `idx` name in `epochs`, in order; an
/// entry without a record is passed over.
pub open spec fn records_in(epochs: Map<u64, SlotModel>, idx: Seq<(u64, u64)>) -> Seq<RecordModel>
    decreases idx.len(),
{
    if idx.len() == 0 {
        Seq::empty()
    } else {
        let rest = records_in(epochs, idx.drop_last());
        let e = idx.last().0;
        let t = idx.last().1;
        if epochs.contains_key(e) && epochs[e].transactions.contains_key(t) {
            rest.push(epochs[e].transactions[t])
        } else {
            rest
        }
    }
}

/// `x` is one of the first `n` ids.
pub open spec fn id_in_prefix(ids: Seq<u64>, n: int, x: u64) -> bool {
    exists|k: int| 0 <= k < n && k < ids.len() && #[trigger] ids[k] == x
}

/// Taking one more id into the prefix adds that id.
pub proof fn lemma_id_prefix_step(ids: Seq<u64>, n: int, x: u64)
    requires
        0 <= n < ids.len(),
    ensures
        id_in_prefix(ids, n + 1, x) <==> (x == ids[n] || id_in_prefix(ids, n, x)),
{
    if id_in_prefix(ids, n, x) {
        let k = choose|k: int| 0 <= k < n && k < ids.len() && #[trigger] ids[k] == x;
        assert(0 <= k < n + 1 && ids[k] == x);
    }
    if x == ids[n] {
        assert(0 <= n < n + 1 && ids[n] == x);
    }
}

/// The whole list as a prefix holds exactly the ids of the list.
pub proof fn lemma_id_prefix_all(ids: Seq<u64>, x: u64)
    ensures
        id_in_prefix(ids, ids.len() as int, x) <==> ids.contains(x),
{
    if ids.contains(x) {
        let k = ids.index_of(x);
        assert(0 <= k < ids.len() && ids[k] == x);
    }
}

/// The views of a list of records.
pub open spec fn records_view(rs: Seq<TransactionRecord>) -> Seq<RecordModel> {
    Seq::new(rs.len(), |i: int| rs[i]@)
}

impl TransactionLog {
    /// An empty log at `base_path`: no configuration, counters at their
    /// start, no epochs.
    pub fn new(base_path: &str) -> (r: Self)
        ensures
            r@ == (LogModel {
                base_path: base_path@,
                config: None,
                sequence: 0,
                epoch_sequence: None,
                latest_committed: None,
                committed_index: None,
                epochs: Map::empty(),
            }),
    {
        let r = TransactionLog {
            base_path: base_path.to_owned(),
            config: None,
            sequence: 0,
            epoch_sequence: None,
            latest_committed: None,
            committed_index: None,
            epochs: IdMap::new(),
        };
        assert(r@.epochs =~= Map::<u64, SlotModel>::empty());
        r
    }

    /// The directory of the log.
    pub fn base_path(&self) -> (r: &str)
        ensures
            r@ == self@.base_path,
    {
        self.base_path.as_str()
    }

    /// The epoch counter, if the log has one.
    pub fn epoch_counter(&self) -> (r: Option<u64>)
        ensures
            r == self@.epoch_sequence,
    {
        self.epoch_sequence
    }

    /// The pointer to the transaction committed last, if it is set.
    pub fn latest_committed_pointer(&self) -> (r: Option<u64>)
        ensures
            r == self@.latest_committed,
    {
        self.latest_committed
    }

    /// A copy of the stored index of committed transactions, if one is
    /// stored.
    pub fn stored_index(&self) -> (r: Option<Vec<(u64, u64)>>)
        ensures
            r is Some == self@.committed_index is Some,
            r matches Some(v) ==> v@ == self@.committed_index->0,
    {
        match &self.committed_index {
            Some(v) => {
                let mut copy: Vec<(u64, u64)> = Vec::new();
                let mut i: usize = 0;
                while i < v.len()
                    invariant
                        i <= v.len(),
                        copy@ == v@.subrange(0, i as int),
                    decreases v.len() - i,
                {
                    copy.push(v[i]);
                    i += 1;
                    assert(copy@ =~= v@.subrange(0, i as int));
                }
                assert(v@.subrange(0, v.len() as int) =~= v@);
                Some(copy)
            },
            None => None,
        }
    }

    /// Sets the counters and pointers as they were found on disk.
    pub fn restore_counters(&mut self, sequence: u64, epoch_sequence: Option<u64>, latest_committed: Option<u64>, committed_index: Option<Vec<(u64, u64)>>)
        ensures
            final(self)@ == (LogModel {
                sequence,
                epoch_sequence,
                latest_committed,
                committed_index: match committed_index {
                    Some(v) => Some(v@),
                    None => None,
                },
                ..old(self)@
            }),
    {
        proof {
            use_type_invariant(&*self);
        }
        self.sequence = sequence;
        self.epoch_sequence = epoch_sequence;
        self.latest_committed = latest_committed;
        self.committed_index = committed_index;
        assert(self@.epochs =~= old(self)@.epochs);
    }

    /// Advances the transaction counter and returns the new id.
    pub fn next_tx_id(&mut self) -> (r: Result<u64, TransactionError>)
        requires
            old(self)@.sequence < u64::MAX,
        ensures
            r == Ok::<u64, TransactionError>((old(self)@.sequence + 1) as u64),
            final(self)@ == (LogModel { sequence: (old(self)@.sequence + 1) as u64, ..old(self)@ }),
    {
        proof {
            use_type_invariant(&*self);
        }
        self.sequence = self.sequence + 1;
        assert(self@.epochs =~= old(self)@.epochs);
        Ok(self.sequence)
    }

    /// The id of the transaction begun last; 0 before the first.
    pub fn current_tx_id(&self) -> (r: Result<u64, TransactionError>)
        ensures
            r == Ok::<u64, TransactionError>(self@.sequence),
    {
        Ok(self.sequence)
    }

    /// The id of the current epoch. A log without an epoch counter gets the
    /// epoch 1 created.
    pub fn current_epoch_id(&mut self) -> (r: Result<u64, TransactionError>)
        ensures
            r is Ok,
            old(self)@.epoch_sequence matches Some(e) ==> r->Ok_0 == e && final(self)@ == old(self)@,
            old(self)@.epoch_sequence is None ==> r->Ok_0 == 1 && final(self)@ == (LogModel {
                epoch_sequence: Some(1u64),
                ..old(self)@.with_meta(fresh_epoch(1, final(self)@.slot(1).meta->0.started_at))
            }),
    {
        match self.epoch_sequence {
            Some(e) => Ok(e),
            None => {
                let _ = self.create_epoch(1);
                Ok(1)
            },
        }
    }

    /// Advances the epoch counter and returns the new id.
    pub fn next_epoch_id(&mut self) -> (r: Result<u64, TransactionError>)
        requires
            old(self)@.epoch_sequence matches Some(e) ==> e < u64::MAX,
        ensures
            r is Ok,
            old(self)@.epoch_sequence matches Some(e) ==> r->Ok_0 == e + 1 && final(self)@ == (LogModel { epoch_sequence: Some((e + 1) as u64), ..old(self)@ }),
            old(self)@.epoch_sequence is None ==> r->Ok_0 == 2 && final(self)@ == (LogModel {
                epoch_sequence: Some(2u64),
                ..old(self)@.with_meta(fresh_epoch(1, final(self)@.slot(1).meta->0.started_at))
            }),
    {
        let current = match self.current_epoch_id() {
            Ok(e) => e,
            Err(e) => {
                return Err(e);
            },
        };
        let next = current + 1;
        proof {
            use_type_invariant(&*self);
        }
        self.epoch_sequence = Some(next);
        assert(self@.epochs =~= old(self)@.epochs || old(self)@.epoch_sequence is None);
        Ok(next)
    }

    /// Creates the epoch `epoch_id` with fresh metadata and sets the epoch
    /// counter to it. The marker and the records of an epoch that exists
    /// stay.
    pub fn create_epoch(&mut self, epoch_id: u64) -> (r: Result<EpochMetadata, TransactionError>)
        ensures
            r is Ok,
            r->Ok_0@ == fresh_epoch(epoch_id, r->Ok_0@.started_at),
            final(self)@ == (LogModel { epoch_sequence: Some(epoch_id), ..old(self)@.with_meta(r->Ok_0@) }),
    {
        let meta = EpochMetadata::new(epoch_id);
        let copy = meta.duplicate();
        let _ = self.write_epoch_metadata(&meta);
        proof {
            use_type_invariant(&*self);
        }
        self.epoch_sequence = Some(epoch_id);
        assert(self@.epochs =~= old(self)@.with_meta(meta@).epochs);
        Ok(copy)
    }

    /// The metadata of the epoch `epoch_id`.
    pub fn get_epoch(&self, epoch_id: u64) -> (r: Result<EpochMetadata, TransactionError>)
        ensures
            r is Ok <==> self@.slot(epoch_id).meta is Some,
            r matches Ok(m) ==> m@ == self@.slot(epoch_id).meta->0,
            r matches Err(e) ==> e@ == TxErrorModel::EpochNotFound(epoch_id),
    {
        match self.epochs.get(epoch_id) {
            Some(slot) => match &slot.meta {
                Some(m) => Ok(m.duplicate()),
                None => Err(TransactionError::EpochNotFound(epoch_id)),
            },
            None => Err(TransactionError::EpochNotFound(epoch_id)),
        }
    }

    /// Writes `meta` as the metadata of its epoch.
    pub fn write_epoch_metadata(&mut self, meta: &EpochMetadata) -> (r: Result<(), TransactionError>)
        ensures
            r is Ok,
            final(self)@ == old(self)@.with_meta(meta@),
    {
        let ghost before = self@;
        proof {
            use_type_invariant(&*self);
        }
        let mut epochs: IdMap<EpochSlot> = IdMap::new();
        core::mem::swap(&mut self.epochs, &mut epochs);
        let ghost slots = epochs@;
        let mut slot = match epochs.remove(meta.epoch_id) {
            Some(s) => s,
            None => EpochSlot::empty(),
        };
        assert(slot@ == before.slot(meta.epoch_id));
        proof {
            use_type_invariant(&slot.transactions);
            assert forall|t: u64| #[trigger] slot.transactions@.contains_key(t) implies slot.transactions@[t].epoch_id == meta.epoch_id
                && slot.transactions@[t].tx_id == t by {
                assert(slots.contains_key(meta.epoch_id));
            }
        }
        slot.meta = Some(meta.duplicate());
        let ghost sm = slot@;
        epochs.insert(meta.epoch_id, slot);
        proof {
            assert(slots_in_place(epochs@)) by {
                assert forall|e: u64| #[trigger] epochs@.contains_key(e) implies epochs@[e].transactions.wf() && forall|t: u64| #[trigger]
                    epochs@[e].transactions@.contains_key(t) ==> epochs@[e].transactions@[t].epoch_id == e
                        && epochs@[e].transactions@[t].tx_id == t by {
                    if e != meta.epoch_id {
                        assert(slots.contains_key(e));
                    }
                }
            }
        }
        core::mem::swap(&mut self.epochs, &mut epochs);
        proof {
            assert(sm == (SlotModel { meta: Some(meta@), ..before.slot(meta.epoch_id) }));
            assert(self@.epochs =~= before.with_meta(meta@).epochs);
        }
        Ok(())
    }

    /// Sets the commit marker of the epoch `epoch_id`.
    pub fn mark_epoch_committed(&mut self, epoch_id: u64) -> (r: Result<(), TransactionError>)
        ensures
            r is Ok,
            final(self)@ == (LogModel {
                epochs: old(self)@.epochs.insert(epoch_id, SlotModel { committed: true, ..old(self)@.slot(epoch_id) }),
                ..old(self)@
            }),
    {
        let ghost before = self@;
        proof {
            use_type_invariant(&*self);
        }
        let mut epochs: IdMap<EpochSlot> = IdMap::new();
        core::mem::swap(&mut self.epochs, &mut epochs);
        let ghost slots = epochs@;
        let mut slot = match epochs.remove(epoch_id) {
            Some(s) => s,
            None => EpochSlot::empty(),
        };
        assert(slot@ == before.slot(epoch_id));
        proof {
            use_type_invariant(&slot.transactions);
            assert forall|t: u64| #[trigger] slot.transactions@.contains_key(t) implies slot.transactions@[t].epoch_id == epoch_id
                && slot.transactions@[t].tx_id == t by {
                assert(slots.contains_key(epoch_id));
            }
        }
        slot.committed = true;
        let ghost sm = slot@;
        epochs.insert(epoch_id, slot);
        proof {
            assert(slots_in_place(epochs@)) by {
                assert forall|e: u64| #[trigger] epochs@.contains_key(e) implies epochs@[e].transactions.wf() && forall|t: u64| #[trigger]
                    epochs@[e].transactions@.contains_key(t) ==> epochs@[e].transactions@[t].epoch_id == e
                        && epochs@[e].transactions@[t].tx_id == t by {
                    if e != epoch_id {
                        assert(slots.contains_key(e));
                    }
                }
            }
        }
        core::mem::swap(&mut self.epochs, &mut epochs);
        proof {
            assert(sm == (SlotModel { committed: true, ..before.slot(epoch_id) }));
            assert(self@.epochs =~= before.epochs.insert(epoch_id, sm));
        }
        Ok(())
    }

    /// Whether the commit marker of the epoch `epoch_id` is set.
    pub fn is_epoch_committed(&self, epoch_id: u64) -> (r: Result<bool, TransactionError>)
        ensures
            r == Ok::<bool, TransactionError>(self@.slot(epoch_id).committed),
    {
        match self.epochs.get(epoch_id) {
            Some(slot) => Ok(slot.committed),
            None => Ok(false),
        }
    }

    /// The ids of all epochs, in increasing order.
    pub closed spec fn epoch_ids(&self) -> Seq<u64> {
        self.epochs.ids_seq()
    }

    /// The ids of the records of the epoch `epoch_id`, in increasing order.
    pub closed spec fn tx_ids(&self, epoch_id: u64) -> Seq<u64> {
        if self.epochs@.contains_key(epoch_id) {
            self.epochs@[epoch_id].transactions.ids_seq()
        } else {
            Seq::empty()
        }
    }

    /// The ids of all epochs, in increasing order.
    pub fn list_epochs(&self) -> (r: Result<Vec<u64>, TransactionError>)
        ensures
            r is Ok,
            r->Ok_0@ == self.epoch_ids(),
            ids_increasing(r->Ok_0@),
            forall|e: u64| r->Ok_0@.contains(e) <==> self@.epochs.contains_key(e),
            filed_in_place(self@),
            lists_cover(self@, self.epoch_ids(), |e: u64| self.tx_ids(e)),
    {
        proof {
            use_type_invariant(self);
            use_type_invariant(&self.epochs);
            self.epochs.lemma_dom();
            reveal(filed_in_place);
            assert forall|e: u64, t: u64| self.tx_ids(e).contains(t) <==> #[trigger] self@.has_record(e, t) by {
                if self.epochs@.contains_key(e) {
                    self.epochs@[e].transactions.lemma_dom();
                }
            }
        }
        Ok(self.epochs.ids())
    }

    /// Writes the record `tx` into its epoch. A committed record also moves
    /// the latest-committed pointer and is appended to the index.
    pub fn write_transaction(&mut self, tx: &TransactionRecord) -> (r: Result<(), TransactionError>)
        ensures
            r is Ok,
            final(self)@ == old(self)@.with_record(tx@),
    {
        let ghost before = self@;
        proof {
            use_type_invariant(&*self);
        }
        let mut epochs: IdMap<EpochSlot> = IdMap::new();
        core::mem::swap(&mut self.epochs, &mut epochs);
        let ghost slots = epochs@;
        let mut slot = match epochs.remove(tx.epoch_id) {
            Some(s) => s,
            None => EpochSlot::empty(),
        };
        assert(slot@ == before.slot(tx.epoch_id));
        let ghost t0 = slot@.transactions;
        let ghost r0 = slot.transactions@;
        let copy = tx.clone();
        slot.transactions.insert(tx.tx_id, copy);
        let ghost sm = slot@;
        proof {
            assert(sm.transactions =~= t0.insert(tx.tx_id, tx@));
            use_type_invariant(&slot.transactions);
            assert forall|t: u64| #[trigger] slot.transactions@.contains_key(t) implies slot.transactions@[t].epoch_id == tx.epoch_id
                && slot.transactions@[t].tx_id == t by {
                if t != tx.tx_id {
                    assert(r0.contains_key(t));
                    assert(slots.contains_key(tx.epoch_id));
                }
            }
        }
        epochs.insert(tx.epoch_id, slot);
        proof {
            assert(slots_in_place(epochs@)) by {
                assert forall|e: u64| #[trigger] epochs@.contains_key(e) implies epochs@[e].transactions.wf() && forall|t: u64| #[trigger]
                    epochs@[e].transactions@.contains_key(t) ==> epochs@[e].transactions@[t].epoch_id == e
                        && epochs@[e].transactions@[t].tx_id == t by {
                    if e != tx.epoch_id {
                        assert(slots.contains_key(e));
                    }
                }
            }
        }
        core::mem::swap(&mut self.epochs, &mut epochs);
        proof {
            assert(self@.epochs =~= before.with_record(tx@).epochs);
        }
        if tx.is_committed() {
            self.latest_committed = Some(tx.tx_id);
            let mut stored: Option<Vec<(u64, u64)>> = None;
            core::mem::swap(&mut self.committed_index, &mut stored);
            let mut idx: Vec<(u64, u64)> = match stored {
                Some(v) => v,
                None => Vec::new(),
            };
            idx.push((tx.epoch_id, tx.tx_id));
            self.committed_index = Some(idx);
            proof {
                assert(self@.epochs =~= before.with_record(tx@).epochs);
                assert(self@.committed_index->0 =~= before.with_record(tx@).committed_index->0);
            }
        }
        Ok(())
    }

    /// The record of `tx_id` in the epoch `epoch_id`.
    pub fn read_transaction_from_epoch(&self, tx_id: u64, epoch_id: u64) -> (r: Result<TransactionRecord, TransactionError>)
        ensures
            r is Ok <==> self@.has_record(epoch_id, tx_id),
            r matches Ok(tx) ==> tx@ == self@.epochs[epoch_id].transactions[tx_id],
            r matches Err(e) ==> e@ == TxErrorModel::TransactionNotFound(tx_id),
    {
        match self.epochs.get(epoch_id) {
            Some(slot) => match slot.transactions.get(tx_id) {
                Some(tx) => Ok(tx.clone()),
                None => Err(TransactionError::TransactionNotFound(tx_id)),
            },
            None => Err(TransactionError::TransactionNotFound(tx_id)),
        }
    }

    /// The record of `tx_id`. Where the index lists the transaction, the
    /// record is read from the epoch that the index names first; otherwise
    /// from the latest epoch that holds a record of it.
    pub fn read_transaction(&self, tx_id: u64) -> (r: Result<TransactionRecord, TransactionError>)
        ensures
            self@.indexed_epoch(tx_id) matches Some(e) ==> {
                &&& r is Ok <==> self@.has_record(e, tx_id)
                &&& r matches Ok(tx) ==> tx@ == self@.epochs[e].transactions[tx_id]
            },
            self@.indexed_epoch(tx_id) is None ==> {
                &&& r is Ok <==> exists|e: u64| self@.has_record(e, tx_id)
                &&& r matches Ok(tx) ==> exists|e: u64| #[trigger] self@.has_record(e, tx_id) && tx@ == self@.epochs[e].transactions[tx_id]
                    && forall|e2: u64| e2 > e ==> !#[trigger] self@.has_record(e2, tx_id)
            },
            r matches Err(e) ==> e@ == TxErrorModel::TransactionNotFound(tx_id),
            r is Ok <==> self@.lookup(tx_id) is Some,
            r matches Ok(tx) ==> self@.lookup(tx_id) == Some(tx@),
    {
        match &self.committed_index {
            Some(idx) => {
                let mut i: usize = 0;
                while i < idx.len()
                    invariant
                        i <= idx.len(),
                        self@.committed_index == Some(idx@),
                        first_epoch_of(idx@, tx_id, 0) == first_epoch_of(idx@, tx_id, i as int),
                    decreases idx.len() - i,
                {
                    if idx[i].1 == tx_id {
                        return self.read_transaction_from_epoch(tx_id, idx[i].0);
                    }
                    i += 1;
                }
            },
            None => {},
        }
        let n = self.epochs.len();
        let mut k: usize = n;
        proof {
            self.epochs.lemma_dom();
        }
        while k > 0
            invariant
                k <= n,
                n == self.epochs.ids_seq().len(),
                self.epochs.wf(),
                self@.indexed_epoch(tx_id) is None,
                forall|j: int| k <= j < n ==> !self@.has_record(#[trigger] self.epochs.ids_seq()[j], tx_id),
            decreases k,
        {
            k -= 1;
            let e = self.epochs.id_at(k);
            match self.read_transaction_from_epoch(tx_id, e) {
                Ok(tx) => {
                    proof {
                        self.epochs.lemma_dom();
                        assert(self@.has_record(e, tx_id));
                        assert forall|e2: u64| e2 > e implies !#[trigger] self@.has_record(e2, tx_id) by {
                            if self@.has_record(e2, tx_id) {
                                assert(self.epochs@.contains_key(e2));
                                let j = self.epochs.ids_seq().index_of(e2);
                                assert(self.epochs.ids_seq()[j] == e2);
                                if j < k {
                                    assert(self.epochs.ids_seq()[j] < self.epochs.ids_seq()[k as int]);
                                }
                            }
                        }
                        let h = self@.home_epoch(tx_id)->0;
                        assert(self@.has_record(h, tx_id) && forall|e2: u64| e2 > h ==> !#[trigger] self@.has_record(e2, tx_id));
                        if h < e {
                            assert(!self@.has_record(e, tx_id));
                        }
                        if e < h {
                            assert(!self@.has_record(h, tx_id));
                        }
                    }
                    return Ok(tx);
                },
                Err(_) => {},
            }
        }
        proof {
            self.epochs.lemma_dom();
            if exists|e: u64| self@.has_record(e, tx_id) {
                let e = choose|e: u64| self@.has_record(e, tx_id);
                assert(self.epochs@.contains_key(e));
                let j = self.epochs.ids_seq().index_of(e);
                assert(self.epochs.ids_seq()[j] == e);
            }
        }
        Err(TransactionError::TransactionNotFound(tx_id))
    }

    /// The ids of the records of the epoch `epoch_id`, in increasing order.
    pub fn list_transactions_in_epoch(&self, epoch_id: u64) -> (r: Result<Vec<u64>, TransactionError>)
        ensures
            r is Ok <==> self@.epochs.contains_key(epoch_id),
            r matches Ok(ids) ==> ids@ == self.tx_ids(epoch_id) && ids_increasing(ids@) && forall|t: u64| ids@.contains(t) <==> self@.has_record(epoch_id, t),
            r matches Err(e) ==> e@ == TxErrorModel::EpochNotFound(epoch_id),
    {
        match self.epochs.get(epoch_id) {
            Some(slot) => Ok(slot.transactions.ids()),
            None => Err(TransactionError::EpochNotFound(epoch_id)),
        }
    }

    /// The stored configuration, if there is one.
    pub fn load_config(&self) -> (r: Result<Option<StorageConfig>, TransactionError>)
        ensures
            r == Ok::<Option<StorageConfig>, TransactionError>(self@.config),
    {
        Ok(self.config)
    }

    /// Stores `config`.
    pub fn save_config(&mut self, config: &StorageConfig) -> (r: Result<(), TransactionError>)
        ensures
            r is Ok,
            final(self)@ == (LogModel { config: Some(*config), ..old(self)@ }),
    {
        proof {
            use_type_invariant(&*self);
        }
        self.config = Some(*config);
        assert(self@.epochs =~= old(self)@.epochs);
        Ok(())
    }

    /// The stored configuration; a log without one gets the single-node
    /// configuration stored.
    pub fn initialize_if_needed(&mut self) -> (r: Result<StorageConfig, TransactionError>)
        ensures
            r is Ok,
            final(self)@ == (LogModel { config: Some(r->Ok_0), ..old(self)@ }),
            old(self)@.config matches Some(c) ==> r->Ok_0 == c,
            old(self)@.config is None ==> r->Ok_0.epoch_config == (EpochConfig {
                duration_ms: 0,
                max_transactions: 1,
                batching_enabled: false,
            }) && r->Ok_0.format_version == 1,
    {
        match self.config {
            Some(c) => {
                assert(self@.epochs =~= old(self)@.epochs);
                Ok(c)
            },
            None => {
                let config = StorageConfig::new(EpochConfig::single_node());
                let _ = self.save_config(&config);
                Ok(config)
            },
        }
    }

    /// The id of the transaction committed last: the pointer, or, without a
    /// pointer, the last committed transaction of the index, to which the
    /// pointer is then set.
    pub fn latest_committed_tx_id(&mut self) -> (r: Result<Option<u64>, TransactionError>)
        ensures
            r is Ok,
            old(self)@.latest_committed matches Some(t) ==> r->Ok_0 == Some(t) && final(self)@ == old(self)@,
            old(self)@.latest_committed is None ==> exists|i: Seq<(u64, u64)>| #[trigger]
                old(self)@.reads_index(i) && r->Ok_0 == last_id(records_in(old(self)@.epochs, i)) && final(self)@ == (LogModel {
                    latest_committed: r->Ok_0,
                    ..old(self)@.after_reading(i)
                }),
    {
        match self.latest_committed {
            Some(t) => {
                return Ok(Some(t));
            },
            None => {},
        }
        let committed = match self.list_committed_transactions() {
            Ok(c) => c,
            Err(e) => {
                return Err(e);
            },
        };
        let latest = if committed.len() > 0 {
            Some(committed[committed.len() - 1].tx_id)
        } else {
            None
        };
        let ghost read = self@;
        proof {
            use_type_invariant(&*self);
        }
        self.latest_committed = latest;
        proof {
            let i = choose|i: Seq<(u64, u64)>| #[trigger]
                old(self)@.reads_index(i) && read == old(self)@.after_reading(i) && records_view(committed@) == records_in(
                    old(self)@.epochs,
                    i,
                );
            assert(self@.epochs =~= read.epochs);
            assert(latest == last_id(records_in(old(self)@.epochs, i)));
            assert(self@ == (LogModel { latest_committed: latest, ..old(self)@.after_reading(i) }));
        }
        Ok(latest)
    }

    /// The index of committed transactions; a log without one gets it
    /// rebuilt from the records and, unless it is empty, stored.
    pub fn committed_index(&mut self) -> (idx: Vec<(u64, u64)>)
        ensures
            old(self)@.committed_index matches Some(i) ==> idx@ == i && final(self)@ == old(self)@,
            old(self)@.committed_index is None ==> {
                &&& old(self)@.is_rebuilt_index(idx@)
                &&& final(self)@ == (LogModel {
                    committed_index: if idx@.len() > 0 {
                        Some(idx@)
                    } else {
                        None
                    },
                    ..old(self)@
                })
            },
    {
        match &self.committed_index {
            Some(v) => {
                let mut copy: Vec<(u64, u64)> = Vec::new();
                let mut i: usize = 0;
                while i < v.len()
                    invariant
                        i <= v.len(),
                        copy@ == v@.subrange(0, i as int),
                    decreases v.len() - i,
                {
                    copy.push(v[i]);
                    i += 1;
                    assert(copy@ =~= v@.subrange(0, i as int));
                }
                assert(v@.subrange(0, v.len() as int) =~= v@);
                return copy;
            },
            None => {},
        }
        let idx = self.rebuild_committed_index();
        if idx.len() > 0 {
            let mut stored: Vec<(u64, u64)> = Vec::new();
            let mut i: usize = 0;
            while i < idx.len()
                invariant
                    i <= idx.len(),
                    stored@ == idx@.subrange(0, i as int),
                decreases idx.len() - i,
            {
                stored.push(idx[i]);
                i += 1;
                assert(stored@ =~= idx@.subrange(0, i as int));
            }
            assert(idx@.subrange(0, idx.len() as int) =~= idx@);
            proof {
                use_type_invariant(&*self);
            }
            self.committed_index = Some(stored);
            assert(self@.epochs =~= old(self)@.epochs);
        }
        idx
    }

    /// The index as the records give it: the committed records, sorted by
    /// transaction id and, for one id, by epoch.
    pub fn rebuild_committed_index(&self) -> (idx: Vec<(u64, u64)>)
        ensures
            self@.is_rebuilt_index(idx@),
    {
        let mut idx: Vec<(u64, u64)> = Vec::new();
        let n = self.epochs.len();
        let ghost eids = self.epochs.ids_seq();
        let ghost model = self@;
        proof {
            self.epochs.lemma_dom();
        }
        let mut a: usize = 0;
        while a < n
            invariant
                a <= n,
                n == eids.len(),
                eids == self.epochs.ids_seq(),
                model == self@,
                self.epochs.wf(),
                index_sorted(idx@),
                forall|x: (u64, u64)| #[trigger] idx@.contains(x) <==> (model.committed_record(x.0, x.1) && id_in_prefix(eids, a as int, x.0)),
            decreases n - a,
        {
            let e = self.epochs.id_at(a);
            let slot = self.epochs.value_at(a);
            let m = slot.transactions.len();
            let ghost tids = slot.transactions.ids_seq();
            let ghost start = idx@;
            proof {
                slot.transactions.lemma_dom();
                self.epochs.lemma_dom();
                assert(self.epochs@[e] == *slot);
            }
            let mut b: usize = 0;
            while b < m
                invariant
                    b <= m,
                    a < n,
                    n == eids.len(),
                    m == tids.len(),
                    tids == slot.transactions.ids_seq(),
                    slot.transactions.wf(),
                    eids == self.epochs.ids_seq(),
                    model == self@,
                    e == eids[a as int],
                    self.epochs@.contains_key(e),
                    self.epochs@[e] == *slot,
                    index_sorted(idx@),
                    forall|x: (u64, u64)| #[trigger] idx@.contains(x) <==> (start.contains(x) || (x.0 == e && model.committed_record(x.0, x.1) && id_in_prefix(tids, b as int, x.1))),
                decreases m - b,
            {
                let t = slot.transactions.id_at(b);
                let tx = slot.transactions.value_at(b);
                let ghost before = idx@;
                proof {
                    slot.transactions.lemma_dom();
                    assert(model.has_record(e, t));
                    assert(model.epochs[e].transactions[t] == tx@);
                }
                if tx.is_committed() {
                    insert_entry(&mut idx, (e, t));
                }
                proof {
                    assert forall|x: (u64, u64)| #[trigger] idx@.contains(x) <==> (start.contains(x) || (x.0 == e && model.committed_record(x.0, x.1) && id_in_prefix(tids, b + 1, x.1))) by {
                        lemma_id_prefix_step(tids, b as int, x.1);
                        assert(before.contains(x) <==> (start.contains(x) || (x.0 == e && model.committed_record(x.0, x.1) && id_in_prefix(tids, b as int, x.1))));
                        if tx@.status is Committed {
                            assert(idx@.contains(x) <==> (before.contains(x) || x == (e, t)));
                        }
                    }
                }
                b += 1;
            }
            proof {
                assert forall|x: (u64, u64)| #[trigger] idx@.contains(x) <==> (model.committed_record(x.0, x.1) && id_in_prefix(eids, a + 1, x.0)) by {
                    lemma_id_prefix_step(eids, a as int, x.0);
                    lemma_id_prefix_all(tids, x.1);
                    assert(start.contains(x) <==> (model.committed_record(x.0, x.1) && id_in_prefix(eids, a as int, x.0)));
                    if x.0 == e && model.committed_record(x.0, x.1) {
                        assert(slot.transactions@.contains_key(x.1));
                        assert(tids.contains(x.1));
                    }
                }
            }
            a += 1;
        }
        proof {
            assert forall|e: u64, t: u64| idx@.contains((e, t)) <==> #[trigger] model.committed_record(e, t) by {
                lemma_id_prefix_all(eids, e);
                let x = (e, t);
                assert(idx@.contains(x) <==> (model.committed_record(x.0, x.1) && id_in_prefix(eids, n as int, x.0)));
                if model.committed_record(e, t) {
                    assert(self.epochs@.contains_key(e));
                    assert(eids.contains(e));
                }
            }
        }
        idx
    }

    /// The records of the committed transactions, in the order of the
    /// index.
    pub fn list_committed_transactions(&mut self) -> (r: Result<Vec<TransactionRecord>, TransactionError>)
        ensures
            r is Ok,
            exists|i: Seq<(u64, u64)>| #[trigger]
                old(self)@.reads_index(i) && final(self)@ == old(self)@.after_reading(i) && records_view(r->Ok_0@) == records_in(
                    old(self)@.epochs,
                    i,
                ),
    {
        let idx = self.committed_index();
        let r = self.records_for(&idx);
        assert(old(self)@.reads_index(idx@) && self@ == old(self)@.after_reading(idx@));
        Ok(r)
    }

    /// The records that the entries of `idx` name, in order; an entry
    /// without a record is passed over.
    pub fn records_for(&self, idx: &Vec<(u64, u64)>) -> (r: Vec<TransactionRecord>)
        ensures
            records_view(r@) == records_in(self@.epochs, idx@),
    {
        let mut r: Vec<TransactionRecord> = Vec::new();
        let mut i: usize = 0;
        assert(idx@.subrange(0, 0) =~= Seq::<(u64, u64)>::empty());
        assert(records_view(r@) =~= Seq::<RecordModel>::empty());
        while i < idx.len()
            invariant
                i <= idx.len(),
                records_view(r@) == records_in(self@.epochs, idx@.subrange(0, i as int)),
            decreases idx.len() - i,
        {
            let ghost r0 = records_view(r@);
            proof {
                let next = idx@.subrange(0, i + 1);
                assert(next.drop_last() =~= idx@.subrange(0, i as int));
                assert(next.last() == idx@[i as int]);
            }
            match self.read_transaction_from_epoch(idx[i].1, idx[i].0) {
                Ok(tx) => {
                    let ghost tm = tx@;
                    r.push(tx);
                    assert(records_view(r@) =~= r0.push(tm));
                },
                Err(_) => {},
            }
            i += 1;
        }
        assert(idx@.subrange(0, idx@.len() as int) =~= idx@);
        r
    }

    /// The records of the transactions committed after `since_tx_id`, in
    /// the order of the index.
    pub fn list_committed_since(&mut self, since_tx_id: u64) -> (r: Result<Vec<TransactionRecord>, TransactionError>)
        ensures
            r is Ok,
            exists|i: Seq<(u64, u64)>| #[trigger]
                old(self)@.reads_index(i) && final(self)@ == old(self)@.after_reading(i) && records_view(r->Ok_0@) == records_in(
                    old(self)@.epochs,
                    LogModel::entries_after(i, since_tx_id),
                ),
    {
        let idx = self.committed_index();
        let mut later: Vec<(u64, u64)> = Vec::new();
        let mut i: usize = 0;
        assert(idx@.subrange(0, 0) =~= Seq::<(u64, u64)>::empty());
        while i < idx.len()
            invariant
                i <= idx.len(),
                later@ == LogModel::entries_after(idx@.subrange(0, i as int), since_tx_id),
            decreases idx.len() - i,
        {
            proof {
                let next = idx@.subrange(0, i + 1);
                assert(next.drop_last() =~= idx@.subrange(0, i as int));
                assert(next.last() == idx@[i as int]);
            }
            if idx[i].1 > since_tx_id {
                later.push(idx[i]);
            }
            i += 1;
        }
        assert(idx@.subrange(0, idx@.len() as int) =~= idx@);
        let r = self.records_for(&later);
        assert(old(self)@.reads_index(idx@) && self@ == old(self)@.after_reading(idx@));
        Ok(r)
    }
}

/// Puts `entry` at its place in the sorted index, unless it is there.
fn insert_entry(idx: &mut Vec<(u64, u64)>, entry: (u64, u64))
    requires
        index_sorted(old(idx)@),
    ensures
        index_sorted(final(idx)@),
        forall|x: (u64, u64)| final(idx)@.contains(x) <==> (old(idx)@.contains(x) || x == entry),
{
    let mut p: usize = 0;
    while p < idx.len() && pair_lt(idx[p], entry)
        invariant
            p <= idx.len(),
            *idx == *old(idx),
            forall|k: int| 0 <= k < p ==> pair_before(#[trigger] idx@[k], entry),
        decreases idx.len() - p,
    {
        p += 1;
    }
    if p < idx.len() && idx[p].0 == entry.0 && idx[p].1 == entry.1 {
        assert(idx@.contains(entry)) by {
            assert(idx@[p as int] == entry);
        }
        return;
    }
    let ghost before = idx@;
    idx.insert(p, entry);
    proof {
        let after = idx@;
        assert forall|i: int, j: int| 0 <= i < j < after.len() implies pair_before(#[trigger] after[i], #[trigger] after[j]) by {
            let i0 = if i < p { i } else { i - 1 };
            let j0 = if j < p { j } else { j - 1 };
            if i != p {
                assert(after[i] == before[i0]);
            }
            if j != p {
                assert(after[j] == before[j0]);
            }
            if i == p && j0 > p {
                assert(pair_before(before[p as int], before[j0]));
            }
        }
        assert forall|x: (u64, u64)| after.contains(x) <==> (before.contains(x) || x == entry) by {
            if after.contains(x) {
                let i = after.index_of(x);
                if i < p {
                    assert(before[i] == x);
                } else if i > p {
                    assert(before[i - 1] == x);
                }
            }
            if before.contains(x) {
                let i = before.index_of(x);
                if i < p {
                    assert(after[i] == x);
                } else {
                    assert(after[i + 1] == x);
                }
            }
            if x == entry {
                assert(after[p as int] == x);
            }
        }
    }
}

/// Whether the entry `a` sorts before the entry `b`.
fn pair_lt(a: (u64, u64), b: (u64, u64)) -> (r: bool)
    ensures
        r == pair_before(a, b),
{
    a.1 < b.1 || (a.1 == b.1 && a.0 < b.0)
}

/// The name of the directory of an epoch: the id in at least six digits.
pub open spec fn epoch_dir_text(epoch_id: u64) -> Seq<char> {
    padded6(epoch_id)
}

/// The decimal numeral of `n`, with zeros in front up to six digits.
pub open spec fn padded6(n: u64) -> Seq<char> {
    let d = decimal(n as nat);
    if d.len() >= 6 {
        d
    } else {
        Seq::new((6 - d.len()) as nat, |i: int| '0') + d
    }
}

/// The name of the file of a transaction record.
pub open spec fn tx_file_text(tx_id: u64) -> Seq<char> {
    "tx_"@ + padded6(tx_id) + ".json"@
}

/// The decimal numeral of `n`, with zeros in front up to six digits.
pub fn pad6(n: u64) -> (s: String)
    ensures
        s@ == padded6(n),
{
    let mut digits = String::new();
    push_decimal(&mut digits, n);
    assert(digits@ =~= decimal(n as nat));
    let chars = str_chars(digits.as_str());
    let mut out: Vec<char> = Vec::new();
    let need: usize = if chars.len() >= 6 {
        0
    } else {
        6 - chars.len()
    };
    let mut i: usize = 0;
    assert(out@ =~= Seq::new(0nat, |k: int| '0'));
    while i < need
        invariant
            i <= need,
            chars@ == decimal(n as nat),
            out@ == Seq::new(i as nat, |k: int| '0'),
        decreases need - i,
    {
        out.push('0');
        i += 1;
        assert(out@ =~= Seq::new(i as nat, |k: int| '0'));
    }
    let mut j: usize = 0;
    let ghost zeros = out@;
    assert(out@ =~= zeros + chars@.subrange(0, 0));
    while j < chars.len()
        invariant
            j <= chars.len(),
            chars@ == decimal(n as nat),
            out@ == zeros + chars@.subrange(0, j as int),
        decreases chars.len() - j,
    {
        out.push(chars[j]);
        j += 1;
        assert(out@ =~= zeros + chars@.subrange(0, j as int));
    }
    assert(chars@.subrange(0, chars.len() as int) =~= chars@);
    proof {
        if chars.len() >= 6 {
            assert(zeros =~= Seq::<char>::empty());
            assert(zeros + chars@ =~= chars@);
        }
    }
    chars_to_string(&out)
}

/// The name of the directory of the epoch `epoch_id`.
pub fn epoch_dir_name(epoch_id: u64) -> (s: String)
    ensures
        s@ == epoch_dir_text(epoch_id),
{
    pad6(epoch_id)
}

/// The name of the file of the record of `tx_id`.
pub fn tx_file_name(tx_id: u64) -> (s: String)
    ensures
        s@ == tx_file_text(tx_id),
{
    let mut s = "tx_".to_owned();
    s.append(pad6(tx_id).as_str());
    s.append(".json");
    s
}

/// The number that the digits `d` write, if they are decimal digits, at
/// least one, and the number fits in 64 bits.
pub open spec fn parsed_number(d: Seq<char>) -> Option<u64>
    decreases d.len(),
{
    if d.len() == 0 {
        None
    } else if !is_digit(d.last()) {
        None
    } else if d.len() == 1 {
        Some(digit_value(d.last()) as u64)
    } else {
        match parsed_number(d.drop_last()) {
            Some(n) => if n * 10 + digit_value(d.last()) <= u64::MAX {
                Some((n * 10 + digit_value(d.last())) as u64)
            } else {
                None
            },
            None => None,
        }
    }
}

/// Whether `c` is one of `0` to `9`.
pub open spec fn is_digit(c: char) -> bool {
    '0' <= c && c <= '9'
}

/// The value of the digit `c`.
pub open spec fn digit_value(c: char) -> int {
    c as u32 - '0' as u32
}

/// The number that `text` writes: decimal digits, with one `+` allowed in
/// front of them.
pub open spec fn parsed_unsigned(text: Seq<char>) -> Option<u64> {
    if text.len() > 0 && text[0] == '+' {
        parsed_number(text.skip(1))
    } else {
        parsed_number(text)
    }
}

/// Reads an unsigned number as `u64`'s own parser reads it.
pub fn parse_number(text: &str) -> (r: Option<u64>)
    ensures
        r == parsed_unsigned(text@),
{
    let chars = str_chars(text);
    if chars.len() > 0 && chars[0] == '+' {
        let mut rest: Vec<char> = Vec::new();
        let mut i: usize = 1;
        while i < chars.len()
            invariant
                1 <= i <= chars.len(),
                rest@ == chars@.subrange(1, i as int),
            decreases chars.len() - i,
        {
            rest.push(chars[i]);
            i += 1;
            assert(rest@ =~= chars@.subrange(1, i as int));
        }
        assert(rest@ =~= text@.skip(1));
        parse_digits(chars_to_string(&rest).as_str())
    } else {
        parse_digits(text)
    }
}

/// Reads a number written in decimal digits alone.
fn parse_digits(text: &str) -> (r: Option<u64>)
    ensures
        r == parsed_number(text@),
{
    let chars = str_chars(text);
    if chars.len() == 0 {
        return None;
    }
    let mut n: u64 = 0;
    let mut i: usize = 0;
    while i < chars.len()
        invariant
            i <= chars.len(),
            chars@ == text@,
            chars.len() > 0,
            i > 0 ==> parsed_number(chars@.subrange(0, i as int)) == Some(n),
        decreases chars.len() - i,
    {
        let c = chars[i];
        let ghost next = chars@.subrange(0, i + 1);
        proof {
            assert(next.drop_last() =~= chars@.subrange(0, i as int));
            assert(next.last() == c);
        }
        if !(c >= '0' && c <= '9') {
            proof {
                lemma_parse_prefix_none(chars@, i + 1);
            }
            return None;
        }
        let d: u64 = (c as u32 - '0' as u32) as u64;
        if i == 0 {
            n = d;
        } else {
            if n > (u64::MAX - d) / 10 {
                proof {
                    assert(n * 10 + d > u64::MAX) by (nonlinear_arith)
                        requires
                            n > (u64::MAX - d) / 10,
                            d <= 9,
                    ;
                    lemma_parse_prefix_none(chars@, i + 1);
                }
                return None;
            }
            assert(n * 10 + d <= u64::MAX) by (nonlinear_arith)
                requires
                    n <= (u64::MAX - d) / 10,
                    d <= 9,
            ;
            n = n * 10 + d;
        }
        i += 1;
    }
    assert(chars@.subrange(0, chars.len() as int) =~= chars@);
    Some(n)
}

/// Once a prefix does not parse, no longer prefix does.
pub proof fn lemma_parse_prefix_none(d: Seq<char>, k: int)
    requires
        0 < k <= d.len(),
        parsed_number(d.subrange(0, k)) is None,
    ensures
        parsed_number(d) is None,
    decreases d.len() - k,
{
    if k < d.len() {
        let next = d.subrange(0, k + 1);
        assert(next.drop_last() =~= d.subrange(0, k));
        lemma_parse_prefix_none(d, k + 1);
    } else {
        assert(d.subrange(0, k) =~= d);
    }
}

/// The pair that a line of the committed index stands for: `epoch:tx`, both
/// in decimal digits. A line of another shape stands for nothing.
pub open spec fn parsed_index_line(line: Seq<char>) -> Option<(u64, u64)> {
    match first_colon(line, 0) {
        Some(p) => match (parsed_unsigned(line.subrange(0, p)), parsed_unsigned(line.subrange(p + 1, line.len() as int))) {
            (Some(e), Some(t)) => Some((e, t)),
            _ => None,
        },
        None => None,
    }
}

/// The position of the first colon of `line` from `from` on.
pub open spec fn first_colon(line: Seq<char>, from: int) -> Option<int>
    decreases line.len() - from,
{
    if from < 0 || from >= line.len() {
        None
    } else if line[from] == ':' {
        Some(from)
    } else {
        first_colon(line, from + 1)
    }
}

/// Reads one line of the committed index.
pub fn parse_index_line(line: &str) -> (r: Option<(u64, u64)>)
    ensures
        r == parsed_index_line(line@),
{
    let chars = str_chars(line);
    let mut p: usize = 0;
    while p < chars.len() && chars[p] != ':'
        invariant
            p <= chars.len(),
            chars@ == line@,
            first_colon(chars@, 0) == first_colon(chars@, p as int),
        decreases chars.len() - p,
    {
        p += 1;
    }
    if p >= chars.len() {
        return None;
    }
    let mut left: Vec<char> = Vec::new();
    let mut i: usize = 0;
    while i < p
        invariant
            i <= p,
            p < chars.len(),
            left@ == chars@.subrange(0, i as int),
        decreases p - i,
    {
        left.push(chars[i]);
        i += 1;
        assert(left@ =~= chars@.subrange(0, i as int));
    }
    let mut right: Vec<char> = Vec::new();
    let mut j: usize = p + 1;
    assert(right@ =~= chars@.subrange(p + 1, p + 1));
    while j < chars.len()
        invariant
            p + 1 <= j <= chars.len(),
            right@ == chars@.subrange(p + 1, j as int),
        decreases chars.len() - j,
    {
        right.push(chars[j]);
        j += 1;
        assert(right@ =~= chars@.subrange(p + 1, j as int));
    }
    let e = parse_number(chars_to_string(&left).as_str());
    let t = parse_number(chars_to_string(&right).as_str());
    match (e, t) {
        (Some(e), Some(t)) => Some((e, t)),
        _ => None,
    }
}

/// The text of one line of the committed index.
pub fn index_line(epoch_id: u64, tx_id: u64) -> (s: String)
    ensures
        s@ == decimal(epoch_id as nat) + ":"@ + decimal(tx_id as nat),
{
    let mut s = String::new();
    push_decimal(&mut s, epoch_id);
    s.append(":");
    push_decimal(&mut s, tx_id);
    assert(s@ =~= decimal(epoch_id as nat) + ":"@ + decimal(tx_id as nat));
    s
}

} // verus!
