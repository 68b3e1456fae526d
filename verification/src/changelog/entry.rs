//! Entries of the changelog.

use vstd::prelude::*;
use crate::catalog::version::{clone_text_map, text_map};
use crate::strmap::StrMap;
use crate::text::{clone_strings, str_eq};
use crate::transaction::types::{RecordModel, TransactionRecord, WriteModel};

verus! {

/// What a table change is, over plain values.
pub struct ChangeModel {
    pub table_name: Seq<char>,
    pub old_version: Option<u64>,
    pub new_version: u64,
    pub chunk_hashes: Seq<Seq<char>>,
}

/// What one commit did to one table.
#[derive(Debug)]
pub struct TableChange {
    /// Table that changed.
    pub table_name: String,
    /// Version before the commit; `None` for the table's first appearance.
    pub old_version: Option<u64>,
    /// Version after the commit.
    pub new_version: u64,
    /// Chunk hashes of the new version.
    pub chunk_hashes: Vec<String>,
}

impl View for TableChange {
    type V = ChangeModel;

    open spec fn view(&self) -> ChangeModel {
        ChangeModel {
            table_name: self.table_name@,
            old_version: self.old_version,
            new_version: self.new_version,
            chunk_hashes: self.chunk_hashes.deep_view(),
        }
    }
}

impl Clone for TableChange {
    fn clone(&self) -> (r: Self)
        ensures
            r@ == self@,
    {
        TableChange {
            table_name: self.table_name.clone(),
            old_version: self.old_version,
            new_version: self.new_version,
            chunk_hashes: clone_strings(&self.chunk_hashes),
        }
    }
}

impl TableChange {
    /// The change of `table_name` from `old_version` to `new_version`.
    pub fn new(table_name: &str, old_version: Option<u64>, new_version: u64, chunk_hashes: Vec<String>) -> (r: Self)
        ensures
            r@ == (ChangeModel {
                table_name: table_name@,
                old_version,
                new_version,
                chunk_hashes: chunk_hashes.deep_view(),
            }),
    {
        TableChange { table_name: table_name.to_owned(), old_version, new_version, chunk_hashes }
    }

    /// Whether the table appears for the first time.
    pub fn is_new_table(&self) -> (r: bool)
        ensures
            r == (self@.old_version is None),
    {
        self.old_version.is_none()
    }

    /// Whether the two changes have the same contents.
    pub fn same_as(&self, other: &TableChange) -> (r: bool)
        ensures
            r == (self@ == other@),
    {
        let same_old = match (self.old_version, other.old_version) {
            (Some(a), Some(b)) => a == b,
            (None, None) => true,
            _ => false,
        };
        str_eq(self.table_name.as_str(), other.table_name.as_str()) && same_old && self.new_version
            == other.new_version && crate::text::strings_eq(&self.chunk_hashes, &other.chunk_hashes)
    }
}

/// The views of a list of changes.
pub open spec fn changes_view(cs: Seq<TableChange>) -> Seq<ChangeModel> {
    Seq::new(cs.len(), |i: int| cs[i]@)
}

/// What a changelog entry is, over plain values.
pub struct EntryModel {
    pub tx_id: u64,
    pub epoch_id: u64,
    pub committed_at: i64,
    pub branch: Seq<char>,
    pub changes: Seq<ChangeModel>,
    pub metadata: Map<Seq<char>, Seq<char>>,
}

/// One committed transaction, as the changelog shows it.
#[derive(Debug)]
pub struct ChangelogEntry {
    /// Id of the transaction.
    pub tx_id: u64,
    /// Epoch of the transaction.
    pub epoch_id: u64,
    /// Unix time of the commit.
    pub committed_at: i64,
    /// Branch of the commit.
    pub branch: String,
    /// The tables that the commit changed, one change per write.
    pub changes: Vec<TableChange>,
    /// Metadata of the transaction.
    pub metadata: StrMap<String>,
}

impl View for ChangelogEntry {
    type V = EntryModel;

    open spec fn view(&self) -> EntryModel {
        EntryModel {
            tx_id: self.tx_id,
            epoch_id: self.epoch_id,
            committed_at: self.committed_at,
            branch: self.branch@,
            changes: changes_view(self.changes@),
            metadata: text_map(self.metadata@),
        }
    }
}

/// The change that the write `w` makes, given the versions before it.
pub open spec fn change_of(w: WriteModel, previous: Map<Seq<char>, u64>) -> ChangeModel {
    ChangeModel {
        table_name: w.table_name,
        old_version: if previous.contains_key(w.table_name) {
            Some(previous[w.table_name])
        } else {
            None
        },
        new_version: w.new_version,
        chunk_hashes: w.chunk_hashes,
    }
}

/// The entry of the committed transaction `tx`, given the versions of the
/// tables before it. A record without commit time gives the time 0.
pub open spec fn entry_of(tx: RecordModel, previous: Map<Seq<char>, u64>) -> EntryModel {
    EntryModel {
        tx_id: tx.tx_id,
        epoch_id: tx.epoch_id,
        committed_at: match tx.committed_at {
            Some(t) => t,
            None => 0,
        },
        branch: tx.branch,
        changes: Seq::new(tx.writes.len(), |i: int| change_of(tx.writes[i], previous)),
        metadata: tx.metadata,
    }
}

/// Some change of the list is to `table`.
pub open spec fn changes_table(cs: Seq<ChangeModel>, table: Seq<char>) -> bool {
    exists|i: int| 0 <= i < cs.len() && (#[trigger] cs[i]).table_name == table
}

/// The index of the first change to `table` from `from` on; the length of
/// the list if there is none.
pub open spec fn first_change(cs: Seq<ChangeModel>, table: Seq<char>, from: int) -> int
    decreases cs.len() - from,
{
    if from < 0 || from >= cs.len() {
        cs.len() as int
    } else if cs[from].table_name == table {
        from
    } else {
        first_change(cs, table, from + 1)
    }
}

impl ChangelogEntry {
    /// An entry without changes or metadata.
    pub fn new(tx_id: u64, epoch_id: u64, committed_at: i64, branch: &str) -> (r: Self)
        ensures
            r@ == (EntryModel {
                tx_id,
                epoch_id,
                committed_at,
                branch: branch@,
                changes: Seq::empty(),
                metadata: Map::empty(),
            }),
    {
        let r = ChangelogEntry {
            tx_id,
            epoch_id,
            committed_at,
            branch: branch.to_owned(),
            changes: Vec::new(),
            metadata: StrMap::new(),
        };
        proof {
            assert(r@.changes =~= Seq::empty());
            assert(r@.metadata =~= Map::empty());
        }
        r
    }

    /// The entry of the committed transaction `tx`: one change per write,
    /// each with the version that `previous_versions` holds for its table.
    pub fn from_transaction(tx: &TransactionRecord, previous_versions: &StrMap<u64>) -> (r: Self)
        ensures
            r@ == entry_of(tx@, previous_versions@),
    {
        let mut changes: Vec<TableChange> = Vec::new();
        let mut i: usize = 0;
        while i < tx.writes.len()
            invariant
                i <= tx.writes.len(),
                changes.len() == i,
                forall|j: int| 0 <= j < i ==> (#[trigger] changes[j])@ == change_of(tx@.writes[j], previous_versions@),
            decreases tx.writes.len() - i,
        {
            let w = &tx.writes[i];
            assert(tx@.writes[i as int] == w@);
            let old_version = match previous_versions.get(w.table_name.as_str()) {
                Some(v) => Some(*v),
                None => None,
            };
            changes.push(
                TableChange {
                    table_name: w.table_name.clone(),
                    old_version,
                    new_version: w.new_version,
                    chunk_hashes: clone_strings(&w.chunk_hashes),
                },
            );
            i += 1;
        }
        let r = ChangelogEntry {
            tx_id: tx.tx_id,
            epoch_id: tx.epoch_id,
            committed_at: match tx.committed_at {
                Some(t) => t,
                None => 0,
            },
            branch: tx.branch.clone(),
            changes,
            metadata: clone_text_map(&tx.metadata),
        };
        assert(r@.changes =~= entry_of(tx@, previous_versions@).changes);
        r
    }

    /// Adds a change at the end.
    pub fn add_change(&mut self, change: TableChange)
        ensures
            final(self)@ == (EntryModel { changes: old(self)@.changes.push(change@), ..old(self)@ }),
    {
        self.changes.push(change);
        assert(self@.changes =~= old(self)@.changes.push(change@));
    }

    /// The names of the changed tables, one per change, in order.
    pub fn changed_tables(&self) -> (r: Vec<String>)
        ensures
            r.deep_view() == Seq::new(self@.changes.len(), |i: int| self@.changes[i].table_name),
    {
        let mut r: Vec<String> = Vec::new();
        let mut i: usize = 0;
        while i < self.changes.len()
            invariant
                i <= self.changes.len(),
                r.len() == i,
                forall|j: int| 0 <= j < i ==> r[j]@ == self.changes[j].table_name@,
            decreases self.changes.len() - i,
        {
            r.push(self.changes[i].table_name.clone());
            i += 1;
        }
        assert(r.deep_view() =~= Seq::new(self@.changes.len(), |i: int| self@.changes[i].table_name));
        r
    }

    /// Whether some change is to `table_name`.
    pub fn contains_table(&self, table_name: &str) -> (r: bool)
        ensures
            r == changes_table(self@.changes, table_name@),
    {
        let mut i: usize = 0;
        while i < self.changes.len()
            invariant
                i <= self.changes.len(),
                forall|j: int| 0 <= j < i ==> (#[trigger] self@.changes[j]).table_name != table_name@,
            decreases self.changes.len() - i,
        {
            assert(self@.changes[i as int] == self.changes[i as int]@);
            if str_eq(self.changes[i].table_name.as_str(), table_name) {
                return true;
            }
            i += 1;
        }
        false
    }

    /// The first change to `table_name`, if there is one.
    pub fn get_change(&self, table_name: &str) -> (r: Option<&TableChange>)
        ensures
            r is Some == changes_table(self@.changes, table_name@),
            r is Some ==> first_change(self@.changes, table_name@, 0) < self@.changes.len() && r->0@ == self@.changes[first_change(self@.changes, table_name@, 0)],
    {
        let mut i: usize = 0;
        while i < self.changes.len()
            invariant
                i <= self.changes.len(),
                forall|j: int| 0 <= j < i ==> (#[trigger] self@.changes[j]).table_name != table_name@,
                first_change(self@.changes, table_name@, 0) == first_change(self@.changes, table_name@, i as int),
            decreases self.changes.len() - i,
        {
            assert(self@.changes[i as int] == self.changes[i as int]@);
            if str_eq(self.changes[i].table_name.as_str(), table_name) {
                return Some(&self.changes[i]);
            }
            i += 1;
        }
        None
    }

    /// The number of changes.
    pub fn change_count(&self) -> (n: usize)
        ensures
            n == self@.changes.len(),
    {
        self.changes.len()
    }
}

} // verus!
