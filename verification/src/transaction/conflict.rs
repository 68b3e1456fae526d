//! Conflict detection between two transactions.
//!
//! A detector decides from the writes of two transactions whether they
//! conflict, and on which tables.

use vstd::prelude::*;
use crate::sets::StrSet;
use crate::strmap::sorted_strict;
use crate::text::{debug_list, debug_list_text, decimal, list_contains, push_decimal, str_eq};
use crate::transaction::types::{GranularityModel, RecordModel, TransactionRecord, WriteGranularity, WriteModel};

verus! {

/// A conflict between two transactions.
#[derive(Debug, Clone)]
pub struct Conflict {
    /// Tables on which the transactions conflict.
    pub tables: Vec<String>,
    /// Id of the first transaction.
    pub tx1_id: u64,
    /// Id of the second transaction.
    pub tx2_id: u64,
    /// The conflict in words.
    pub description: String,
}

/// The description of a conflict.
pub open spec fn conflict_text(tables: Seq<Seq<char>>, tx1_id: u64, tx2_id: u64) -> Seq<char> {
    "Write-write conflict on tables "@ + debug_list_text(tables) + " between tx "@ + decimal(
        tx1_id as nat,
    ) + " and tx "@ + decimal(tx2_id as nat)
}

impl Conflict {
    /// The conflict of the two transactions on `tables`.
    pub fn new(tables: Vec<String>, tx1_id: u64, tx2_id: u64) -> (c: Self)
        ensures
            c.tables == tables,
            c.tx1_id == tx1_id,
            c.tx2_id == tx2_id,
            c.description@ == conflict_text(tables.deep_view(), tx1_id, tx2_id),
    {
        let mut description = "Write-write conflict on tables ".to_owned();
        description.append(debug_list(&tables).as_str());
        description.append(" between tx ");
        push_decimal(&mut description, tx1_id);
        description.append(" and tx ");
        push_decimal(&mut description, tx2_id);
        Conflict { tables, tx1_id, tx2_id, description }
    }

    /// Whether the conflict is on `table`.
    pub fn involves_table(&self, table: &str) -> (r: bool)
        ensures
            r == self.tables.deep_view().contains(table@),
    {
        list_contains(&self.tables, table)
    }
}

/// Some write of `ws` is to `table`.
pub open spec fn writes_table(ws: Seq<WriteModel>, table: Seq<char>) -> bool {
    exists|i: int| 0 <= i < ws.len() && (#[trigger] ws[i]).table_name == table
}

/// Both transactions write `table`.
pub open spec fn both_write(tx1: RecordModel, tx2: RecordModel, table: Seq<char>) -> bool {
    writes_table(tx1.writes, table) && writes_table(tx2.writes, table)
}

/// Two writes to one table touch common data: always, unless both name
/// partitions and name no partition in common.
pub open spec fn granularities_overlap(a: GranularityModel, b: GranularityModel) -> bool {
    if a is Partitions && b is Partitions {
        share_partition(a->Partitions_0, b->Partitions_0)
    } else {
        true
    }
}

/// Some partition of `left` is a partition of `right`.
pub open spec fn share_partition(left: Seq<Seq<char>>, right: Seq<Seq<char>>) -> bool {
    exists|i: int| 0 <= i < left.len() && right.contains(#[trigger] left[i])
}

/// The writes `i` of `tx1` and `j` of `tx2` are to one table and overlap.
pub open spec fn writes_collide(tx1: RecordModel, tx2: RecordModel, i: int, j: int) -> bool {
    &&& 0 <= i < tx1.writes.len()
    &&& 0 <= j < tx2.writes.len()
    &&& tx1.writes[i].table_name == tx2.writes[j].table_name
    &&& granularities_overlap(tx1.writes[i].granularity, tx2.writes[j].granularity)
}

/// `(i, j)` is the first colliding pair of writes, going through the writes
/// of `tx1` and, for each, through those of `tx2`.
pub open spec fn first_collision(tx1: RecordModel, tx2: RecordModel, i: int, j: int) -> bool {
    &&& writes_collide(tx1, tx2, i, j)
    &&& forall|a: int, b: int| (0 <= a < i && 0 <= b < tx2.writes.len()) || (a == i && 0 <= b < j) ==> !#[trigger] writes_collide(tx1, tx2, a, b)
}

/// Some write of either transaction names partitions.
pub open spec fn any_partition_write(tx1: RecordModel, tx2: RecordModel) -> bool {
    (exists|i: int| 0 <= i < tx1.writes.len() && (#[trigger] tx1.writes[i]).granularity is Partitions)
        || (exists|i: int| 0 <= i < tx2.writes.len() && (#[trigger] tx2.writes[i]).granularity is Partitions)
}

/// A strategy that decides whether two transactions conflict.
pub trait ConflictDetector {
    /// Whether the two transactions conflict on `table`.
    spec fn conflicts_on(&self, tx1: RecordModel, tx2: RecordModel, table: Seq<char>) -> bool;

    /// The conflict of the two transactions, if they conflict: it names the
    /// two ids and at least one table, and only tables on which they
    /// conflict.
    fn detect(&self, tx1: &TransactionRecord, tx2: &TransactionRecord) -> (r: Option<Conflict>)
        ensures
            r is Some <==> exists|t: Seq<char>| self.conflicts_on(tx1@, tx2@, t),
            r matches Some(c) ==> {
                &&& c.tx1_id == tx1.tx_id
                &&& c.tx2_id == tx2.tx_id
                &&& c.tables@.len() > 0
                &&& forall|i: int| 0 <= i < c.tables@.len() ==> self.conflicts_on(tx1@, tx2@, #[trigger] c.tables.deep_view()[i])
                &&& c.description@ == conflict_text(c.tables.deep_view(), tx1.tx_id, tx2.tx_id)
            },
    ;

    /// The name of the strategy.
    fn name(&self) -> (r: &'static str)
    ;
}

/// The tables that both transactions write, sorted, if there is one.
pub fn detect_table_level(tx1: &TransactionRecord, tx2: &TransactionRecord) -> (r: Option<Conflict>)
    ensures
        r is Some <==> exists|t: Seq<char>| both_write(tx1@, tx2@, t),
        r matches Some(c) ==> {
            &&& c.tx1_id == tx1.tx_id
            &&& c.tx2_id == tx2.tx_id
            &&& sorted_strict(c.tables.deep_view())
            &&& forall|t: Seq<char>| c.tables.deep_view().contains(t) <==> both_write(tx1@, tx2@, t)
            &&& c.description@ == conflict_text(c.tables.deep_view(), tx1.tx_id, tx2.tx_id)
        },
{
    let mut second = StrSet::new();
    let mut j: usize = 0;
    while j < tx2.writes.len()
        invariant
            j <= tx2.writes.len(),
            forall|t: Seq<char>| second@.contains(t) <==> exists|b: int| 0 <= b < j && (#[trigger] tx2@.writes[b]).table_name == t,
        decreases tx2.writes.len() - j,
    {
        let ghost before = second@;
        second.insert(tx2.writes[j].table_name.clone());
        proof {
            assert(tx2@.writes[j as int].table_name == tx2.writes[j as int].table_name@);
            assert forall|t: Seq<char>| second@.contains(t) <==> exists|b: int| 0 <= b < j + 1 && (#[trigger] tx2@.writes[b]).table_name == t by {
                if before.contains(t) {
                    let b = choose|b: int| 0 <= b < j && (#[trigger] tx2@.writes[b]).table_name == t;
                    assert(0 <= b < j + 1 && tx2@.writes[b].table_name == t);
                }
                if exists|b: int| 0 <= b < j + 1 && (#[trigger] tx2@.writes[b]).table_name == t {
                    let b = choose|b: int| 0 <= b < j + 1 && (#[trigger] tx2@.writes[b]).table_name == t;
                    if b < j {
                        assert(0 <= b < j && tx2@.writes[b].table_name == t);
                    }
                }
            }
        }
        j += 1;
    }
    let mut common = StrSet::new();
    let mut i: usize = 0;
    while i < tx1.writes.len()
        invariant
            i <= tx1.writes.len(),
            forall|t: Seq<char>| second@.contains(t) <==> writes_table(tx2@.writes, t),
            forall|t: Seq<char>| common@.contains(t) <==> (second@.contains(t) && exists|a: int| 0 <= a < i && (#[trigger] tx1@.writes[a]).table_name == t),
        decreases tx1.writes.len() - i,
    {
        let ghost before = common@;
        let name = &tx1.writes[i].table_name;
        if second.contains(name.as_str()) {
            common.insert(name.clone());
        }
        proof {
            assert(tx1@.writes[i as int].table_name == name@);
            assert forall|t: Seq<char>| common@.contains(t) <==> (second@.contains(t) && exists|a: int| 0 <= a < i + 1 && (#[trigger] tx1@.writes[a]).table_name == t) by {
                if before.contains(t) {
                    let a = choose|a: int| 0 <= a < i && (#[trigger] tx1@.writes[a]).table_name == t;
                    assert(0 <= a < i + 1 && tx1@.writes[a].table_name == t);
                }
                if second@.contains(t) && exists|a: int| 0 <= a < i + 1 && (#[trigger] tx1@.writes[a]).table_name == t {
                    let a = choose|a: int| 0 <= a < i + 1 && (#[trigger] tx1@.writes[a]).table_name == t;
                    if a < i {
                        assert(0 <= a < i && tx1@.writes[a].table_name == t);
                    }
                }
            }
        }
        i += 1;
    }
    let tables = common.to_vec();
    proof {
        assert forall|t: Seq<char>| tables.deep_view().contains(t) <==> both_write(tx1@, tx2@, t) by {}
    }
    if tables.len() == 0 {
        proof {
            if exists|t: Seq<char>| both_write(tx1@, tx2@, t) {
                let t = choose|t: Seq<char>| both_write(tx1@, tx2@, t);
                assert(tables.deep_view().contains(t));
            }
        }
        None
    } else {
        proof {
            assert(tables.deep_view().contains(tables.deep_view()[0]));
        }
        Some(Conflict::new(tables, tx1.tx_id, tx2.tx_id))
    }
}

/// Whether two writes to one table touch common data.
fn overlap(a: &WriteGranularity, b: &WriteGranularity) -> (r: bool)
    ensures
        r == granularities_overlap(a@, b@),
{
    match (a, b) {
        (WriteGranularity::Partitions(left), WriteGranularity::Partitions(right)) => {
            let mut i: usize = 0;
            while i < left.len()
                invariant
                    i <= left.len(),
                    a@ == GranularityModel::Partitions(left.deep_view()),
                    b@ == GranularityModel::Partitions(right.deep_view()),
                    forall|k: int| 0 <= k < i ==> !right.deep_view().contains(#[trigger] left.deep_view()[k]),
                decreases left.len() - i,
            {
                if list_contains(right, left[i].as_str()) {
                    proof {
                        let d1 = left.deep_view();
                        assert(d1[i as int] == left[i as int]@);
                        let d2 = right.deep_view();
                        let w = i as int;
                        assert(0 <= w < d1.len() && d2.contains(d1[w]));
                        assert(exists|k: int| 0 <= k < d1.len() && d2.contains(#[trigger] d1[k]));
                    }
                    return true;
                }
                assert(left.deep_view()[i as int] == left[i as int]@);
                i += 1;
            }
            false
        },
        _ => true,
    }
}

/// The table of the first pair of writes, one of each transaction, that are
/// to one table and overlap, if there is such a pair.
pub fn detect_partition_level(tx1: &TransactionRecord, tx2: &TransactionRecord) -> (r: Option<Conflict>)
    ensures
        r is Some <==> exists|i: int, j: int| writes_collide(tx1@, tx2@, i, j),
        r matches Some(c) ==> {
            &&& c.tx1_id == tx1.tx_id
            &&& c.tx2_id == tx2.tx_id
            &&& c.tables@.len() == 1
            &&& exists|i: int, j: int| first_collision(tx1@, tx2@, i, j) && c.tables.deep_view()[0] == tx1@.writes[i].table_name
            &&& c.description@ == conflict_text(c.tables.deep_view(), tx1.tx_id, tx2.tx_id)
        },
{
    let mut i: usize = 0;
    while i < tx1.writes.len()
        invariant
            i <= tx1.writes.len(),
            forall|a: int, b: int| 0 <= a < i && 0 <= b < tx2.writes.len() ==> !#[trigger] writes_collide(tx1@, tx2@, a, b),
        decreases tx1.writes.len() - i,
    {
        let mut j: usize = 0;
        while j < tx2.writes.len()
            invariant
                i < tx1.writes.len(),
                j <= tx2.writes.len(),
                forall|a: int, b: int| 0 <= a < i && 0 <= b < tx2.writes.len() ==> !#[trigger] writes_collide(tx1@, tx2@, a, b),
                forall|b: int| 0 <= b < j ==> !#[trigger] writes_collide(tx1@, tx2@, i as int, b),
            decreases tx2.writes.len() - j,
        {
            let w1 = &tx1.writes[i];
            let w2 = &tx2.writes[j];
            proof {
                assert(tx1@.writes[i as int] == w1@);
                assert(tx2@.writes[j as int] == w2@);
            }
            if str_eq(w1.table_name.as_str(), w2.table_name.as_str()) && overlap(&w1.granularity, &w2.granularity) {
                let mut tables: Vec<String> = Vec::new();
                tables.push(w1.table_name.clone());
                proof {
                    assert(writes_collide(tx1@, tx2@, i as int, j as int));
                    assert(first_collision(tx1@, tx2@, i as int, j as int));
                    assert(tables.deep_view()[0] == tx1@.writes[i as int].table_name);
                }
                return Some(Conflict::new(tables, tx1.tx_id, tx2.tx_id));
            }
            j += 1;
        }
        i += 1;
    }
    None
}

/// Whether some write of the list names partitions.
fn has_partition_write(tx: &TransactionRecord) -> (r: bool)
    ensures
        r == (exists|i: int| 0 <= i < tx@.writes.len() && (#[trigger] tx@.writes[i]).granularity is Partitions),
{
    let mut i: usize = 0;
    while i < tx.writes.len()
        invariant
            i <= tx.writes.len(),
            forall|k: int| 0 <= k < i ==> !((#[trigger] tx@.writes[k]).granularity is Partitions),
        decreases tx.writes.len() - i,
    {
        assert(tx@.writes[i as int] == tx.writes[i as int]@);
        match &tx.writes[i].granularity {
            WriteGranularity::Partitions(_) => {
                return true;
            },
            _ => {},
        }
        i += 1;
    }
    false
}

/// Where a conflict lists exactly the tables that both transactions write,
/// it lists at least one table, and only such tables.
proof fn lemma_table_detect(tx1: RecordModel, tx2: RecordModel, r: Option<Conflict>)
    requires
        r is Some <==> exists|t: Seq<char>| both_write(tx1, tx2, t),
        r matches Some(c) ==> forall|t: Seq<char>| c.tables.deep_view().contains(t) <==> both_write(tx1, tx2, t),
    ensures
        r matches Some(c) ==> c.tables@.len() > 0 && forall|k: int| 0 <= k < c.tables@.len() ==> both_write(tx1, tx2, #[trigger] c.tables.deep_view()[k]),
{
    match r {
        Some(c) => {
            assert forall|k: int| 0 <= k < c.tables@.len() implies both_write(tx1, tx2, #[trigger] c.tables.deep_view()[k]) by {
                assert(c.tables.deep_view().contains(c.tables.deep_view()[k]));
            }
            let t = choose|t: Seq<char>| both_write(tx1, tx2, t);
            assert(c.tables.deep_view().contains(t));
        },
        None => {},
    }
}

/// Two transactions conflict if they write a common table.
#[derive(Debug, Clone, Copy)]
pub struct TableLevelConflictDetector;

impl TableLevelConflictDetector {
    /// The strategy.
    pub fn new() -> (r: Self) {
        TableLevelConflictDetector
    }
}

impl Default for TableLevelConflictDetector {
    fn default() -> (r: Self) {
        TableLevelConflictDetector
    }
}

impl ConflictDetector for TableLevelConflictDetector {
    open spec fn conflicts_on(&self, tx1: RecordModel, tx2: RecordModel, table: Seq<char>) -> bool {
        both_write(tx1, tx2, table)
    }

    fn detect(&self, tx1: &TransactionRecord, tx2: &TransactionRecord) -> (r: Option<Conflict>) {
        let r = detect_table_level(tx1, tx2);
        proof {
            lemma_table_detect(tx1@, tx2@, r);
            if exists|t: Seq<char>| self.conflicts_on(tx1@, tx2@, t) {
                let t = choose|t: Seq<char>| self.conflicts_on(tx1@, tx2@, t);
                assert(both_write(tx1@, tx2@, t));
            }
            if exists|t: Seq<char>| both_write(tx1@, tx2@, t) {
                let t = choose|t: Seq<char>| both_write(tx1@, tx2@, t);
                assert(self.conflicts_on(tx1@, tx2@, t));
            }
        }
        r
    }

    fn name(&self) -> (r: &'static str)
        ensures
            r@ == "TableLevelConflictDetector"@,
    {
        "TableLevelConflictDetector"
    }
}

/// Two transactions conflict if they write a common table and the two
/// writes overlap: a write of the whole table, or of row keys, overlaps
/// every write; two writes of partitions overlap if they share a partition.
#[derive(Debug, Clone, Copy)]
pub struct PartitionLevelConflictDetector;

impl PartitionLevelConflictDetector {
    /// The strategy.
    pub fn new() -> (r: Self) {
        PartitionLevelConflictDetector
    }
}

impl Default for PartitionLevelConflictDetector {
    fn default() -> (r: Self) {
        PartitionLevelConflictDetector
    }
}

/// Some pair of writes to `table`, one of each transaction, overlaps.
pub open spec fn collide_on(tx1: RecordModel, tx2: RecordModel, table: Seq<char>) -> bool {
    exists|i: int, j: int| #[trigger] writes_collide(tx1, tx2, i, j) && tx1.writes[i].table_name == table
}

impl ConflictDetector for PartitionLevelConflictDetector {
    open spec fn conflicts_on(&self, tx1: RecordModel, tx2: RecordModel, table: Seq<char>) -> bool {
        collide_on(tx1, tx2, table)
    }

    fn detect(&self, tx1: &TransactionRecord, tx2: &TransactionRecord) -> (r: Option<Conflict>) {
        let r = detect_partition_level(tx1, tx2);
        proof {
            lemma_partition_detect(tx1@, tx2@, r);
            if exists|t: Seq<char>| self.conflicts_on(tx1@, tx2@, t) {
                let t = choose|t: Seq<char>| self.conflicts_on(tx1@, tx2@, t);
                assert(collide_on(tx1@, tx2@, t));
            }
            if exists|t: Seq<char>| collide_on(tx1@, tx2@, t) {
                let t = choose|t: Seq<char>| collide_on(tx1@, tx2@, t);
                assert(self.conflicts_on(tx1@, tx2@, t));
            }
        }
        r
    }

    fn name(&self) -> (r: &'static str)
        ensures
            r@ == "PartitionLevelConflictDetector"@,
    {
        "PartitionLevelConflictDetector"
    }
}

/// A conflict on the table of the first pair of writes that collide names
/// a table on which the two transactions conflict.
proof fn lemma_partition_detect(tx1: RecordModel, tx2: RecordModel, r: Option<Conflict>)
    requires
        r is Some <==> exists|i: int, j: int| writes_collide(tx1, tx2, i, j),
        r matches Some(c) ==> c.tables@.len() == 1 && exists|i: int, j: int| first_collision(tx1, tx2, i, j) && c.tables.deep_view()[0] == tx1.writes[i].table_name,
    ensures
        r is Some <==> exists|t: Seq<char>| collide_on(tx1, tx2, t),
        r matches Some(c) ==> forall|k: int| 0 <= k < c.tables@.len() ==> collide_on(tx1, tx2, #[trigger] c.tables.deep_view()[k]),
{
    if exists|i: int, j: int| writes_collide(tx1, tx2, i, j) {
        let (i, j) = choose|i: int, j: int| writes_collide(tx1, tx2, i, j);
        assert(collide_on(tx1, tx2, tx1.writes[i].table_name));
    }
    if exists|t: Seq<char>| collide_on(tx1, tx2, t) {
        let t = choose|t: Seq<char>| collide_on(tx1, tx2, t);
        let (i, j) = choose|i: int, j: int| #[trigger] writes_collide(tx1, tx2, i, j) && tx1.writes[i].table_name == t;
        assert(writes_collide(tx1, tx2, i, j));
    }
    match r {
        Some(c) => {
            let (i, j) = choose|i: int, j: int| first_collision(tx1, tx2, i, j) && c.tables.deep_view()[0] == tx1.writes[i].table_name;
            assert(writes_collide(tx1, tx2, i, j));
        },
        None => {},
    }
}

/// Conflict detection by row keys. Until row keys are compared, two
/// transactions conflict as they do at table level.
#[derive(Debug, Clone, Copy)]
pub struct RowLevelConflictDetector;

impl RowLevelConflictDetector {
    /// The strategy.
    pub fn new() -> (r: Self) {
        RowLevelConflictDetector
    }
}

impl Default for RowLevelConflictDetector {
    fn default() -> (r: Self) {
        RowLevelConflictDetector
    }
}

impl ConflictDetector for RowLevelConflictDetector {
    open spec fn conflicts_on(&self, tx1: RecordModel, tx2: RecordModel, table: Seq<char>) -> bool {
        both_write(tx1, tx2, table)
    }

    fn detect(&self, tx1: &TransactionRecord, tx2: &TransactionRecord) -> (r: Option<Conflict>) {
        let d = TableLevelConflictDetector;
        let r = d.detect(tx1, tx2);
        proof {
            if exists|t: Seq<char>| self.conflicts_on(tx1@, tx2@, t) {
                let t = choose|t: Seq<char>| self.conflicts_on(tx1@, tx2@, t);
                assert(d.conflicts_on(tx1@, tx2@, t));
            }
            if exists|t: Seq<char>| d.conflicts_on(tx1@, tx2@, t) {
                let t = choose|t: Seq<char>| d.conflicts_on(tx1@, tx2@, t);
                assert(self.conflicts_on(tx1@, tx2@, t));
            }
        }
        r
    }

    fn name(&self) -> (r: &'static str)
        ensures
            r@ == "RowLevelConflictDetector"@,
    {
        "RowLevelConflictDetector"
    }
}

/// Detects at partition level where some write names partitions, and at
/// table level otherwise.
#[derive(Debug, Clone, Copy)]
pub struct AdaptiveConflictDetector;

impl AdaptiveConflictDetector {
    /// The strategy.
    pub fn new() -> (r: Self) {
        AdaptiveConflictDetector
    }
}

impl Default for AdaptiveConflictDetector {
    fn default() -> (r: Self) {
        AdaptiveConflictDetector
    }
}

impl ConflictDetector for AdaptiveConflictDetector {
    open spec fn conflicts_on(&self, tx1: RecordModel, tx2: RecordModel, table: Seq<char>) -> bool {
        if any_partition_write(tx1, tx2) {
            collide_on(tx1, tx2, table)
        } else {
            both_write(tx1, tx2, table)
        }
    }

    fn detect(&self, tx1: &TransactionRecord, tx2: &TransactionRecord) -> (r: Option<Conflict>) {
        if has_partition_write(tx1) || has_partition_write(tx2) {
            let d = PartitionLevelConflictDetector;
            let r = d.detect(tx1, tx2);
            proof {
                assert(any_partition_write(tx1@, tx2@));
                if exists|t: Seq<char>| self.conflicts_on(tx1@, tx2@, t) {
                    let t = choose|t: Seq<char>| self.conflicts_on(tx1@, tx2@, t);
                    assert(d.conflicts_on(tx1@, tx2@, t));
                }
                if exists|t: Seq<char>| d.conflicts_on(tx1@, tx2@, t) {
                    let t = choose|t: Seq<char>| d.conflicts_on(tx1@, tx2@, t);
                    assert(self.conflicts_on(tx1@, tx2@, t));
                }
            }
            r
        } else {
            let d = TableLevelConflictDetector;
            let r = d.detect(tx1, tx2);
            proof {
                assert(!any_partition_write(tx1@, tx2@));
                if exists|t: Seq<char>| self.conflicts_on(tx1@, tx2@, t) {
                    let t = choose|t: Seq<char>| self.conflicts_on(tx1@, tx2@, t);
                    assert(d.conflicts_on(tx1@, tx2@, t));
                }
                if exists|t: Seq<char>| d.conflicts_on(tx1@, tx2@, t) {
                    let t = choose|t: Seq<char>| d.conflicts_on(tx1@, tx2@, t);
                    assert(self.conflicts_on(tx1@, tx2@, t));
                }
            }
            r
        }
    }

    fn name(&self) -> (r: &'static str)
        ensures
            r@ == "AdaptiveConflictDetector"@,
    {
        "AdaptiveConflictDetector"
    }
}

} // verus!
