//! Local commit of algebraic transactions and the merge of the updates they
//! produce.
//!
//! A transaction whose operations are all conflict-free commits on one node
//! without coordination. Updates from different nodes are merged key by key
//! through the algebraic merge engine.

use vstd::prelude::*;
use crate::algebraic::merge::{merge_spec, AlgebraicMerger, MergeModel, MergeResult};
use crate::algebraic::types::{AlgebraicValue, OpType, ValueModel};
use crate::distributed::vector_clock::{causal_order, is_clock_max, time_at, CausalOrder, NodeId, VectorClock};
use crate::strmap::{lemma_sorted_distinct, sorted_strict, StrMap};
use crate::text::{clone_opt_string, clone_strings, debug_list, debug_list_text, join, joined, lex_lt, lemma_lex_total, opt_text};

verus! {

/// What an operation is, over plain values.
pub struct OperationModel {
    pub key: Seq<char>,
    pub op_type: OpType,
    pub value: ValueModel,
}

/// One algebraic operation: a key, an operation type and a value or delta.
#[derive(Debug, PartialEq, Eq)]
pub struct AlgebraicOperation {
    key: String,
    op_type: OpType,
    value: AlgebraicValue,
}

impl View for AlgebraicOperation {
    type V = OperationModel;

    closed spec fn view(&self) -> OperationModel {
        OperationModel { key: self.key@, op_type: self.op_type, value: self.value@ }
    }
}

impl Clone for AlgebraicOperation {
    fn clone(&self) -> (r: Self)
        ensures
            r@ == self@,
    {
        AlgebraicOperation { key: self.key.clone(), op_type: self.op_type, value: self.value.clone() }
    }
}

impl AlgebraicOperation {
    /// The operation of type `op_type` on `key` with `value`.
    pub fn new(key: &str, op_type: OpType, value: AlgebraicValue) -> (r: Self)
        ensures
            r@ == (OperationModel { key: key@, op_type, value: value@ }),
    {
        AlgebraicOperation { key: key.to_owned(), op_type, value }
    }

    /// The key.
    pub fn key(&self) -> (r: &str)
        ensures
            r@ == self@.key,
    {
        self.key.as_str()
    }

    /// The operation type.
    pub fn op_type(&self) -> (r: OpType)
        ensures
            r == self@.op_type,
    {
        self.op_type
    }

    /// The value.
    pub fn value(&self) -> (r: &AlgebraicValue)
        ensures
            r@ == self@.value,
    {
        &self.value
    }

    /// Whether the operation type is conflict-free.
    pub fn is_algebraic(&self) -> (r: bool)
        ensures
            r == self@.op_type.conflict_free(),
    {
        self.op_type.is_conflict_free()
    }
}

/// The models of a list of operations.
pub open spec fn ops_view(ops: Seq<AlgebraicOperation>) -> Seq<OperationModel> {
    Seq::new(ops.len(), |i: int| ops[i]@)
}

/// The keys of a list of operations.
pub open spec fn op_keys(ops: Seq<OperationModel>) -> Seq<Seq<char>> {
    Seq::new(ops.len(), |i: int| ops[i].key)
}

/// Every operation of the list is conflict-free.
pub open spec fn all_algebraic(ops: Seq<OperationModel>) -> bool {
    forall|i: int| 0 <= i < ops.len() ==> (#[trigger] ops[i]).op_type.conflict_free()
}

/// The operations of the list that are not conflict-free, in order.
pub open spec fn non_algebraic(ops: Seq<OperationModel>) -> Seq<OperationModel>
    decreases ops.len(),
{
    if ops.len() == 0 {
        Seq::empty()
    } else {
        let rest = non_algebraic(ops.drop_last());
        if ops.last().op_type.conflict_free() {
            rest
        } else {
            rest.push(ops.last())
        }
    }
}

/// A copy of a list of operations.
pub fn clone_operations(ops: &Vec<AlgebraicOperation>) -> (r: Vec<AlgebraicOperation>)
    ensures
        ops_view(r@) == ops_view(ops@),
{
    let mut r: Vec<AlgebraicOperation> = Vec::new();
    let mut i: usize = 0;
    while i < ops.len()
        invariant
            i <= ops.len(),
            r.len() == i,
            forall|j: int| 0 <= j < i ==> r[j]@ == ops[j]@,
        decreases ops.len() - i,
    {
        r.push(ops[i].clone());
        i += 1;
    }
    assert(ops_view(r@) =~= ops_view(ops@));
    r
}

/// A transaction: operations to be applied together, and free metadata.
#[derive(Debug)]
pub struct AlgebraicTransaction {
    operations: Vec<AlgebraicOperation>,
    metadata: StrMap<String>,
}

impl AlgebraicTransaction {
    /// The operations, in the order in which they were added.
    pub closed spec fn ops(&self) -> Seq<OperationModel> {
        ops_view(self.operations@)
    }

    /// The metadata.
    pub closed spec fn meta(&self) -> Map<Seq<char>, String> {
        self.metadata@
    }

    /// The transaction without operations or metadata.
    pub fn new() -> (r: Self)
        ensures
            r.ops() == Seq::<OperationModel>::empty(),
            r.meta() == Map::<Seq<char>, String>::empty(),
    {
        let r = AlgebraicTransaction { operations: Vec::new(), metadata: StrMap::new() };
        assert(r.ops() =~= Seq::<OperationModel>::empty());
        r
    }

    /// Adds `op` at the end.
    pub fn add_operation(&mut self, op: AlgebraicOperation)
        ensures
            final(self).ops() == old(self).ops().push(op@),
            final(self).meta() == old(self).meta(),
    {
        self.operations.push(op);
        assert(self.ops() =~= old(self).ops().push(op@));
    }

    /// Adds the operations of `ops` at the end, in order.
    pub fn add_operations(&mut self, ops: Vec<AlgebraicOperation>)
        ensures
            final(self).ops() == old(self).ops() + ops_view(ops@),
            final(self).meta() == old(self).meta(),
    {
        let mut ops = ops;
        let ghost added = ops_view(ops@);
        self.operations.append(&mut ops);
        assert(self.ops() =~= old(self).ops() + added);
    }

    /// The operations.
    pub fn operations(&self) -> (r: &Vec<AlgebraicOperation>)
        ensures
            ops_view(r@) == self.ops(),
    {
        &self.operations
    }

    /// The number of operations.
    pub fn len(&self) -> (n: usize)
        ensures
            n == self.ops().len(),
    {
        self.operations.len()
    }

    /// Whether the transaction has no operation.
    pub fn is_empty(&self) -> (r: bool)
        ensures
            r == (self.ops().len() == 0),
    {
        self.operations.len() == 0
    }

    /// Whether every operation is conflict-free.
    pub fn is_fully_algebraic(&self) -> (r: bool)
        ensures
            r == all_algebraic(self.ops()),
    {
        let mut i: usize = 0;
        while i < self.operations.len()
            invariant
                i <= self.operations.len(),
                forall|j: int| 0 <= j < i ==> (#[trigger] self.ops()[j]).op_type.conflict_free(),
            decreases self.operations.len() - i,
        {
            if !self.operations[i].is_algebraic() {
                assert(!self.ops()[i as int].op_type.conflict_free());
                return false;
            }
            i += 1;
        }
        true
    }

    /// The keys and types of the operations that are not conflict-free, in
    /// order.
    pub fn non_algebraic_operations(&self) -> (r: Vec<(String, OpType)>)
        ensures
            r.len() == non_algebraic(self.ops()).len(),
            forall|i: int| 0 <= i < r.len() ==> (#[trigger] r[i]).0@ == non_algebraic(self.ops())[i].key && r[i].1 == non_algebraic(self.ops())[i].op_type,
    {
        let mut r: Vec<(String, OpType)> = Vec::new();
        let mut i: usize = 0;
        let ghost all = self.ops();
        assert(all.subrange(0, 0) =~= Seq::<OperationModel>::empty());
        while i < self.operations.len()
            invariant
                i <= self.operations.len(),
                all == self.ops(),
                r.len() == non_algebraic(all.subrange(0, i as int)).len(),
                forall|j: int| 0 <= j < r.len() ==> (#[trigger] r[j]).0@ == non_algebraic(all.subrange(0, i as int))[j].key && r[j].1 == non_algebraic(all.subrange(0, i as int))[j].op_type,
            decreases self.operations.len() - i,
        {
            proof {
                let next = all.subrange(0, i + 1);
                assert(next.drop_last() =~= all.subrange(0, i as int));
                assert(next.last() == self.operations[i as int]@);
            }
            if !self.operations[i].is_algebraic() {
                r.push((self.operations[i].key.clone(), self.operations[i].op_type));
            }
            i += 1;
        }
        assert(all.subrange(0, all.len() as int) =~= all);
        r
    }

    /// The metadata.
    pub fn metadata(&self) -> (r: &StrMap<String>)
        ensures
            r@ == self.meta(),
    {
        &self.metadata
    }

    /// Sets a metadata entry.
    pub fn set_metadata(&mut self, key: &str, value: &str)
        ensures
            final(self).ops() == old(self).ops(),
            final(self).meta().dom() == old(self).meta().dom().insert(key@),
            final(self).meta()[key@]@ == value@,
            forall|k: Seq<char>| k != key@ && old(self).meta().contains_key(k) ==> final(self).meta()[k] == old(self).meta()[k],
    {
        self.metadata.insert(key.to_owned(), value.to_owned());
    }

    /// The metadata entry under `key`, if there is one.
    pub fn get_metadata(&self, key: &str) -> (r: Option<&str>)
        ensures
            r is Some == self.meta().contains_key(key@),
            r is Some ==> r->0@ == self.meta()[key@]@,
    {
        match self.metadata.get(key) {
            Some(v) => Some(v.as_str()),
            None => None,
        }
    }
}

impl Default for AlgebraicTransaction {
    fn default() -> (r: Self)
        ensures
            r.ops() == Seq::<OperationModel>::empty(),
    {
        AlgebraicTransaction::new()
    }
}

/// What a versioned update is, over plain values.
pub struct UpdateModel {
    pub operations: Seq<OperationModel>,
    pub clock: Map<Seq<char>, u64>,
    pub origin: Seq<char>,
    pub update_id: Option<Seq<char>>,
}

/// Committed operations with the clock at commit and the node of origin.
#[derive(Debug)]
pub struct VersionedUpdate {
    operations: Vec<AlgebraicOperation>,
    clock: VectorClock,
    origin_node: NodeId,
    update_id: Option<String>,
}

impl View for VersionedUpdate {
    type V = UpdateModel;

    closed spec fn view(&self) -> UpdateModel {
        UpdateModel {
            operations: ops_view(self.operations@),
            clock: self.clock@,
            origin: self.origin_node@,
            update_id: opt_text(self.update_id),
        }
    }
}

impl Clone for VersionedUpdate {
    fn clone(&self) -> (r: Self)
        ensures
            r@ == self@,
    {
        VersionedUpdate {
            operations: clone_operations(&self.operations),
            clock: self.clock.clone(),
            origin_node: self.origin_node.clone(),
            update_id: clone_opt_string(&self.update_id),
        }
    }
}

impl VersionedUpdate {
    /// An update without an explicit id.
    pub fn new(operations: Vec<AlgebraicOperation>, clock: VectorClock, origin_node: NodeId) -> (r: Self)
        ensures
            r@ == (UpdateModel {
                operations: ops_view(operations@),
                clock: clock@,
                origin: origin_node@,
                update_id: None,
            }),
    {
        VersionedUpdate { operations, clock, origin_node, update_id: None }
    }

    /// An update with the explicit id `update_id`.
    pub fn with_id(operations: Vec<AlgebraicOperation>, clock: VectorClock, origin_node: NodeId, update_id: &str) -> (r: Self)
        ensures
            r@ == (UpdateModel {
                operations: ops_view(operations@),
                clock: clock@,
                origin: origin_node@,
                update_id: Some(update_id@),
            }),
    {
        VersionedUpdate { operations, clock, origin_node, update_id: Some(update_id.to_owned()) }
    }

    /// The operations.
    pub fn operations(&self) -> (r: &Vec<AlgebraicOperation>)
        ensures
            ops_view(r@) == self@.operations,
    {
        &self.operations
    }

    /// The clock at commit.
    pub fn clock(&self) -> (r: &VectorClock)
        ensures
            r@ == self@.clock,
    {
        &self.clock
    }

    /// The node of origin.
    pub fn origin_node(&self) -> (r: &NodeId)
        ensures
            r@ == self@.origin,
    {
        &self.origin_node
    }

    /// The explicit id, if one was given.
    pub fn update_id(&self) -> (r: Option<&str>)
        ensures
            r is Some == self@.update_id is Some,
            r is Some ==> r->0@ == self@.update_id->0,
    {
        match &self.update_id {
            Some(s) => Some(s.as_str()),
            None => None,
        }
    }

    /// How this update's clock relates to that of `other`.
    pub fn compare(&self, other: &VersionedUpdate) -> (r: CausalOrder)
        ensures
            r == causal_order(self@.clock, other@.clock),
    {
        self.clock.compare(&other.clock)
    }

    /// Whether the two updates are concurrent.
    pub fn is_concurrent_with(&self, other: &VersionedUpdate) -> (r: bool)
        ensures
            r == (causal_order(self@.clock, other@.clock) == CausalOrder::Concurrent),
    {
        self.clock.concurrent_with(&other.clock)
    }
}

/// What a commit error is, over plain values.
pub enum CommitErrorModel {
    NonAlgebraic { keys: Seq<Seq<char>>, message: Seq<char> },
    EmptyTransaction,
    MergeFailed { key: Seq<char>, reason: Seq<char> },
    TypeMismatch { key: Seq<char>, type1: Seq<char>, type2: Seq<char> },
}

/// Why a local commit or a merge of updates failed.
#[derive(Debug, Clone, PartialEq, Eq)]
pub enum LocalCommitError {
    /// The transaction holds operations that are not conflict-free.
    NonAlgebraic { keys: Vec<String>, message: String },
    /// The transaction, or the list of updates, is empty.
    EmptyTransaction,
    /// The operations on a key could not be merged.
    MergeFailed { key: String, reason: String },
    /// The values on a key have types that the operation cannot combine.
    TypeMismatch { key: String, type1: &'static str, type2: &'static str },
}

impl View for LocalCommitError {
    type V = CommitErrorModel;

    open spec fn view(&self) -> CommitErrorModel {
        match self {
            LocalCommitError::NonAlgebraic { keys, message } => CommitErrorModel::NonAlgebraic {
                keys: keys.deep_view(),
                message: message@,
            },
            LocalCommitError::EmptyTransaction => CommitErrorModel::EmptyTransaction,
            LocalCommitError::MergeFailed { key, reason } => CommitErrorModel::MergeFailed {
                key: key@,
                reason: reason@,
            },
            LocalCommitError::TypeMismatch { key, type1, type2 } => CommitErrorModel::TypeMismatch {
                key: key@,
                type1: type1@,
                type2: type2@,
            },
        }
    }
}

impl CommitErrorModel {
    /// The message of the error.
    pub open spec fn text(self) -> Seq<char> {
        match self {
            CommitErrorModel::NonAlgebraic { keys, message } => "Non-algebraic operations on keys "@
                + debug_list_text(keys) + ": "@ + message,
            CommitErrorModel::EmptyTransaction => "Transaction is empty"@,
            CommitErrorModel::MergeFailed { key, reason } => "Merge failed for key '"@ + key + "': "@
                + reason,
            CommitErrorModel::TypeMismatch { key, type1, type2 } => "Type mismatch for key '"@ + key
                + "': "@ + type1 + " vs "@ + type2,
        }
    }
}

impl LocalCommitError {
    /// The message of the error.
    pub fn to_string(&self) -> (s: String)
        ensures
            s@ == self@.text(),
    {
        match self {
            LocalCommitError::NonAlgebraic { keys, message } => {
                let mut s = "Non-algebraic operations on keys ".to_owned();
                s.append(debug_list(keys).as_str());
                s.append(": ");
                s.append(message.as_str());
                s
            },
            LocalCommitError::EmptyTransaction => "Transaction is empty".to_owned(),
            LocalCommitError::MergeFailed { key, reason } => {
                let mut s = "Merge failed for key '".to_owned();
                s.append(key.as_str());
                s.append("': ");
                s.append(reason.as_str());
                s
            },
            LocalCommitError::TypeMismatch { key, type1, type2 } => {
                let mut s = "Type mismatch for key '".to_owned();
                s.append(key.as_str());
                s.append("': ");
                s.append(type1);
                s.append(" vs ");
                s.append(type2);
                s
            },
        }
    }
}

/// The operations of `all` on `key`, in order.
pub open spec fn group_of(all: Seq<OperationModel>, key: Seq<char>) -> Seq<OperationModel>
    decreases all.len(),
{
    if all.len() == 0 {
        Seq::empty()
    } else {
        let rest = group_of(all.drop_last(), key);
        if all.last().key == key {
            rest.push(all.last())
        } else {
            rest
        }
    }
}

/// Some operation of `all` is on `key`.
pub open spec fn has_key(all: Seq<OperationModel>, key: Seq<char>) -> bool {
    exists|i: int| 0 <= i < all.len() && (#[trigger] all[i]).key == key
}

/// A key on which no operation of the list stands has an empty group.
pub proof fn lemma_group_of_absent(all: Seq<OperationModel>, key: Seq<char>)
    requires
        !has_key(all, key),
    ensures
        group_of(all, key) == Seq::<OperationModel>::empty(),
    decreases all.len(),
{
    if all.len() > 0 {
        let rest = all.drop_last();
        assert(all[all.len() - 1].key != key);
        assert(!has_key(rest, key)) by {
            if has_key(rest, key) {
                let i = choose|i: int| 0 <= i < rest.len() && (#[trigger] rest[i]).key == key;
                assert(all[i].key == key);
            }
        }
        lemma_group_of_absent(rest, key);
    }
}

/// A key on which an operation of the list stands has a group that is not empty.
pub proof fn lemma_group_of_present(all: Seq<OperationModel>, key: Seq<char>)
    requires
        has_key(all, key),
    ensures
        group_of(all, key).len() > 0,
        forall|i: int| 0 <= i < group_of(all, key).len() ==> (#[trigger] group_of(all, key)[i]).key == key,
    decreases all.len(),
{
    lemma_group_keys(all, key);
    if all.len() > 0 {
        let rest = all.drop_last();
        if all.last().key != key {
            assert(has_key(rest, key)) by {
                let i = choose|i: int| 0 <= i < all.len() && (#[trigger] all[i]).key == key;
                assert(rest[i].key == key);
            }
            lemma_group_of_present(rest, key);
        }
    }
}

/// Every operation of the group of a key stands on that key.
pub proof fn lemma_group_keys(all: Seq<OperationModel>, key: Seq<char>)
    ensures
        forall|i: int| 0 <= i < group_of(all, key).len() ==> (#[trigger] group_of(all, key)[i]).key == key,
    decreases all.len(),
{
    if all.len() > 0 {
        lemma_group_keys(all.drop_last(), key);
    }
}

/// The values of a list of operations.
pub open spec fn values_of(ops: Seq<OperationModel>) -> Seq<ValueModel> {
    Seq::new(ops.len(), |i: int| ops[i].value)
}

/// Merges `vals` into `acc` one after the other under `op`; stops at the
/// first merge that does not give a value.
pub open spec fn fold_values(op: OpType, acc: ValueModel, vals: Seq<ValueModel>) -> MergeModel
    decreases vals.len(),
{
    if vals.len() == 0 {
        MergeModel::Merged(acc)
    } else {
        match merge_spec(op, acc, vals[0]) {
            MergeModel::Merged(v) => fold_values(op, v, vals.drop_first()),
            other => other,
        }
    }
}

/// The least index from `from` on whose operation type differs from that of
/// the first operation; the length of the list if there is none.
pub open spec fn first_clash(ops: Seq<OperationModel>, from: int) -> int
    decreases ops.len() - from,
{
    if from >= ops.len() || from < 0 {
        ops.len() as int
    } else if ops[from].op_type != ops[0].op_type {
        from
    } else {
        first_clash(ops, from + 1)
    }
}

/// The reason given when two operations on one key differ in type.
pub open spec fn type_clash_text(first: OpType, other: OpType) -> Seq<char> {
    "Conflicting operation types: "@ + first.label() + " vs "@ + other.label()
}

/// The merge of the operations `ops`, all on `key`, into one.
///
/// The list must not be empty and all operations must have the type of the
/// first; then the values are merged in order, and the first merge that
/// fails decides the error.
pub open spec fn merge_group(key: Seq<char>, ops: Seq<OperationModel>) -> Result<OperationModel, CommitErrorModel> {
    if ops.len() == 0 {
        Err(CommitErrorModel::MergeFailed { key, reason: "No operations to merge"@ })
    } else if first_clash(ops, 1) < ops.len() {
        Err(
            CommitErrorModel::MergeFailed {
                key,
                reason: type_clash_text(ops[0].op_type, ops[first_clash(ops, 1)].op_type),
            },
        )
    } else {
        match fold_values(ops[0].op_type, ops[0].value, values_of(ops.skip(1))) {
            MergeModel::Merged(v) => Ok(OperationModel { key, op_type: ops[0].op_type, value: v }),
            MergeModel::Conflict { value1, value2, reason } => Err(
                CommitErrorModel::MergeFailed { key, reason },
            ),
            MergeModel::TypeMismatch { type1, type2, operation } => Err(
                CommitErrorModel::TypeMismatch { key, type1, type2 },
            ),
        }
    }
}

/// What the merged update holds for `key`: the only operation on the key as
/// it is, or the merge of all operations on it.
pub open spec fn merge_key(all: Seq<OperationModel>, key: Seq<char>) -> Result<OperationModel, CommitErrorModel> {
    let g = group_of(all, key);
    if g.len() == 1 {
        Ok(g[0])
    } else {
        merge_group(key, g)
    }
}

/// `out` is the merge of `all`: one operation per key, sorted by key, each
/// the merge of the operations on its key.
pub open spec fn merged_ops_are(all: Seq<OperationModel>, out: Seq<OperationModel>) -> bool {
    &&& sorted_strict(op_keys(out))
    &&& forall|k: Seq<char>| op_keys(out).contains(k) <==> has_key(all, k)
    &&& forall|i: int| 0 <= i < out.len() ==> merge_key(all, (#[trigger] out[i]).key) == Ok::<OperationModel, CommitErrorModel>(out[i])
}

/// `e` is the error of the first key, in sorted order, whose operations do
/// not merge.
pub open spec fn first_merge_error(all: Seq<OperationModel>, e: CommitErrorModel) -> bool {
    exists|k: Seq<char>|
        {
            &&& has_key(all, k)
            &&& #[trigger] merge_key(all, k) == Err::<OperationModel, CommitErrorModel>(e)
            &&& forall|k2: Seq<char>| has_key(all, k2) && lex_lt(k2, k) ==> (#[trigger] merge_key(all, k2)) is Ok
        }
}

/// Every key of `all` merges.
pub open spec fn all_keys_merge(all: Seq<OperationModel>) -> bool {
    forall|k: Seq<char>| has_key(all, k) ==> (#[trigger] merge_key(all, k)) is Ok
}

/// The operations of all updates of the list, in order.
pub open spec fn all_ops(updates: Seq<VersionedUpdate>) -> Seq<OperationModel>
    decreases updates.len(),
{
    if updates.len() == 0 {
        Seq::empty()
    } else {
        all_ops(updates.drop_last()) + updates.last()@.operations
    }
}

/// The pointwise maximum of the clocks of all updates of the list.
pub open spec fn is_clock_max_of(c: Map<Seq<char>, u64>, updates: Seq<VersionedUpdate>) -> bool {
    &&& forall|n: Seq<char>| c.contains_key(n) <==> exists|i: int| 0 <= i < updates.len() && (#[trigger] updates[i])@.clock.contains_key(n)
    &&& forall|n: Seq<char>, i: int| 0 <= i < updates.len() ==> time_at((#[trigger] updates[i])@.clock, n) <= #[trigger] time_at(c, n)
    &&& forall|n: Seq<char>| c.contains_key(n) ==> exists|i: int| 0 <= i < updates.len() && time_at((#[trigger] updates[i])@.clock, n) == time_at(c, n)
}

/// The names of the origins of the updates, in order.
pub open spec fn origins_of(updates: Seq<VersionedUpdate>) -> Seq<Seq<char>> {
    Seq::new(updates.len(), |i: int| updates[i]@.origin)
}

/// The message of a commit that non-conflict-free operations stop.
pub open spec fn coordination_text(ops: Seq<OperationModel>) -> Seq<char> {
    "Operations "@ + joined(Seq::new(ops.len(), |i: int| ops[i].op_type.label()), ", "@)
        + " require coordination"@
}

/// The protocol: local commit and the merge of updates.
pub struct LocalCommitProtocol;

impl LocalCommitProtocol {
    /// Whether `tx` can commit without coordination: it is not empty and
    /// every operation is conflict-free.
    pub fn can_commit_locally(tx: &AlgebraicTransaction) -> (r: bool)
        ensures
            r == (tx.ops().len() > 0 && all_algebraic(tx.ops())),
    {
        !tx.is_empty() && tx.is_fully_algebraic()
    }

    /// Commits `tx` on the node `node_id`.
    ///
    /// An empty transaction and one with an operation that is not
    /// conflict-free are refused, and the clock stays as it was. Otherwise the
    /// clock advances at this node and the update carries the operations, the
    /// advanced clock and the node.
    pub fn commit_local(tx: &AlgebraicTransaction, node_id: &NodeId, clock: &mut VectorClock) -> (r: Result<VersionedUpdate, LocalCommitError>)
        ensures
            r is Ok <==> tx.ops().len() > 0 && all_algebraic(tx.ops()),
            r matches Ok(u) ==> {
                &&& u@.operations == tx.ops()
                &&& u@.clock == final(clock)@
                &&& u@.origin == node_id@
                &&& u@.update_id is None
                &&& final(clock)@ == old(clock)@.insert(
                    node_id@,
                    if old(clock).at(node_id@) < u64::MAX {
                        (old(clock).at(node_id@) + 1) as u64
                    } else {
                        u64::MAX
                    },
                )
            },
            r matches Err(e) ==> {
                &&& final(clock)@ == old(clock)@
                &&& tx.ops().len() == 0 ==> e@ == CommitErrorModel::EmptyTransaction
                &&& tx.ops().len() > 0 ==> e@ == (CommitErrorModel::NonAlgebraic {
                    keys: op_keys(non_algebraic(tx.ops())),
                    message: coordination_text(non_algebraic(tx.ops())),
                })
            },
    {
        if tx.is_empty() {
            return Err(LocalCommitError::EmptyTransaction);
        }
        if !tx.is_fully_algebraic() {
            let non_alg = tx.non_algebraic_operations();
            let mut keys: Vec<String> = Vec::new();
            let mut labels: Vec<String> = Vec::new();
            let mut i: usize = 0;
            let ghost bad = non_algebraic(tx.ops());
            while i < non_alg.len()
                invariant
                    i <= non_alg.len(),
                    keys.len() == i,
                    labels.len() == i,
                    non_alg.len() == bad.len(),
                    forall|j: int| 0 <= j < non_alg.len() ==> (#[trigger] non_alg[j]).0@ == bad[j].key && non_alg[j].1 == bad[j].op_type,
                    forall|j: int| 0 <= j < i ==> keys[j]@ == bad[j].key && labels[j]@ == bad[j].op_type.label(),
                decreases non_alg.len() - i,
            {
                keys.push(non_alg[i].0.clone());
                labels.push(non_alg[i].1.to_string());
                i += 1;
            }
            let mut message = "Operations ".to_owned();
            message.append(join(&labels, ", ").as_str());
            message.append(" require coordination");
            proof {
                assert(keys.deep_view() =~= op_keys(bad));
                assert(labels.deep_view() =~= Seq::new(bad.len(), |i: int| bad[i].op_type.label()));
            }
            return Err(LocalCommitError::NonAlgebraic { keys, message });
        }
        clock.tick(node_id);
        Ok(VersionedUpdate::new(clone_operations(tx.operations()), clock.clone(), node_id.clone()))
    }

    /// Merges two updates into one.
    ///
    /// The operations of both are grouped by key; a key with one operation
    /// keeps it, a key with several gets their merge. The result lists one
    /// operation per key, sorted by key; its clock is the pointwise maximum
    /// of the two clocks and its origin names both origins.
    pub fn merge_updates(update1: &VersionedUpdate, update2: &VersionedUpdate) -> (r: Result<VersionedUpdate, LocalCommitError>)
        ensures
            r is Ok <==> all_keys_merge(update1@.operations + update2@.operations),
            r matches Ok(u) ==> {
                &&& merged_ops_are(update1@.operations + update2@.operations, u@.operations)
                &&& is_clock_max(u@.clock, update1@.clock, update2@.clock)
                &&& u@.origin == "merged:"@ + update1@.origin + "+"@ + update2@.origin
                &&& u@.update_id is None
            },
            r matches Err(e) ==> first_merge_error(update1@.operations + update2@.operations, e@),
    {
        let mut all = clone_operations(&update1.operations);
        let mut second = clone_operations(&update2.operations);
        let ghost a0 = ops_view(all@);
        let ghost b0 = ops_view(second@);
        all.append(&mut second);
        assert(ops_view(all@) =~= a0 + b0);
        let merged_ops = match Self::merge_operations(&all) {
            Ok(ops) => ops,
            Err(e) => {
                return Err(e);
            },
        };
        let merged_clock = VectorClock::max(&update1.clock, &update2.clock);
        let mut origin = "merged:".to_owned();
        origin.append(update1.origin_node.as_str());
        origin.append("+");
        origin.append(update2.origin_node.as_str());
        Ok(VersionedUpdate::new(merged_ops, merged_clock, NodeId::new(origin.as_str())))
    }

    /// Merges the operations `ops`, which are all on `key`, into one.
    pub fn merge_operations_for_key(key: &str, ops: &Vec<AlgebraicOperation>) -> (r: Result<AlgebraicOperation, LocalCommitError>)
        ensures
            r is Ok == merge_group(key@, ops_view(ops@)) is Ok,
            r matches Ok(op) ==> merge_group(key@, ops_view(ops@)) == Ok::<OperationModel, CommitErrorModel>(op@),
            r matches Err(e) ==> merge_group(key@, ops_view(ops@)) == Err::<OperationModel, CommitErrorModel>(e@),
    {
        let ghost models = ops_view(ops@);
        if ops.len() == 0 {
            return Err(
                LocalCommitError::MergeFailed {
                    key: key.to_owned(),
                    reason: "No operations to merge".to_owned(),
                },
            );
        }
        let op_type = ops[0].op_type();
        let mut i: usize = 1;
        while i < ops.len()
            invariant
                1 <= i <= ops.len(),
                models == ops_view(ops@),
                op_type == models[0].op_type,
                first_clash(models, 1) == first_clash(models, i as int),
            decreases ops.len() - i,
        {
            assert(models[i as int] == ops[i as int]@);
            if ops[i].op_type() != op_type {
                let mut reason = "Conflicting operation types: ".to_owned();
                reason.append(op_type.as_str());
                reason.append(" vs ");
                reason.append(ops[i].op_type().as_str());
                return Err(LocalCommitError::MergeFailed { key: key.to_owned(), reason });
            }
            i += 1;
        }
        let ghost vals = values_of(models.skip(1));
        let mut result_value = ops[0].value().clone();
        let mut j: usize = 1;
        proof {
            assert(vals.skip(0) =~= vals);
        }
        while j < ops.len()
            invariant
                1 <= j <= ops.len(),
                models == ops_view(ops@),
                vals == values_of(models.skip(1)),
                op_type == models[0].op_type,
                first_clash(models, 1) == models.len(),
                fold_values(op_type, models[0].value, vals) == fold_values(op_type, result_value@, vals.skip(j - 1)),
            decreases ops.len() - j,
        {
            let ghost rest = vals.skip(j - 1);
            proof {
                assert(models[j as int] == ops[j as int]@);
                assert(rest[0] == models[j as int].value);
                assert(rest.drop_first() =~= vals.skip(j as int));
            }
            let merge_result = AlgebraicMerger::merge(op_type, &result_value, ops[j].value());
            match merge_result {
                MergeResult::Merged(v) => {
                    result_value = v;
                },
                MergeResult::Conflict { value1, value2, reason } => {
                    return Err(LocalCommitError::MergeFailed { key: key.to_owned(), reason });
                },
                MergeResult::TypeMismatch { type1, type2, operation } => {
                    return Err(LocalCommitError::TypeMismatch { key: key.to_owned(), type1, type2 });
                },
            }
            j += 1;
        }
        Ok(AlgebraicOperation::new(key, op_type, result_value))
    }

    /// Groups `all` by key and merges each group.
    pub fn merge_operations(all: &Vec<AlgebraicOperation>) -> (r: Result<Vec<AlgebraicOperation>, LocalCommitError>)
        ensures
            r is Ok <==> all_keys_merge(ops_view(all@)),
            r matches Ok(ops) ==> merged_ops_are(ops_view(all@), ops_view(ops@)),
            r matches Err(e) ==> first_merge_error(ops_view(all@), e@),
    {
        let ghost models = ops_view(all@);
        let groups = group_operations(all);
        let n = groups.len();
        let ghost keys = groups.keys_seq();
        proof {
            groups.lemma_dom();
            assert forall|k: Seq<char>| has_key(models, k) <==> keys.contains(k) by {
                assert(groups@.dom().contains(k) == keys.to_set().contains(k));
            }
        }
        let mut out: Vec<AlgebraicOperation> = Vec::new();
        let mut i: usize = 0;
        while i < n
            invariant
                i <= n,
                n == keys.len(),
                keys == groups.keys_seq(),
                models == ops_view(all@),
                groups.wf(),
                out.len() == i,
                forall|k: Seq<char>| has_key(models, k) <==> keys.contains(k),
                forall|k: Seq<char>| #[trigger] groups@.contains_key(k) ==> ops_view(groups@[k]@) == group_of(models, k),
                forall|j: int| 0 <= j < i ==> (#[trigger] out[j])@.key == keys[j] && merge_key(models, keys[j]) == Ok::<OperationModel, CommitErrorModel>(out[j]@),
            decreases n - i,
        {
            let key = groups.key_at(i);
            let ops = groups.value_at(i);
            assert(groups@.contains_key(key@));
            assert(ops_view(ops@) == group_of(models, key@));
            let merged = if ops.len() == 1 {
                assert(ops_view(ops@)[0] == ops[0]@);
                Ok(ops[0].clone())
            } else {
                Self::merge_operations_for_key(key.as_str(), ops)
            };
            match merged {
                Ok(op) => {
                    proof {
                        assert(keys.contains(key@));
                        lemma_group_of_present(models, key@);
                        assert(op@.key == key@);
                    }
                    out.push(op);
                },
                Err(e) => {
                    proof {
                        assert(keys.contains(key@));
                        assert(merge_key(models, key@) == Err::<OperationModel, CommitErrorModel>(e@));
                        assert forall|k2: Seq<char>| has_key(models, k2) && lex_lt(k2, key@) implies (#[trigger] merge_key(models, k2)) is Ok by {
                            assert(keys.contains(k2));
                            let j = keys.index_of(k2);
                            assert(0 <= j < keys.len() && keys[j] == k2);
                            crate::text::lemma_lex_asymmetric(k2, key@);
                            if j > i {
                                assert(lex_lt(keys[i as int], keys[j]));
                            }
                            assert(j < i);
                            assert(out[j]@.key == keys[j]);
                        }
                        assert(!(merge_key(models, key@) is Ok));
                    }
                    return Err(e);
                },
            }
            i += 1;
        }
        proof {
            let outs = ops_view(out@);
            assert(op_keys(outs) =~= keys);
            assert forall|j: int| 0 <= j < outs.len() implies merge_key(models, (#[trigger] outs[j]).key) == Ok::<OperationModel, CommitErrorModel>(outs[j]) by {
                assert(outs[j] == out[j]@);
            }
            assert forall|k: Seq<char>| has_key(models, k) implies (#[trigger] merge_key(models, k)) is Ok by {
                let j = keys.index_of(k);
                assert(keys[j] == k);
                assert(out[j]@.key == keys[j]);
            }
        }
        Ok(out)
    }

    /// Merges all updates of the list in one pass.
    ///
    /// An empty list is refused; a single update comes back as it is. For
    /// more, the operations of all updates are grouped by key and merged as
    /// `merge_updates` does, the clock is the pointwise maximum of all
    /// clocks, and the origin names all origins.
    pub fn merge_all(updates: &[VersionedUpdate]) -> (r: Result<VersionedUpdate, LocalCommitError>)
        ensures
            updates@.len() == 0 ==> r is Err && r->Err_0@ == CommitErrorModel::EmptyTransaction,
            updates@.len() == 1 ==> r is Ok && r->Ok_0@ == updates@[0]@,
            updates@.len() > 1 ==> {
                &&& r is Ok <==> all_keys_merge(all_ops(updates@))
                &&& r matches Ok(u) ==> {
                    &&& merged_ops_are(all_ops(updates@), u@.operations)
                    &&& is_clock_max_of(u@.clock, updates@)
                    &&& u@.origin == "merged:"@ + joined(origins_of(updates@), "+"@)
                    &&& u@.update_id is None
                }
                &&& r matches Err(e) ==> first_merge_error(all_ops(updates@), e@)
            },
    {
        if updates.len() == 0 {
            return Err(LocalCommitError::EmptyTransaction);
        }
        if updates.len() == 1 {
            return Ok(updates[0].clone());
        }
        let mut all: Vec<AlgebraicOperation> = Vec::new();
        let mut i: usize = 0;
        assert(updates@.subrange(0, 0) =~= Seq::<VersionedUpdate>::empty());
        assert(ops_view(all@) =~= all_ops(updates@.subrange(0, 0)));
        while i < updates.len()
            invariant
                i <= updates.len(),
                ops_view(all@) == all_ops(updates@.subrange(0, i as int)),
            decreases updates.len() - i,
        {
            let mut more = clone_operations(&updates[i].operations);
            let ghost before = ops_view(all@);
            let ghost added = ops_view(more@);
            all.append(&mut more);
            proof {
                assert(ops_view(all@) =~= before + added);
                let next = updates@.subrange(0, i + 1);
                assert(next.drop_last() =~= updates@.subrange(0, i as int));
                assert(next.last() == updates@[i as int]);
            }
            i += 1;
        }
        assert(updates@.subrange(0, updates@.len() as int) =~= updates@);
        let merged_ops = match Self::merge_operations(&all) {
            Ok(ops) => ops,
            Err(e) => {
                return Err(e);
            },
        };
        let mut merged_clock = updates[0].clock.clone();
        let mut j: usize = 1;
        proof {
            assert forall|n: Seq<char>| merged_clock@.contains_key(n) implies exists|i: int| 0 <= i < 1 && (#[trigger] updates@[i])@.clock.contains_key(n) by {
                assert(updates@[0]@.clock.contains_key(n));
            }
            assert forall|n: Seq<char>| merged_clock@.contains_key(n) implies exists|i: int| 0 <= i < 1 && time_at((#[trigger] updates@[i])@.clock, n) == time_at(merged_clock@, n) by {
                assert(time_at(updates@[0]@.clock, n) == time_at(merged_clock@, n));
            }
        }
        while j < updates.len()
            invariant
                1 <= j <= updates.len(),
                is_clock_max_of(merged_clock@, updates@.subrange(0, j as int)),
            decreases updates.len() - j,
        {
            let ghost before = merged_clock@;
            let ghost prefix = updates@.subrange(0, j as int);
            let ghost next = updates@.subrange(0, j + 1);
            merged_clock.merge(&updates[j].clock);
            proof {
                let c = merged_clock@;
                let uj = updates@[j as int]@.clock;
                assert(next[j as int] == updates@[j as int]);
                assert forall|n: Seq<char>| c.contains_key(n) <==> exists|i: int| 0 <= i < next.len() && (#[trigger] next[i])@.clock.contains_key(n) by {
                    assert(c.dom().contains(n) == before.dom().union(uj.dom()).contains(n));
                    if before.contains_key(n) {
                        let i = choose|i: int| 0 <= i < prefix.len() && (#[trigger] prefix[i])@.clock.contains_key(n);
                        assert(next[i] == prefix[i]);
                    }
                    if uj.contains_key(n) {
                        assert(next[j as int]@.clock.contains_key(n));
                    }
                    if exists|i: int| 0 <= i < next.len() && (#[trigger] next[i])@.clock.contains_key(n) {
                        let i = choose|i: int| 0 <= i < next.len() && (#[trigger] next[i])@.clock.contains_key(n);
                        if i < j {
                            assert(prefix[i] == next[i]);
                        }
                    }
                }
                assert forall|n: Seq<char>, i: int| 0 <= i < next.len() implies time_at((#[trigger] next[i])@.clock, n) <= #[trigger] time_at(c, n) by {
                    assert(time_at(c, n) == crate::distributed::vector_clock::max_time(time_at(before, n), time_at(uj, n)));
                    if i < j {
                        assert(prefix[i] == next[i]);
                        assert(time_at(prefix[i]@.clock, n) <= time_at(before, n));
                    }
                }
                assert forall|n: Seq<char>| c.contains_key(n) implies exists|i: int| 0 <= i < next.len() && time_at((#[trigger] next[i])@.clock, n) == time_at(c, n) by {
                    assert(time_at(c, n) == crate::distributed::vector_clock::max_time(time_at(before, n), time_at(uj, n)));
                    if time_at(c, n) == time_at(uj, n) {
                        assert(time_at(next[j as int]@.clock, n) == time_at(c, n));
                    } else {
                        assert(before.contains_key(n));
                        let i = choose|i: int| 0 <= i < prefix.len() && time_at((#[trigger] prefix[i])@.clock, n) == time_at(before, n);
                        assert(next[i] == prefix[i]);
                    }
                }
            }
            j += 1;
        }
        assert(updates@.subrange(0, updates@.len() as int) =~= updates@);
        let mut origins: Vec<String> = Vec::new();
        let mut k: usize = 0;
        while k < updates.len()
            invariant
                k <= updates.len(),
                origins.len() == k,
                forall|t: int| 0 <= t < k ==> origins[t]@ == updates@[t]@.origin,
            decreases updates.len() - k,
        {
            origins.push(updates[k].origin_node.to_string());
            k += 1;
        }
        assert(origins.deep_view() =~= origins_of(updates@));
        let mut origin = "merged:".to_owned();
        origin.append(join(&origins, "+").as_str());
        Ok(VersionedUpdate::new(merged_ops, merged_clock, NodeId::new(origin.as_str())))
    }
}

/// The operations of `all`, grouped by key.
fn group_operations(all: &Vec<AlgebraicOperation>) -> (groups: StrMap<Vec<AlgebraicOperation>>)
    ensures
        forall|k: Seq<char>| #[trigger] groups@.contains_key(k) <==> has_key(ops_view(all@), k),
        forall|k: Seq<char>| #[trigger] groups@.contains_key(k) ==> ops_view(groups@[k]@) == group_of(ops_view(all@), k),
{
    let ghost models = ops_view(all@);
    let mut groups: StrMap<Vec<AlgebraicOperation>> = StrMap::new();
    let mut i: usize = 0;
    assert(models.subrange(0, 0) =~= Seq::<OperationModel>::empty());
    while i < all.len()
        invariant
            i <= all.len(),
            models == ops_view(all@),
            forall|k: Seq<char>| #[trigger] groups@.contains_key(k) <==> has_key(models.subrange(0, i as int), k),
            forall|k: Seq<char>| #[trigger] groups@.contains_key(k) ==> ops_view(groups@[k]@) == group_of(models.subrange(0, i as int), k),
        decreases all.len() - i,
    {
        let op = &all[i];
        let ghost prefix = models.subrange(0, i as int);
        let ghost next = models.subrange(0, i + 1);
        let ghost before = groups@;
        let key = op.key();
        let mut group: Vec<AlgebraicOperation> = match groups.remove(key) {
            Some(g) => g,
            None => Vec::new(),
        };
        let ghost g0 = ops_view(group@);
        proof {
            assert(next.drop_last() =~= prefix);
            assert(next.last() == op@);
            if !before.contains_key(key@) {
                lemma_group_of_absent(prefix, key@);
                assert(g0 =~= Seq::<OperationModel>::empty());
            }
            assert(g0 == group_of(prefix, key@));
        }
        group.push(op.clone());
        assert(ops_view(group@) =~= g0.push(op@));
        groups.insert(key.to_owned(), group);
        proof {
            assert forall|k: Seq<char>| #[trigger] groups@.contains_key(k) <==> has_key(next, k) by {
                if has_key(prefix, k) {
                    let t = choose|t: int| 0 <= t < prefix.len() && (#[trigger] prefix[t]).key == k;
                    assert(next[t].key == k);
                }
                if k == key@ {
                    assert(next[i as int].key == k);
                }
                if has_key(next, k) && k != key@ {
                    let t = choose|t: int| 0 <= t < next.len() && (#[trigger] next[t]).key == k;
                    assert(t < i);
                    assert(prefix[t].key == k);
                }
            }
            assert forall|k: Seq<char>| #[trigger] groups@.contains_key(k) implies ops_view(groups@[k]@) == group_of(next, k) by {
                if k != key@ {
                    assert(before.contains_key(k));
                }
            }
        }
        i += 1;
    }
    assert(models.subrange(0, models.len() as int) =~= models);
    groups
}

} // verus!
