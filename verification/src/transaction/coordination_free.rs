//! Coordination-free transactions on one node: local commit of algebraic
//! transactions and the receipt of updates from other nodes.

use vstd::prelude::*;
use crate::algebraic::merge::{merge_spec, AlgebraicMerger, MergeModel, MergeResult};
use crate::algebraic::schema::AlgebraicSchemaRegistry;
use crate::algebraic::types::{AlgebraicValue, OpType, ValueModel};
use crate::distributed::local_commit::{AlgebraicOperation, all_algebraic, all_keys_merge, first_merge_error, merged_ops_are, non_algebraic, op_keys, ops_view, coordination_text, AlgebraicTransaction, CommitErrorModel, LocalCommitError, LocalCommitProtocol, OperationModel, UpdateModel, VersionedUpdate};
use crate::distributed::simulation::{clock_max, lemma_clock_max, state_view, update_id_of, update_id_text, updates_view};
use crate::distributed::vector_clock::{is_clock_max, ticked, NodeId, VectorClock};
use crate::sets::StrSet;
use crate::strmap::{sorted_strict, StrMap};

verus! {

/// What a coordination-free error is, over plain values.
pub enum CoordinationErrorModel {
    NotFullyAlgebraic,
    LocalCommit(CommitErrorModel),
    LockError(Seq<char>),
    SchemaError(Seq<char>),
    MergeError(Seq<char>),
}

/// The errors of coordination-free operation.
#[derive(Debug, Clone, PartialEq, Eq)]
pub enum CoordinationFreeError {
    /// The transaction holds operations that are not conflict-free.
    NotFullyAlgebraic,
    /// The local commit protocol refused.
    LocalCommit(LocalCommitError),
    /// A lock could not be taken.
    LockError(String),
    /// The schema does not allow the operation.
    SchemaError(String),
    /// An update could not be merged into the local state.
    MergeError(String),
}

impl View for CoordinationFreeError {
    type V = CoordinationErrorModel;

    open spec fn view(&self) -> CoordinationErrorModel {
        match self {
            CoordinationFreeError::NotFullyAlgebraic => CoordinationErrorModel::NotFullyAlgebraic,
            CoordinationFreeError::LocalCommit(e) => CoordinationErrorModel::LocalCommit(e@),
            CoordinationFreeError::LockError(m) => CoordinationErrorModel::LockError(m@),
            CoordinationFreeError::SchemaError(m) => CoordinationErrorModel::SchemaError(m@),
            CoordinationFreeError::MergeError(m) => CoordinationErrorModel::MergeError(m@),
        }
    }
}

impl CoordinationErrorModel {
    /// The message of the error.
    pub open spec fn text(self) -> Seq<char> {
        match self {
            CoordinationErrorModel::NotFullyAlgebraic => "Transaction contains non-algebraic operations and cannot be committed coordination-free"@,
            CoordinationErrorModel::LocalCommit(e) => "Local commit error: "@ + e.text(),
            CoordinationErrorModel::LockError(m) => "Failed to acquire lock: "@ + m,
            CoordinationErrorModel::SchemaError(m) => "Schema validation error: "@ + m,
            CoordinationErrorModel::MergeError(m) => "Merge error: "@ + m,
        }
    }
}

impl CoordinationFreeError {
    /// The message of the error.
    pub fn to_string(&self) -> (s: String)
        ensures
            s@ == self@.text(),
    {
        match self {
            CoordinationFreeError::NotFullyAlgebraic => "Transaction contains non-algebraic operations and cannot be committed coordination-free".to_owned(),
            CoordinationFreeError::LocalCommit(e) => {
                let mut s = "Local commit error: ".to_owned();
                s.append(e.to_string().as_str());
                s
            },
            CoordinationFreeError::LockError(m) => {
                let mut s = "Failed to acquire lock: ".to_owned();
                s.append(m.as_str());
                s
            },
            CoordinationFreeError::SchemaError(m) => {
                let mut s = "Schema validation error: ".to_owned();
                s.append(m.as_str());
                s
            },
            CoordinationFreeError::MergeError(m) => {
                let mut s = "Merge error: ".to_owned();
                s.append(m.as_str());
                s
            },
        }
    }
}

/// The configuration of coordination-free operation.
#[derive(Debug)]
pub struct CoordinationFreeConfig {
    /// Whether a transaction with an operation that is not conflict-free is
    /// refused before the commit protocol sees it.
    pub require_fully_algebraic: bool,
    /// The schema registry, if one is used.
    pub schema_registry: Option<AlgebraicSchemaRegistry>,
}

impl Default for CoordinationFreeConfig {
    fn default() -> (r: Self)
        ensures
            r.require_fully_algebraic,
            r.schema_registry is None,
    {
        CoordinationFreeConfig { require_fully_algebraic: true, schema_registry: None }
    }
}

/// The name of an operation type as `{:?}` writes it.
pub open spec fn op_debug_name(op: OpType) -> Seq<char> {
    match op {
        OpType::SemilatticeMax => "SemilatticeMax"@,
        OpType::SemilatticeMin => "SemilatticeMin"@,
        OpType::SemilatticeUnion => "SemilatticeUnion"@,
        OpType::SemilatticeIntersect => "SemilatticeIntersect"@,
        OpType::AbelianAdd => "AbelianAdd"@,
        OpType::AbelianMultiply => "AbelianMultiply"@,
        OpType::GenericOverwrite => "GenericOverwrite"@,
        OpType::GenericConditional => "GenericConditional"@,
        OpType::Unknown => "Unknown"@,
    }
}

/// The name of an operation type as `{:?}` writes it.
fn op_debug(op: OpType) -> (r: &'static str)
    ensures
        r@ == op_debug_name(op),
{
    match op {
        OpType::SemilatticeMax => "SemilatticeMax",
        OpType::SemilatticeMin => "SemilatticeMin",
        OpType::SemilatticeUnion => "SemilatticeUnion",
        OpType::SemilatticeIntersect => "SemilatticeIntersect",
        OpType::AbelianAdd => "AbelianAdd",
        OpType::AbelianMultiply => "AbelianMultiply",
        OpType::GenericOverwrite => "GenericOverwrite",
        OpType::GenericConditional => "GenericConditional",
        OpType::Unknown => "Unknown",
    }
}

/// What applying one operation strictly gives: the new state, or the
/// message of the failure.
pub enum Applied {
    State(Map<Seq<char>, (OpType, ValueModel)>),
    Failed(Seq<char>),
}

/// The state after applying one operation strictly: a new key takes the
/// operation's type and value; a known key takes the merged value; a
/// different operation type, a conflict and a type mismatch are failures.
pub open spec fn apply_op_strict(state: Map<Seq<char>, (OpType, ValueModel)>, o: OperationModel) -> Applied {
    if state.contains_key(o.key) {
        let t = state[o.key].0;
        let v = state[o.key].1;
        if t != o.op_type {
            Applied::Failed(
                "Operation type mismatch for key '"@ + o.key + "': "@ + op_debug_name(t) + " vs "@
                    + op_debug_name(o.op_type),
            )
        } else {
            match merge_spec(t, v, o.value) {
                MergeModel::Merged(m) => Applied::State(state.insert(o.key, (t, m))),
                MergeModel::Conflict { value1, value2, reason } => Applied::Failed(
                    "Conflict merging key '"@ + o.key + "': "@ + reason,
                ),
                MergeModel::TypeMismatch { type1, type2, operation } => Applied::Failed(
                    "Type mismatch merging key '"@ + o.key + "': \""@ + type1 + "\" vs \""@ + type2
                        + "\""@,
                ),
            }
        }
    } else {
        Applied::State(state.insert(o.key, (o.op_type, o.value)))
    }
}

/// The state and the failure, if any, after applying the first `n`
/// operations of `ops` strictly, in order: the first failure stops the
/// application and leaves the state as it was reached.
pub open spec fn apply_ops_strict(state: Map<Seq<char>, (OpType, ValueModel)>, ops: Seq<OperationModel>, n: int) -> (Map<Seq<char>, (OpType, ValueModel)>, Option<Seq<char>>)
    decreases n,
{
    if n <= 0 {
        (state, None)
    } else {
        let before = apply_ops_strict(state, ops, n - 1);
        if before.1 is Some {
            before
        } else {
            match apply_op_strict(before.0, ops[n - 1]) {
                Applied::State(s) => (s, None),
                Applied::Failed(m) => (before.0, Some(m)),
            }
        }
    }
}

/// What a coordination-free manager is, over plain values.
pub struct CfModel {
    pub node_id: Seq<char>,
    pub clock: Map<Seq<char>, u64>,
    pub require_fully_algebraic: bool,
    pub committed_updates: Seq<UpdateModel>,
    pub state: Map<Seq<char>, (OpType, ValueModel)>,
    pub applied_updates: Set<Seq<char>>,
}

/// The update that the manager `m` emits when it commits the operations
/// `ops`: the operations, its clock advanced at its node, and its node as
/// origin.
pub open spec fn own_update(m: CfModel, ops: Seq<OperationModel>) -> UpdateModel {
    UpdateModel { operations: ops, clock: ticked(m.clock, m.node_id), origin: m.node_id, update_id: None }
}

/// The manager after it took up the update `u`, which it had not applied
/// before: the clocks are merged, the operations applied strictly as far
/// as they apply, and the id of the update is recorded.
pub open spec fn taken_up(m: CfModel, u: UpdateModel) -> CfModel {
    CfModel {
        clock: clock_max(m.clock, u.clock),
        state: apply_ops_strict(m.state, u.operations, u.operations.len() as int).0,
        applied_updates: m.applied_updates.insert(update_id_text(u)),
        ..m
    }
}

/// Deduplication. Once an update was taken up its id counts as applied, so
/// the manager ignores the update when it arrives again.
pub proof fn law_taken_up_once(m: CfModel, u: UpdateModel)
    ensures
        taken_up(m, u).applied_updates.contains(update_id_text(u)),
{
}

/// The coordination-free manager of one node.
#[derive(Debug)]
pub struct CoordinationFreeManager {
    node_id: NodeId,
    clock: VectorClock,
    config: CoordinationFreeConfig,
    committed_updates: Vec<VersionedUpdate>,
    local_state: StrMap<(OpType, AlgebraicValue)>,
    applied_updates: StrSet,
}

impl View for CoordinationFreeManager {
    type V = CfModel;

    closed spec fn view(&self) -> CfModel {
        CfModel {
            node_id: self.node_id@,
            clock: self.clock@,
            require_fully_algebraic: self.config.require_fully_algebraic,
            committed_updates: updates_view(self.committed_updates@),
            state: state_view(self.local_state@),
            applied_updates: self.applied_updates@,
        }
    }
}

impl CoordinationFreeManager {
    /// A manager for the node `node_id` with the default configuration.
    pub fn new(node_id: NodeId) -> (r: Self)
        ensures
            r@ == (CfModel {
                node_id: node_id@,
                clock: Map::empty(),
                require_fully_algebraic: true,
                committed_updates: Seq::empty(),
                state: Map::empty(),
                applied_updates: Set::empty(),
            }),
    {
        Self::with_config(node_id, CoordinationFreeConfig::default())
    }

    /// A manager for the node `node_id` with the given configuration.
    pub fn with_config(node_id: NodeId, config: CoordinationFreeConfig) -> (r: Self)
        ensures
            r@ == (CfModel {
                node_id: node_id@,
                clock: Map::empty(),
                require_fully_algebraic: config.require_fully_algebraic,
                committed_updates: Seq::empty(),
                state: Map::empty(),
                applied_updates: Set::empty(),
            }),
    {
        let r = CoordinationFreeManager {
            node_id,
            clock: VectorClock::new(),
            config,
            committed_updates: Vec::new(),
            local_state: StrMap::new(),
            applied_updates: StrSet::new(),
        };
        proof {
            assert(r@.committed_updates =~= Seq::empty());
            assert(r@.state =~= Map::empty());
        }
        r
    }

    /// The node of the manager.
    pub fn node_id(&self) -> (r: &NodeId)
        ensures
            r@ == self@.node_id,
    {
        &self.node_id
    }

    /// A copy of the clock.
    pub fn clock(&self) -> (r: Result<VectorClock, CoordinationFreeError>)
        ensures
            r is Ok,
            r->Ok_0@ == self@.clock,
    {
        Ok(self.clock.clone())
    }

    /// Whether `tx` can commit without coordination.
    pub fn can_commit_locally(&self, tx: &AlgebraicTransaction) -> (r: bool)
        ensures
            r == (tx.ops().len() > 0 && all_algebraic(tx.ops())),
    {
        LocalCommitProtocol::can_commit_locally(tx)
    }

    /// Commits `tx` on this node: the clock advances, the id of the update is
    /// recorded as applied, the operations are applied to the local state,
    /// and the update is kept.
    ///
    /// A transaction that is empty or holds an operation that is not
    /// conflict-free is refused and changes nothing. A failure while the
    /// operations are applied leaves the clock advanced, the id recorded
    /// and the state as far as it was applied.
    pub fn commit_local(&mut self, tx: &AlgebraicTransaction) -> (r: Result<VersionedUpdate, CoordinationFreeError>)
        ensures
            final(self)@.node_id == old(self)@.node_id,
            final(self)@.require_fully_algebraic == old(self)@.require_fully_algebraic,
            !all_algebraic(tx.ops()) || tx.ops().len() == 0 ==> r is Err && final(self)@ == old(self)@,
            !all_algebraic(tx.ops()) && old(self)@.require_fully_algebraic ==> r->Err_0@ == CoordinationErrorModel::NotFullyAlgebraic,
            !all_algebraic(tx.ops()) && !old(self)@.require_fully_algebraic ==> r->Err_0@ == CoordinationErrorModel::LocalCommit(
                if tx.ops().len() == 0 {
                    CommitErrorModel::EmptyTransaction
                } else {
                    CommitErrorModel::NonAlgebraic {
                        keys: op_keys(non_algebraic(tx.ops())),
                        message: coordination_text(non_algebraic(tx.ops())),
                    }
                },
            ),
            all_algebraic(tx.ops()) && tx.ops().len() == 0 ==> r->Err_0@ == CoordinationErrorModel::LocalCommit(CommitErrorModel::EmptyTransaction),
            all_algebraic(tx.ops()) && tx.ops().len() > 0 ==> {
                let u = own_update(old(self)@, tx.ops());
                let applied = apply_ops_strict(old(self)@.state, tx.ops(), tx.ops().len() as int);
                &&& r is Ok <==> applied.1 is None
                &&& r matches Ok(made) ==> made@ == u && final(self)@ == (CfModel {
                    clock: u.clock,
                    state: applied.0,
                    applied_updates: old(self)@.applied_updates.insert(update_id_text(u)),
                    committed_updates: old(self)@.committed_updates.push(u),
                    ..old(self)@
                })
                &&& r matches Err(e) ==> e@ == CoordinationErrorModel::MergeError(applied.1->0) && final(self)@ == (CfModel {
                    clock: u.clock,
                    state: applied.0,
                    applied_updates: old(self)@.applied_updates.insert(update_id_text(u)),
                    ..old(self)@
                })
            },
    {
        if self.config.require_fully_algebraic && !tx.is_fully_algebraic() {
            return Err(CoordinationFreeError::NotFullyAlgebraic);
        }
        let update = match LocalCommitProtocol::commit_local(tx, &self.node_id, &mut self.clock) {
            Ok(u) => u,
            Err(e) => {
                return Err(CoordinationFreeError::LocalCommit(e));
            },
        };
        assert(update@ == own_update(old(self)@, tx.ops()));
        self.applied_updates.insert(update_id_of(&update));
        match self.apply_update_to_state(&update) {
            Ok(_) => {},
            Err(e) => {
                return Err(e);
            },
        }
        let ghost c0 = updates_view(self.committed_updates@);
        self.committed_updates.push(update.clone());
        assert(updates_view(self.committed_updates@) =~= c0.push(update@));
        Ok(update)
    }

    /// Receives an update from another node. An update whose id was applied
    /// before is ignored. A new one is taken up: its id is recorded, the
    /// clocks are merged and the operations applied to the local state; a
    /// failure while the operations are applied leaves the id recorded, the
    /// clocks merged and the state as far as it was applied.
    pub fn receive_update(&mut self, remote_update: &VersionedUpdate) -> (r: Result<(), CoordinationFreeError>)
        ensures
            old(self)@.applied_updates.contains(update_id_text(remote_update@)) ==> r is Ok && final(self)@ == old(self)@,
            !old(self)@.applied_updates.contains(update_id_text(remote_update@)) ==> {
                let applied = apply_ops_strict(
                    old(self)@.state,
                    remote_update@.operations,
                    remote_update@.operations.len() as int,
                );
                &&& final(self)@ == taken_up(old(self)@, remote_update@)
                &&& r is Ok <==> applied.1 is None
                &&& r matches Err(e) ==> e@ == CoordinationErrorModel::MergeError(applied.1->0)
            },
    {
        let id = update_id_of(remote_update);
        if self.applied_updates.contains(id.as_str()) {
            return Ok(());
        }
        self.applied_updates.insert(id);
        let ghost c0 = self.clock@;
        self.clock.merge(remote_update.clock());
        proof {
            lemma_clock_max(self.clock@, c0, remote_update@.clock);
        }
        self.apply_update_to_state(remote_update)
    }

    /// Merges two updates; the local state is not touched.
    pub fn merge_updates(&self, update1: &VersionedUpdate, update2: &VersionedUpdate) -> (r: Result<VersionedUpdate, CoordinationFreeError>)
        ensures
            r is Ok <==> all_keys_merge(update1@.operations + update2@.operations),
            r matches Ok(u) ==> {
                &&& merged_ops_are(update1@.operations + update2@.operations, u@.operations)
                &&& is_clock_max(u@.clock, update1@.clock, update2@.clock)
                &&& u@.origin == "merged:"@ + update1@.origin + "+"@ + update2@.origin
            },
            r matches Err(e) ==> e@ is LocalCommit && first_merge_error(update1@.operations + update2@.operations, e@->LocalCommit_0),
    {
        match LocalCommitProtocol::merge_updates(update1, update2) {
            Ok(u) => Ok(u),
            Err(e) => Err(CoordinationFreeError::LocalCommit(e)),
        }
    }

    /// A copy of the value under `key`, if the state has the key.
    pub fn get_state(&self, key: &str) -> (r: Result<Option<AlgebraicValue>, CoordinationFreeError>)
        ensures
            r is Ok,
            r->Ok_0 is Some == self@.state.contains_key(key@),
            r->Ok_0 is Some ==> r->Ok_0->0@ == self@.state[key@].1,
    {
        match self.local_state.get(key) {
            Some(entry) => Ok(Some(entry.1.clone())),
            None => Ok(None),
        }
    }

    /// The keys of the state, sorted.
    pub fn keys(&self) -> (r: Result<Vec<String>, CoordinationFreeError>)
        ensures
            r is Ok,
            sorted_strict(r->Ok_0.deep_view()),
            forall|k: Seq<char>| #[trigger] r->Ok_0.deep_view().contains(k) <==> self@.state.contains_key(k),
    {
        Ok(self.local_state.keys())
    }

    /// The number of updates committed on this node.
    pub fn update_count(&self) -> (r: Result<usize, CoordinationFreeError>)
        ensures
            r is Ok,
            r->Ok_0 == self@.committed_updates.len(),
    {
        Ok(self.committed_updates.len())
    }

    /// Applies the operations of `update` to the local state, strictly.
    fn apply_update_to_state(&mut self, update: &VersionedUpdate) -> (r: Result<(), CoordinationFreeError>)
        ensures
            final(self)@ == (CfModel {
                state: apply_ops_strict(old(self)@.state, update@.operations, update@.operations.len() as int).0,
                ..old(self)@
            }),
            r is Ok <==> apply_ops_strict(old(self)@.state, update@.operations, update@.operations.len() as int).1 is None,
            r matches Err(e) ==> e@ == CoordinationErrorModel::MergeError(
                apply_ops_strict(old(self)@.state, update@.operations, update@.operations.len() as int).1->0,
            ),
    {
        let ops = update.operations();
        let ghost models = update@.operations;
        let ghost start = state_view(self.local_state@);
        let mut i: usize = 0;
        while i < ops.len()
            invariant
                i <= ops.len(),
                models == ops_view(ops@),
                models == update@.operations,
                models.len() == ops.len(),
                start == old(self)@.state,
                apply_ops_strict(start, models, i as int) == (state_view(self.local_state@), None::<Seq<char>>),
                self.node_id == old(self).node_id,
                self.clock == old(self).clock,
                self.config == old(self).config,
                self.committed_updates == old(self).committed_updates,
                self.applied_updates == old(self).applied_updates,
            decreases ops.len() - i,
        {
            let op = &ops[i];
            let ghost before = state_view(self.local_state@);
            proof {
                assert(models[i as int] == op@);
            }
            let next = strict_step(&self.local_state, op);
            match next {
                Ok(entry) => {
                    let ghost e = (entry.0, entry.1@);
                    self.local_state.insert(op.key().to_owned(), entry);
                    proof {
                        assert(state_view(self.local_state@) =~= before.insert(op@.key, e));
                    }
                },
                Err(msg) => {
                    proof {
                        assert(apply_ops_strict(start, models, i + 1) == (before, Some(msg@)));
                        lemma_strict_stops(start, models, i + 1, models.len() as int);
                    }
                    return Err(CoordinationFreeError::MergeError(msg));
                },
            }
            i += 1;
        }
        Ok(())
    }
}

/// What one operation makes of the entry under its key, or the message of
/// the failure.
fn strict_step(state: &StrMap<(OpType, AlgebraicValue)>, op: &AlgebraicOperation) -> (next: Result<(OpType, AlgebraicValue), String>)
    ensures
        match apply_op_strict(state_view(state@), op@) {
            Applied::State(s) => next is Ok && s == state_view(state@).insert(
                op@.key,
                (next->Ok_0.0, next->Ok_0.1@),
            ),
            Applied::Failed(m) => next is Err && next->Err_0@ == m,
        },
{
    match state.get(op.key()) {
        Some(existing) => {
            if existing.0 == op.op_type() {
                match AlgebraicMerger::merge(op.op_type(), &existing.1, op.value()) {
                    MergeResult::Merged(v) => Ok((op.op_type(), v)),
                    MergeResult::Conflict { value1, value2, reason } => {
                        let mut msg = "Conflict merging key '".to_owned();
                        msg.append(op.key());
                        msg.append("': ");
                        msg.append(reason.as_str());
                        assert(msg@ =~= "Conflict merging key '"@ + op@.key + "': "@ + reason@);
                        Err(msg)
                    },
                    MergeResult::TypeMismatch { type1, type2, operation } => {
                        let mut msg = "Type mismatch merging key '".to_owned();
                        msg.append(op.key());
                        msg.append("': \"");
                        msg.append(type1);
                        msg.append("\" vs \"");
                        msg.append(type2);
                        msg.append("\"");
                        assert(msg@ =~= "Type mismatch merging key '"@ + op@.key + "': \""@ + type1@
                            + "\" vs \""@ + type2@ + "\""@);
                        Err(msg)
                    },
                }
            } else {
                let mut msg = "Operation type mismatch for key '".to_owned();
                msg.append(op.key());
                msg.append("': ");
                msg.append(op_debug(existing.0));
                msg.append(" vs ");
                msg.append(op_debug(op.op_type()));
                assert(msg@ =~= "Operation type mismatch for key '"@ + op@.key + "': "@
                    + op_debug_name(existing.0) + " vs "@ + op_debug_name(op@.op_type));
                Err(msg)
            }
        },
        None => Ok((op.op_type(), op.value().clone())),
    }
}

/// Once the strict application has failed, it stays at that failure.
pub proof fn lemma_strict_stops(state: Map<Seq<char>, (OpType, ValueModel)>, ops: Seq<OperationModel>, k: int, n: int)
    requires
        0 <= k <= n,
        apply_ops_strict(state, ops, k).1 is Some,
    ensures
        apply_ops_strict(state, ops, n) == apply_ops_strict(state, ops, k),
    decreases n - k,
{
    if k < n {
        lemma_strict_stops(state, ops, k, n - 1);
    }
}

} // verus!
