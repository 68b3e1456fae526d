//! A simulated cluster of nodes that commit locally and gossip their
//! updates, used to exercise convergence and partition healing.

use std::collections::VecDeque;
use vstd::prelude::*;
use crate::algebraic::merge::{merge_spec, values_equal, AlgebraicMerger, MergeModel, MergeResult};
use crate::algebraic::types::{AlgebraicValue, OpType, ValueModel};
use crate::distributed::local_commit::{all_algebraic, coordination_text, non_algebraic, op_keys, ops_view, AlgebraicOperation, AlgebraicTransaction, CommitErrorModel, LocalCommitError, LocalCommitProtocol, OperationModel, UpdateModel, VersionedUpdate};
use crate::distributed::vector_clock::{is_clock_max, sorted_nodes, ticked, NodeId, VectorClock};
use crate::sets::StrSet;
use crate::strmap::StrMap;
use crate::select::{in_prefix, lemma_prefix_all, lemma_prefix_step};
use crate::text::{decimal, push_decimal};

verus! {

/// The state of a node or manager, over plain values: for each key its
/// operation type and value.
pub open spec fn state_view(m: Map<Seq<char>, (OpType, AlgebraicValue)>) -> Map<Seq<char>, (OpType, ValueModel)> {
    Map::new(|k: Seq<char>| m.contains_key(k), |k: Seq<char>| (m[k].0, m[k].1@))
}

/// The state after applying one operation, as the simulation applies it: a
/// new key takes the operation's type and value; a known key takes the
/// merged value where the types agree and the merge gives one, and stays as
/// it is otherwise.
pub open spec fn apply_op_lenient(state: Map<Seq<char>, (OpType, ValueModel)>, o: OperationModel) -> Map<Seq<char>, (OpType, ValueModel)> {
    if state.contains_key(o.key) {
        let t = state[o.key].0;
        let v = state[o.key].1;
        if t == o.op_type && merge_spec(t, v, o.value) is Merged {
            state.insert(o.key, (t, merge_spec(t, v, o.value)->Merged_0))
        } else {
            state
        }
    } else {
        state.insert(o.key, (o.op_type, o.value))
    }
}

/// The state after applying the operations of `ops` in order.
pub open spec fn apply_ops_lenient(state: Map<Seq<char>, (OpType, ValueModel)>, ops: Seq<OperationModel>) -> Map<Seq<char>, (OpType, ValueModel)>
    decreases ops.len(),
{
    if ops.len() == 0 {
        state
    } else {
        apply_op_lenient(apply_ops_lenient(state, ops.drop_last()), ops.last())
    }
}

/// The configuration of a simulation.
#[derive(Debug, Clone)]
pub struct SimulationConfig {
    /// Maximum number of propagation rounds.
    pub max_rounds: usize,
    /// Whether message order is randomized.
    pub randomize_order: bool,
    /// Pairs of nodes that cannot communicate.
    pub partitions: Vec<(usize, usize)>,
}

impl Default for SimulationConfig {
    fn default() -> (r: Self)
        ensures
            r.max_rounds == 100,
            !r.randomize_order,
            r.partitions@.len() == 0,
    {
        SimulationConfig { max_rounds: 100, randomize_order: false, partitions: Vec::new() }
    }
}

/// The condition of the network for message delivery.
#[derive(Debug, Clone, Copy, PartialEq, Eq, Structural)]
pub enum NetworkCondition {
    /// Messages arrive at once and in order.
    Perfect,
    /// Messages may be reordered.
    Reordered,
    /// Messages are delayed by the given number of rounds.
    Delayed(usize),
    /// No message is delivered.
    Partitioned,
}

/// A message in transit between two nodes.
#[derive(Debug)]
pub struct Message {
    /// Index of the sending node.
    pub from: usize,
    /// Index of the receiving node.
    pub to: usize,
    /// The update that is sent.
    pub update: VersionedUpdate,
    /// Rounds that remain until delivery.
    pub delay: usize,
}

/// Counters of a simulation.
#[derive(Debug, Clone)]
pub struct SimulationStats {
    /// Messages sent.
    pub messages_sent: usize,
    /// Messages delivered.
    pub messages_delivered: usize,
    /// Messages dropped at a partition.
    pub messages_dropped: usize,
    /// The round in which the cluster was found converged.
    pub rounds_to_converge: Option<usize>,
    /// Operations committed.
    pub operations_committed: usize,
}

impl Default for SimulationStats {
    fn default() -> (r: Self)
        ensures
            r.messages_sent == 0,
            r.messages_delivered == 0,
            r.messages_dropped == 0,
            r.rounds_to_converge is None,
            r.operations_committed == 0,
    {
        SimulationStats {
            messages_sent: 0,
            messages_delivered: 0,
            messages_dropped: 0,
            rounds_to_converge: None,
            operations_committed: 0,
        }
    }
}

/// `a + b`, held at the top of the range.
pub open spec fn capped_sum(a: usize, b: usize) -> usize {
    if a + b <= usize::MAX {
        (a + b) as usize
    } else {
        usize::MAX
    }
}

/// `a + b`, held at the top of the range.
fn add_capped(a: usize, b: usize) -> (r: usize)
    ensures
        r == capped_sum(a, b),
{
    if a <= usize::MAX - b {
        a + b
    } else {
        usize::MAX
    }
}

/// The views of a list of updates.
pub open spec fn updates_view(us: Seq<VersionedUpdate>) -> Seq<UpdateModel> {
    Seq::new(us.len(), |i: int| us[i]@)
}

/// What a node is, over plain values.
pub struct NodeModel {
    pub node_id: Seq<char>,
    pub index: usize,
    pub clock: Map<Seq<char>, u64>,
    pub state: Map<Seq<char>, (OpType, ValueModel)>,
    pub local_updates: Seq<UpdateModel>,
    pub all_updates: Seq<UpdateModel>,
    pub applied_updates: Set<Seq<char>>,
    pub outbox: Seq<UpdateModel>,
}

/// A clock that is the pointwise maximum of `a` and `b`, chosen once for
/// each pair.
pub open spec fn clock_max(a: Map<Seq<char>, u64>, b: Map<Seq<char>, u64>) -> Map<Seq<char>, u64> {
    Map::new(
        |n: Seq<char>| a.contains_key(n) || b.contains_key(n),
        |n: Seq<char>| crate::distributed::vector_clock::max_time(crate::distributed::vector_clock::time_at(a, n), crate::distributed::vector_clock::time_at(b, n)),
    )
}

/// The pointwise maximum is the one map with that domain and those times.
pub proof fn lemma_clock_max(c: Map<Seq<char>, u64>, a: Map<Seq<char>, u64>, b: Map<Seq<char>, u64>)
    requires
        is_clock_max(c, a, b),
    ensures
        c == clock_max(a, b),
{
    assert forall|n: Seq<char>| c.contains_key(n) == clock_max(a, b).contains_key(n) by {
        assert(c.dom().contains(n) == a.dom().union(b.dom()).contains(n));
    }
    assert forall|n: Seq<char>| c.contains_key(n) implies c[n] == clock_max(a, b)[n] by {
        assert(crate::distributed::vector_clock::time_at(c, n) == crate::distributed::vector_clock::max_time(crate::distributed::vector_clock::time_at(a, n), crate::distributed::vector_clock::time_at(b, n)));
    }
    assert(c =~= clock_max(a, b));
}

/// The node after receiving the update `u`: unchanged if the id of the
/// update was applied before; otherwise the operations are applied, the
/// clocks merged, the id recorded, and the update kept and queued for
/// relay.
pub open spec fn received(n: NodeModel, u: UpdateModel) -> NodeModel {
    if n.applied_updates.contains(update_id_text(u)) {
        n
    } else {
        NodeModel {
            clock: clock_max(n.clock, u.clock),
            state: apply_ops_lenient(n.state, u.operations),
            all_updates: n.all_updates.push(u),
            applied_updates: n.applied_updates.insert(update_id_text(u)),
            outbox: n.outbox.push(u),
            ..n
        }
    }
}

/// Deduplication. Receiving the same update a second time leaves the node
/// as the first receipt left it.
pub proof fn law_receive_twice(n: NodeModel, u: UpdateModel)
    ensures
        received(received(n, u), u) == received(n, u),
{
}

/// The update that the node `n` emits when it commits the operations `ops`:
/// the operations, the node's clock advanced at the node, and the node as
/// origin.
pub open spec fn local_update(n: NodeModel, ops: Seq<OperationModel>) -> UpdateModel {
    UpdateModel { operations: ops, clock: ticked(n.clock, n.node_id), origin: n.node_id, update_id: None }
}

/// The node after it committed the operations `ops`: the clock advanced,
/// the operations applied, and the update recorded as applied, kept, and
/// queued for sending.
pub open spec fn committed_on(n: NodeModel, ops: Seq<OperationModel>) -> NodeModel {
    let u = local_update(n, ops);
    NodeModel {
        clock: u.clock,
        state: apply_ops_lenient(n.state, ops),
        local_updates: n.local_updates.push(u),
        all_updates: n.all_updates.push(u),
        applied_updates: n.applied_updates.insert(update_id_text(u)),
        outbox: n.outbox.push(u),
        ..n
    }
}

/// A node of the simulated cluster.
#[derive(Debug)]
pub struct SimulatedNode {
    /// Name of the node.
    pub node_id: NodeId,
    /// Index in the cluster.
    pub index: usize,
    /// Current vector clock.
    pub clock: VectorClock,
    /// Current state: for each key its operation type and value.
    pub state: StrMap<(OpType, AlgebraicValue)>,
    /// Updates that this node produced.
    pub local_updates: Vec<VersionedUpdate>,
    /// All updates that this node applied, its own and received ones.
    pub all_updates: Vec<VersionedUpdate>,
    /// Deduplication ids of the applied updates.
    pub applied_updates: StrSet,
    /// Updates that wait to be sent.
    pub outbox: VecDeque<VersionedUpdate>,
}

impl View for SimulatedNode {
    type V = NodeModel;

    open spec fn view(&self) -> NodeModel {
        NodeModel {
            node_id: self.node_id@,
            index: self.index,
            clock: self.clock@,
            state: state_view(self.state@),
            local_updates: updates_view(self.local_updates@),
            all_updates: updates_view(self.all_updates@),
            applied_updates: self.applied_updates@,
            outbox: updates_view(self.outbox@),
        }
    }
}

/// The name of the node with the given index.
pub open spec fn node_name(index: usize) -> Seq<char> {
    "node-"@ + decimal(index as nat)
}

/// The text of the clock entries from `from` on: `node=time` items joined
/// by commas.
pub open spec fn entries_text(entries: Seq<(Seq<char>, u64)>) -> Seq<char>
    decreases entries.len(),
{
    if entries.len() == 0 {
        Seq::empty()
    } else if entries.len() == 1 {
        entries[0].0 + "="@ + decimal(entries[0].1 as nat)
    } else {
        entries_text(entries.drop_last()) + ","@ + entries.last().0 + "="@ + decimal(
            entries.last().1 as nat,
        )
    }
}

impl SimulatedNode {
    /// The node with the given index: named `node-{index}`, with an empty
    /// clock, state and queues.
    pub fn new(index: usize) -> (r: Self)
        ensures
            r@ == (NodeModel {
                node_id: node_name(index),
                index,
                clock: Map::empty(),
                state: Map::empty(),
                local_updates: Seq::empty(),
                all_updates: Seq::empty(),
                applied_updates: Set::empty(),
                outbox: Seq::empty(),
            }),
    {
        let mut name = "node-".to_owned();
        push_decimal(&mut name, index as u64);
        let r = SimulatedNode {
            node_id: NodeId::new(name.as_str()),
            index,
            clock: VectorClock::new(),
            state: StrMap::new(),
            local_updates: Vec::new(),
            all_updates: Vec::new(),
            applied_updates: StrSet::new(),
            outbox: VecDeque::new(),
        };
        proof {
            assert(r@.state =~= Map::empty());
            assert(r@.local_updates =~= Seq::empty());
            assert(r@.all_updates =~= Seq::empty());
            assert(r@.outbox =~= Seq::empty());
        }
        r
    }

    /// The deduplication id of `update`: its explicit id if it has one, else
    /// the origin, `@`, and the clock entries as `node=time`, sorted by node
    /// and joined by commas.
    pub fn generate_update_id(&self, update: &VersionedUpdate) -> (id: String)
        ensures
            id@ == update_id_text(update@),
    {
        update_id_of(update)
    }

    /// Applies the operations of `update` to the state and merges its clock
    /// into the node's.
    pub fn apply_update(&mut self, update: &VersionedUpdate)
        ensures
            final(self)@ == (NodeModel {
                clock: clock_max(old(self)@.clock, update@.clock),
                state: apply_ops_lenient(old(self)@.state, update@.operations),
                ..old(self)@
            }),
    {
        let ops = update.operations();
        let ghost models = update@.operations;
        let ghost start = state_view(self.state@);
        let mut i: usize = 0;
        assert(models.subrange(0, 0) =~= Seq::<OperationModel>::empty());
        while i < ops.len()
            invariant
                i <= ops.len(),
                models == ops_view(ops@),
                state_view(self.state@) == apply_ops_lenient(start, models.subrange(0, i as int)),
                self.node_id == old(self).node_id,
                self.index == old(self).index,
                self.clock == old(self).clock,
                self.local_updates == old(self).local_updates,
                self.all_updates == old(self).all_updates,
                self.applied_updates == old(self).applied_updates,
                self.outbox == old(self).outbox,
            decreases ops.len() - i,
        {
            let op = &ops[i];
            let ghost before = state_view(self.state@);
            proof {
                let next = models.subrange(0, i + 1);
                assert(next.drop_last() =~= models.subrange(0, i as int));
                assert(next.last() == op@);
            }
            let merged: Option<(OpType, AlgebraicValue)> = match self.state.get(op.key()) {
                Some(existing) => {
                    if existing.0 == op.op_type() {
                        match AlgebraicMerger::merge(op.op_type(), &existing.1, op.value()) {
                            MergeResult::Merged(v) => Some((op.op_type(), v)),
                            _ => None,
                        }
                    } else {
                        None
                    }
                },
                None => Some((op.op_type(), op.value().clone())),
            };
            match merged {
                Some(entry) => {
                    let ghost e = (entry.0, entry.1@);
                    self.state.insert(op.key().to_owned(), entry);
                    assert(state_view(self.state@) =~= before.insert(op@.key, e));
                },
                None => {},
            }
            i += 1;
        }
        assert(models.subrange(0, models.len() as int) =~= models);
        let ghost c0 = self.clock@;
        self.clock.merge(update.clock());
        proof {
            lemma_clock_max(self.clock@, c0, update@.clock);
        }
    }

    /// Commits `tx` on this node: the update is applied to the state,
    /// recorded as applied, kept, and queued for sending.
    pub fn commit(&mut self, tx: AlgebraicTransaction) -> (r: Result<VersionedUpdate, LocalCommitError>)
        ensures
            r is Ok <==> tx.ops().len() > 0 && all_algebraic(tx.ops()),
            r is Err ==> final(self)@ == old(self)@,
            r matches Err(e) ==> e@ == (if tx.ops().len() == 0 {
                CommitErrorModel::EmptyTransaction
            } else {
                CommitErrorModel::NonAlgebraic {
                    keys: op_keys(non_algebraic(tx.ops())),
                    message: coordination_text(non_algebraic(tx.ops())),
                }
            }),
            r matches Ok(u) ==> u@ == local_update(old(self)@, tx.ops()) && final(self)@ == committed_on(old(self)@, tx.ops()),
    {
        let update = match LocalCommitProtocol::commit_local(&tx, &self.node_id, &mut self.clock) {
            Ok(u) => u,
            Err(e) => {
                return Err(e);
            },
        };
        let ghost ticked = self.clock@;
        self.apply_update(&update);
        proof {
            assert(clock_max(ticked, ticked) =~= ticked);
        }
        let id = update_id_of(&update);
        self.applied_updates.insert(id);
        let ghost l0 = updates_view(self.local_updates@);
        let ghost a0 = updates_view(self.all_updates@);
        let ghost o0 = updates_view(self.outbox@);
        self.local_updates.push(update.clone());
        self.all_updates.push(update.clone());
        self.outbox.push_back(update.clone());
        proof {
            assert(updates_view(self.local_updates@) =~= l0.push(update@));
            assert(updates_view(self.all_updates@) =~= a0.push(update@));
            assert(updates_view(self.outbox@) =~= o0.push(update@));
        }
        Ok(update)
    }

    /// Receives `update` from another node. An update whose id was applied
    /// before is ignored; a new one is applied, recorded, kept, and queued
    /// for relay. Returns whether the update was new.
    pub fn receive_update(&mut self, update: &VersionedUpdate) -> (r: bool)
        ensures
            r == !old(self)@.applied_updates.contains(update_id_text(update@)),
            final(self)@ == received(old(self)@, update@),
    {
        let id = update_id_of(update);
        if self.applied_updates.contains(id.as_str()) {
            return false;
        }
        self.apply_update(update);
        self.applied_updates.insert(id);
        let ghost a0 = updates_view(self.all_updates@);
        let ghost o0 = updates_view(self.outbox@);
        self.all_updates.push(update.clone());
        self.outbox.push_back(update.clone());
        proof {
            assert(updates_view(self.all_updates@) =~= a0.push(update@));
            assert(updates_view(self.outbox@) =~= o0.push(update@));
        }
        true
    }

    /// The value under `key`, if the state has the key.
    pub fn get_state(&self, key: &str) -> (r: Option<&AlgebraicValue>)
        ensures
            r is Some == self@.state.contains_key(key@),
            r is Some ==> r->0@ == self@.state[key@].1,
    {
        match self.state.get(key) {
            Some(entry) => Some(&entry.1),
            None => None,
        }
    }

    /// The keys of the state, sorted.
    pub fn keys(&self) -> (r: Vec<String>)
        ensures
            crate::strmap::sorted_strict(r.deep_view()),
            forall|k: Seq<char>| r.deep_view().contains(k) <==> self@.state.contains_key(k),
    {
        self.state.keys()
    }
}

/// The entries of a clock as `(node, time)` pairs, sorted by node.
pub open spec fn clock_entries(clock: Map<Seq<char>, u64>) -> Seq<(Seq<char>, u64)> {
    Seq::new(sorted_nodes(clock).len(), |i: int| (sorted_nodes(clock)[i], clock[sorted_nodes(clock)[i]]))
}

/// The deduplication id of an update: its explicit id or, without one, its
/// origin and the entries of its clock.
pub open spec fn update_id_text(update: UpdateModel) -> Seq<char> {
    match update.update_id {
        Some(id) => id,
        None => update.origin + "@"@ + entries_text(clock_entries(update.clock)),
    }
}

/// The deduplication id of `update`: its explicit id or, without one, its
/// origin, `@`, and the entries of its clock as `node=time`, sorted by node
/// and joined by commas.
pub fn update_id_of(update: &VersionedUpdate) -> (id: String)
    ensures
        id@ == update_id_text(update@),
{
    match update.update_id() {
        Some(id) => {
            return id.to_owned();
        },
        None => {},
    }
    let entries = update.clock().entries();
    let ghost es = clock_entries(update@.clock);
    let mut text = String::new();
    let mut i: usize = 0;
    assert(es.subrange(0, 0) =~= Seq::<(Seq<char>, u64)>::empty());
    while i < entries.len()
        invariant
            i <= entries.len(),
            es == clock_entries(update@.clock),
            entries.len() == es.len(),
            forall|j: int| 0 <= j < entries.len() ==> (#[trigger] entries[j]).0@ == es[j].0 && entries[j].1 == es[j].1,
            text@ == entries_text(es.subrange(0, i as int)),
        decreases entries.len() - i,
    {
        proof {
            let next = es.subrange(0, i + 1);
            assert(next.drop_last() =~= es.subrange(0, i as int));
            assert(next.last() == es[i as int]);
            if i == 0 {
                assert(next[0] == es[0]);
            }
        }
        let ghost before = text@;
        if i > 0 {
            text.append(",");
        }
        text.append(entries[i].0.as_str());
        text.append("=");
        push_decimal(&mut text, entries[i].1);
        proof {
            if i == 0 {
                assert(text@ =~= es[0].0 + "="@ + decimal(es[0].1 as nat));
            } else {
                assert(text@ =~= before + ","@ + es[i as int].0 + "="@ + decimal(es[i as int].1 as nat));
            }
        }
        i += 1;
    }
    assert(es.subrange(0, es.len() as int) =~= es);
    let mut id = update.origin_node().to_string();
    id.append("@");
    id.append(text.as_str());
    id
}

/// Whether the pair `(a, b)`, in either order, is one of `partitions`.
pub open spec fn pair_partitioned(partitions: Seq<(usize, usize)>, a: usize, b: usize) -> bool {
    exists|i: int| 0 <= i < partitions.len() && (#[trigger] partitions[i] == (a, b) || partitions[i] == (b, a))
}

/// The value that the node `n` holds for `key`, if any.
pub open spec fn node_value(n: NodeModel, key: Seq<char>) -> Option<ValueModel> {
    if n.state.contains_key(key) {
        Some(n.state[key].1)
    } else {
        None
    }
}

/// Every node holds, for every key, what the first node holds.
pub open spec fn converged(nodes: Seq<NodeModel>) -> bool {
    forall|i: int, k: Seq<char>| 0 <= i < nodes.len() ==> #[trigger] node_value(nodes[i], k) == node_value(nodes[0], k)
}

/// What a message is, over plain values.
pub struct MessageModel {
    pub from: usize,
    pub to: usize,
    pub update: UpdateModel,
    pub delay: usize,
}

impl View for Message {
    type V = MessageModel;

    open spec fn view(&self) -> MessageModel {
        MessageModel { from: self.from, to: self.to, update: self.update@, delay: self.delay }
    }
}

/// The views of a list of messages.
pub open spec fn messages_view(ms: Seq<Message>) -> Seq<MessageModel> {
    Seq::new(ms.len(), |i: int| ms[i]@)
}

/// The views of a list of nodes.
pub open spec fn nodes_view(ns: Seq<SimulatedNode>) -> Seq<NodeModel> {
    Seq::new(ns.len(), |i: int| ns[i]@)
}

/// What a cluster is, over plain values.
pub struct ClusterModel {
    pub nodes: Seq<NodeModel>,
    pub messages: Seq<MessageModel>,
    pub partitions: Seq<(usize, usize)>,
    pub max_rounds: usize,
    pub randomize_order: bool,
    pub round: usize,
    pub stats: SimulationStats,
}

/// `a + n`, held at the top of the range.
pub open spec fn capped_add(a: usize, n: nat) -> usize {
    if a + n <= usize::MAX {
        (a + n) as usize
    } else {
        usize::MAX
    }
}

/// The messages by which the node `from` sends the update `u` to the nodes
/// with an index below `upto`: one to each node other than itself from
/// which it is not partitioned, in the order of the indices.
pub open spec fn fan_out(u: UpdateModel, from: usize, upto: int, partitions: Seq<(usize, usize)>) -> Seq<MessageModel>
    decreases upto,
{
    if upto <= 0 {
        Seq::empty()
    } else {
        let rest = fan_out(u, from, upto - 1, partitions);
        let to = (upto - 1) as usize;
        if from != to && !pair_partitioned(partitions, from, to) {
            rest.push(MessageModel { from, to, update: u, delay: 0 })
        } else {
            rest
        }
    }
}

/// The messages by which the node `from` sends the updates of `outbox`, in
/// order, to the `num_nodes` nodes of the cluster.
pub open spec fn outbox_messages(outbox: Seq<UpdateModel>, from: usize, num_nodes: int, partitions: Seq<(usize, usize)>) -> Seq<MessageModel>
    decreases outbox.len(),
{
    if outbox.len() == 0 {
        Seq::empty()
    } else {
        outbox_messages(outbox.drop_last(), from, num_nodes, partitions) + fan_out(
            outbox.last(),
            from,
            num_nodes,
            partitions,
        )
    }
}

/// The messages by which the nodes with an index below `upto` send their
/// outboxes, in the order of the nodes.
pub open spec fn broadcast_messages(nodes: Seq<NodeModel>, upto: int, partitions: Seq<(usize, usize)>) -> Seq<MessageModel>
    decreases upto,
{
    if upto <= 0 {
        Seq::empty()
    } else {
        broadcast_messages(nodes, upto - 1, partitions) + outbox_messages(
            nodes[upto - 1].outbox,
            (upto - 1) as usize,
            nodes.len() as int,
            partitions,
        )
    }
}

/// The cluster after the node with index `node` committed the operations
/// `ops`, which are counted.
pub open spec fn commit_step(c: ClusterModel, node: usize, ops: Seq<OperationModel>) -> ClusterModel {
    ClusterModel {
        nodes: c.nodes.update(node as int, committed_on(c.nodes[node as int], ops)),
        stats: SimulationStats {
            operations_committed: capped_sum(c.stats.operations_committed, ops.len() as usize),
            ..c.stats
        },
        ..c
    }
}

/// The error of a commit of the operations `ops`, which are none or not
/// all conflict-free.
pub open spec fn refusal(ops: Seq<OperationModel>) -> CommitErrorModel {
    if ops.len() == 0 {
        CommitErrorModel::EmptyTransaction
    } else {
        CommitErrorModel::NonAlgebraic {
            keys: op_keys(non_algebraic(ops)),
            message: coordination_text(non_algebraic(ops)),
        }
    }
}

/// The operations `ops` can commit without coordination.
pub open spec fn commits(ops: Seq<OperationModel>) -> bool {
    ops.len() > 0 && all_algebraic(ops)
}

/// The cluster after the transactions of `plan` were committed, in order,
/// each on its node.
pub open spec fn committed_all(c: ClusterModel, plan: Seq<(usize, Seq<OperationModel>)>) -> ClusterModel
    decreases plan.len(),
{
    if plan.len() == 0 {
        c
    } else {
        commit_step(committed_all(c, plan.drop_last()), plan.last().0, plan.last().1)
    }
}

/// A cluster of `num_nodes` fresh nodes with the configuration `config`:
/// nothing in transit, no round run, all counters at zero.
pub open spec fn fresh_cluster(num_nodes: usize, config: SimulationConfig) -> ClusterModel {
    ClusterModel {
        nodes: Seq::new(num_nodes as nat, |i: int| SimulatedNode::fresh(i as usize)),
        messages: Seq::empty(),
        partitions: config.partitions@,
        max_rounds: config.max_rounds,
        randomize_order: config.randomize_order,
        round: 0,
        stats: SimulationStats {
            messages_sent: 0,
            messages_delivered: 0,
            messages_dropped: 0,
            rounds_to_converge: None,
            operations_committed: 0,
        },
    }
}

/// The cluster after every node sent its outbox: the outboxes are empty,
/// the messages are in transit behind those that were, and they are
/// counted as sent.
pub open spec fn broadcast(c: ClusterModel) -> ClusterModel {
    let sent = broadcast_messages(c.nodes, c.nodes.len() as int, c.partitions);
    ClusterModel {
        nodes: Seq::new(c.nodes.len(), |i: int| NodeModel { outbox: Seq::empty(), ..c.nodes[i] }),
        messages: c.messages + sent,
        stats: SimulationStats { messages_sent: capped_add(c.stats.messages_sent, sent.len()), ..c.stats },
        ..c
    }
}

/// The cluster after the message `m` reached its end: its receiver took
/// the update and the message counts as delivered, or, where the pair is
/// partitioned by now, the message counts as dropped.
pub open spec fn delivered_one(c: ClusterModel, m: MessageModel) -> ClusterModel {
    if !pair_partitioned(c.partitions, m.from, m.to) {
        ClusterModel {
            nodes: c.nodes.update(m.to as int, received(c.nodes[m.to as int], m.update)),
            stats: SimulationStats { messages_delivered: capped_sum(c.stats.messages_delivered, 1), ..c.stats },
            ..c
        }
    } else {
        ClusterModel {
            stats: SimulationStats { messages_dropped: capped_sum(c.stats.messages_dropped, 1), ..c.stats },
            ..c
        }
    }
}

/// The cluster after the messages `ms` reached their ends, in order.
pub open spec fn deliver(c: ClusterModel, ms: Seq<MessageModel>) -> ClusterModel
    decreases ms.len(),
{
    if ms.len() == 0 {
        c
    } else {
        delivered_one(deliver(c, ms.drop_last()), ms.last())
    }
}

/// The cluster after all messages in transit reached their ends.
pub open spec fn delivered(c: ClusterModel) -> ClusterModel {
    deliver(ClusterModel { messages: Seq::empty(), ..c }, c.messages)
}

/// The cluster after one round: broadcast, delivery, and the round counted.
pub open spec fn round_of(c: ClusterModel) -> ClusterModel {
    let d = delivered(broadcast(c));
    ClusterModel { round: capped_sum(d.round, 1), ..d }
}

/// No node has an update waiting to be sent.
pub open spec fn outboxes_empty(c: ClusterModel) -> bool {
    forall|i: int| 0 <= i < c.nodes.len() ==> (#[trigger] c.nodes[i]).outbox.len() == 0
}

/// The cluster after propagation with at most `rounds` rounds: rounds are
/// run until one starts with empty outboxes and ends with the nodes
/// converged, and that round is recorded in the counters.
pub open spec fn propagated(c: ClusterModel, rounds: nat) -> ClusterModel
    decreases rounds,
{
    if rounds == 0 {
        c
    } else {
        let next = round_of(c);
        if outboxes_empty(c) && converged(next.nodes) {
            ClusterModel { stats: SimulationStats { rounds_to_converge: Some(next.round), ..next.stats }, ..next }
        } else {
            propagated(next, (rounds - 1) as nat)
        }
    }
}

/// A simulated cluster.
#[derive(Debug)]
pub struct SimulatedCluster {
    /// The nodes.
    pub nodes: Vec<SimulatedNode>,
    /// Messages in transit.
    pub messages: VecDeque<Message>,
    /// The configuration.
    pub config: SimulationConfig,
    /// The current round.
    pub round: usize,
    /// The counters.
    pub stats: SimulationStats,
}

impl View for SimulatedCluster {
    type V = ClusterModel;

    open spec fn view(&self) -> ClusterModel {
        ClusterModel {
            nodes: nodes_view(self.nodes@),
            messages: messages_view(self.messages@),
            partitions: self.config.partitions@,
            max_rounds: self.config.max_rounds,
            randomize_order: self.config.randomize_order,
            round: self.round,
            stats: self.stats,
        }
    }
}

/// Fresh nodes with the indices from 0 on.
fn make_nodes(num_nodes: usize) -> (nodes: Vec<SimulatedNode>)
    ensures
        nodes.len() == num_nodes,
        forall|i: int| 0 <= i < num_nodes ==> (#[trigger] nodes[i])@ == SimulatedNode::fresh(i as usize),
{
    let mut nodes: Vec<SimulatedNode> = Vec::new();
    let mut i: usize = 0;
    while i < num_nodes
        invariant
            i <= num_nodes,
            nodes.len() == i,
            forall|j: int| 0 <= j < i ==> (#[trigger] nodes[j])@ == SimulatedNode::fresh(j as usize),
        decreases num_nodes - i,
    {
        nodes.push(SimulatedNode::new(i));
        i += 1;
    }
    nodes
}

impl SimulatedNode {
    /// The model of a node that has just been created.
    pub open spec fn fresh(index: usize) -> NodeModel {
        NodeModel {
            node_id: node_name(index),
            index,
            clock: Map::empty(),
            state: Map::empty(),
            local_updates: Seq::empty(),
            all_updates: Seq::empty(),
            applied_updates: Set::empty(),
            outbox: Seq::empty(),
        }
    }
}

impl SimulatedCluster {
    /// A cluster of `num_nodes` fresh nodes with the default configuration.
    pub fn new(num_nodes: usize) -> (r: Self)
        ensures
            r.nodes.len() == num_nodes,
            r.messages@.len() == 0,
            r.config.max_rounds == 100,
            !r.config.randomize_order,
            r.config.partitions@.len() == 0,
            r@ == fresh_cluster(num_nodes, r.config),
    {
        Self::with_config(num_nodes, SimulationConfig::default())
    }

    /// A cluster of `num_nodes` fresh nodes with the given configuration.
    pub fn with_config(num_nodes: usize, config: SimulationConfig) -> (r: Self)
        ensures
            r.nodes.len() == num_nodes,
            r.messages@.len() == 0,
            r.config == config,
            r@ == fresh_cluster(num_nodes, config),
    {
        let r = SimulatedCluster {
            nodes: make_nodes(num_nodes),
            messages: VecDeque::new(),
            config,
            round: 0,
            stats: SimulationStats::default(),
        };
        proof {
            assert(r@.nodes =~= fresh_cluster(num_nodes, config).nodes);
            assert(r@.messages =~= Seq::<MessageModel>::empty());
        }
        r
    }

    /// The number of nodes.
    pub fn num_nodes(&self) -> (n: usize)
        ensures
            n == self.nodes.len(),
    {
        self.nodes.len()
    }

    /// Commits `tx` on the node with index `node_index` and counts its
    /// operations.
    pub fn commit_on_node(&mut self, node_index: usize, tx: AlgebraicTransaction) -> (r: Result<VersionedUpdate, LocalCommitError>)
        requires
            node_index < old(self).nodes.len(),
        ensures
            final(self).nodes.len() == old(self).nodes.len(),
            final(self).messages == old(self).messages,
            final(self).config == old(self).config,
            r is Ok <==> commits(tx.ops()),
            r matches Err(e) ==> final(self)@ == old(self)@ && e@ == refusal(tx.ops()),
            r matches Ok(u) ==> {
                &&& u@ == local_update(old(self)@.nodes[node_index as int], tx.ops())
                &&& final(self)@ == commit_step(old(self)@, node_index, tx.ops())
            },
    {
        let ghost start = self@;
        let result = self.nodes[node_index].commit(tx);
        let update = match result {
            Ok(u) => u,
            Err(e) => {
                assert(self@.nodes =~= start.nodes);
                return Err(e);
            },
        };
        self.stats.operations_committed = add_capped(self.stats.operations_committed, update.operations().len());
        proof {
            assert(self@.nodes =~= start.nodes.update(
                node_index as int,
                committed_on(start.nodes[node_index as int], tx.ops()),
            ));
        }
        Ok(update)
    }

    /// Whether the nodes `from` and `to` cannot communicate.
    pub fn is_partitioned(&self, from: usize, to: usize) -> (r: bool)
        ensures
            r == pair_partitioned(self.config.partitions@, from, to),
    {
        let mut i: usize = 0;
        while i < self.config.partitions.len()
            invariant
                i <= self.config.partitions.len(),
                forall|j: int| 0 <= j < i ==> !(#[trigger] self.config.partitions@[j] == (from, to) || self.config.partitions@[j] == (to, from)),
            decreases self.config.partitions.len() - i,
        {
            let p = self.config.partitions[i];
            if (p.0 == from && p.1 == to) || (p.0 == to && p.1 == from) {
                return true;
            }
            i += 1;
        }
        false
    }

    /// Empties every outbox and puts, for each update taken out, one message
    /// in transit to every other node that the sender can reach.
    pub fn broadcast_all(&mut self)
        ensures
            final(self)@ == broadcast(old(self)@),
            final(self).config == old(self).config,
            final(self).round == old(self).round,
            forall|i: int| 0 <= i < old(self).messages@.len() ==> final(self).messages@[i] == old(self).messages@[i],
            final(self).messages@.len() >= old(self).messages@.len(),
            forall|i: int| old(self).messages@.len() <= i < final(self).messages@.len() ==> (#[trigger] final(self).messages@[i]).to < final(self).nodes.len(),
            final(self).nodes.len() == old(self).nodes.len(),
    {
        let num_nodes = self.nodes.len();
        let ghost start = self@;
        let ghost parts = start.partitions;
        let mut from: usize = 0;
        proof {
            assert(messages_view(self.messages@) =~= start.messages + broadcast_messages(start.nodes, 0, parts));
        }
        while from < num_nodes
            invariant
                from <= num_nodes,
                num_nodes == self.nodes.len(),
                num_nodes == start.nodes.len(),
                start == old(self)@,
                parts == start.partitions,
                self.config == old(self).config,
                self.round == old(self).round,
                forall|i: int| 0 <= i < from ==> (#[trigger] self.nodes[i])@ == (NodeModel { outbox: Seq::empty(), ..start.nodes[i] }),
                forall|i: int| from <= i < num_nodes ==> (#[trigger] self.nodes[i])@ == start.nodes[i],
                messages_view(self.messages@) == start.messages + broadcast_messages(start.nodes, from as int, parts),
                self.stats == (SimulationStats {
                    messages_sent: capped_add(
                        start.stats.messages_sent,
                        broadcast_messages(start.nodes, from as int, parts).len(),
                    ),
                    ..start.stats
                }),
                self.messages@.len() >= old(self).messages@.len(),
                forall|i: int| 0 <= i < old(self).messages@.len() ==> self.messages@[i] == old(self).messages@[i],
                forall|i: int| old(self).messages@.len() <= i < self.messages@.len() ==> (#[trigger] self.messages@[i]).to < num_nodes,
            decreases num_nodes - from,
        {
            let ghost node0 = self.nodes[from as int]@;
            let ghost ob0 = node0.outbox;
            let ghost sent0 = messages_view(self.messages@);
            let ghost count0 = broadcast_messages(start.nodes, from as int, parts).len();
            let ghost mut k: int = 0;
            proof {
                assert(ob0.subrange(0, 0) =~= Seq::<UpdateModel>::empty());
                assert(ob0.subrange(0, ob0.len() as int) =~= ob0);
                assert(sent0 + outbox_messages(ob0.subrange(0, 0), from, num_nodes as int, parts) =~= sent0);
            }
            loop
                invariant
                    from < num_nodes,
                    num_nodes == self.nodes.len(),
                    num_nodes == start.nodes.len(),
                    start == old(self)@,
                    parts == start.partitions,
                    self.config == old(self).config,
                    self.round == old(self).round,
                    node0 == start.nodes[from as int],
                    ob0 == node0.outbox,
                    0 <= k <= ob0.len(),
                    self.nodes[from as int]@ == (NodeModel { outbox: ob0.subrange(k, ob0.len() as int), ..node0 }),
                    forall|i: int| 0 <= i < from ==> (#[trigger] self.nodes[i])@ == (NodeModel { outbox: Seq::empty(), ..start.nodes[i] }),
                    forall|i: int| from < i < num_nodes ==> (#[trigger] self.nodes[i])@ == start.nodes[i],
                    messages_view(self.messages@) == sent0 + outbox_messages(ob0.subrange(0, k), from, num_nodes as int, parts),
                    self.stats == (SimulationStats {
                        messages_sent: capped_add(
                            start.stats.messages_sent,
                            count0 + outbox_messages(ob0.subrange(0, k), from, num_nodes as int, parts).len(),
                        ),
                        ..start.stats
                    }),
                    self.messages@.len() >= old(self).messages@.len(),
                    forall|i: int| 0 <= i < old(self).messages@.len() ==> self.messages@[i] == old(self).messages@[i],
                    forall|i: int| old(self).messages@.len() <= i < self.messages@.len() ==> (#[trigger] self.messages@[i]).to < num_nodes,
                ensures
                    k == ob0.len(),
                    self.nodes[from as int]@ == (NodeModel { outbox: Seq::empty(), ..node0 }),
                decreases ob0.len() - k,
            {
                let ghost ob = updates_view(self.nodes[from as int].outbox@);
                let ghost queue = self.nodes[from as int].outbox@;
                let update = match self.nodes[from].outbox.pop_front() {
                    Some(u) => u,
                    None => {
                        proof {
                            assert(ob.len() == 0);
                            assert(k == ob0.len());
                            assert(updates_view(self.nodes[from as int].outbox@) =~= Seq::<UpdateModel>::empty());
                        }
                        break ;
                    },
                };
                let ghost sent1 = messages_view(self.messages@);
                let ghost count1 = count0 + outbox_messages(ob0.subrange(0, k), from, num_nodes as int, parts).len();
                proof {
                    assert(queue.len() > 0 && update == queue[0]);
                    assert(ob.len() == queue.len());
                    assert(ob[0] == update@);
                    assert(ob == ob0.subrange(k, ob0.len() as int));
                    assert(k < ob0.len());
                    assert(ob0.subrange(k, ob0.len() as int)[0] == ob0[k]);
                    assert(update@ == ob0[k]);
                    let rest = self.nodes[from as int].outbox@;
                    assert(rest == queue.subrange(1, queue.len() as int));
                    assert forall|i: int| 0 <= i < rest.len() implies updates_view(rest)[i] == ob0.subrange(
                        k + 1,
                        ob0.len() as int,
                    )[i] by {
                        assert(rest[i] == queue[i + 1]);
                        assert(ob[i + 1] == queue[i + 1]@);
                        assert(ob0.subrange(k, ob0.len() as int)[i + 1] == ob0[k + 1 + i]);
                    }
                    assert(updates_view(rest) =~= ob0.subrange(k + 1, ob0.len() as int));
                    assert(sent1 + fan_out(update@, from, 0, parts) =~= sent1);
                }
                let mut to: usize = 0;
                while to < num_nodes
                    invariant
                        to <= num_nodes,
                        from < num_nodes,
                        num_nodes == self.nodes.len(),
                        num_nodes == start.nodes.len(),
                        start == old(self)@,
                        parts == start.partitions,
                        self.config == old(self).config,
                        self.round == old(self).round,
                        0 <= k < ob0.len(),
                        update@ == ob0[k],
                        self.nodes[from as int]@ == (NodeModel { outbox: ob0.subrange(k + 1, ob0.len() as int), ..node0 }),
                        forall|i: int| 0 <= i < from ==> (#[trigger] self.nodes[i])@ == (NodeModel { outbox: Seq::empty(), ..start.nodes[i] }),
                        forall|i: int| from < i < num_nodes ==> (#[trigger] self.nodes[i])@ == start.nodes[i],
                        messages_view(self.messages@) == sent1 + fan_out(update@, from, to as int, parts),
                        self.stats == (SimulationStats {
                            messages_sent: capped_add(
                                start.stats.messages_sent,
                                count1 + fan_out(update@, from, to as int, parts).len(),
                            ),
                            ..start.stats
                        }),
                        self.messages@.len() >= old(self).messages@.len(),
                        forall|i: int| 0 <= i < old(self).messages@.len() ==> self.messages@[i] == old(self).messages@[i],
                        forall|i: int| old(self).messages@.len() <= i < self.messages@.len() ==> (#[trigger] self.messages@[i]).to < num_nodes,
                    decreases num_nodes - to,
                {
                    let ghost before = messages_view(self.messages@);
                    if from != to && !self.is_partitioned(from, to) {
                        let m = Message { from, to, update: update.clone(), delay: 0 };
                        let ghost mm = m@;
                        self.messages.push_back(m);
                        self.stats.messages_sent = add_capped(self.stats.messages_sent, 1);
                        proof {
                            assert(messages_view(self.messages@) =~= before.push(mm));
                            assert(before.push(mm) =~= sent1 + fan_out(update@, from, to + 1, parts));
                        }
                    }
                    to += 1;
                }
                proof {
                    let longer = ob0.subrange(0, k + 1);
                    assert(longer.drop_last() =~= ob0.subrange(0, k));
                    assert(longer.last() == ob0[k]);
                    assert(sent1 + fan_out(update@, from, num_nodes as int, parts) =~= sent0 + outbox_messages(
                        longer,
                        from,
                        num_nodes as int,
                        parts,
                    ));
                    k = k + 1;
                }
            }
            proof {
                assert(ob0.subrange(0, ob0.len() as int) =~= ob0);
                assert(sent0 + outbox_messages(ob0, from, num_nodes as int, parts) =~= start.messages + broadcast_messages(
                    start.nodes,
                    from + 1,
                    parts,
                ));
            }
            from += 1;
        }
        proof {
            assert(self@.nodes =~= broadcast(start).nodes);
        }
    }

    /// Delivers every message in transit to its receiver, unless the pair is
    /// partitioned by now; the queue of messages is empty afterwards.
    pub fn deliver_messages(&mut self)
        requires
            forall|i: int| 0 <= i < old(self).messages@.len() ==> (#[trigger] old(self).messages@[i]).to < old(self).nodes.len(),
        ensures
            final(self)@ == delivered(old(self)@),
            final(self).nodes.len() == old(self).nodes.len(),
            final(self).messages@.len() == 0,
            final(self).config == old(self).config,
            final(self).round == old(self).round,
    {
        let ghost start = self@;
        let ghost msgs = start.messages;
        let ghost base = ClusterModel { messages: Seq::empty(), ..start };
        let ghost mut k: int = 0;
        proof {
            assert(msgs.subrange(0, 0) =~= Seq::<MessageModel>::empty());
            assert(msgs.subrange(0, msgs.len() as int) =~= msgs);
        }
        loop
            invariant
                start == old(self)@,
                msgs == start.messages,
                base == (ClusterModel { messages: Seq::empty(), ..start }),
                0 <= k <= msgs.len(),
                self.nodes.len() == old(self).nodes.len(),
                self.config == old(self).config,
                self.round == old(self).round,
                messages_view(self.messages@) == msgs.subrange(k, msgs.len() as int),
                (ClusterModel { messages: Seq::empty(), ..self@ }) == deliver(base, msgs.subrange(0, k)),
                forall|i: int| 0 <= i < self.messages@.len() ==> (#[trigger] self.messages@[i]).to < self.nodes.len(),
            ensures
                self.messages@.len() == 0,
                k == msgs.len(),
            decreases self.messages@.len(),
        {
            let ghost before = self.messages@;
            let ghost now = ClusterModel { messages: Seq::empty(), ..self@ };
            let msg = match self.messages.pop_front() {
                Some(m) => m,
                None => {
                    proof {
                        assert(messages_view(self.messages@).len() == 0);
                    }
                    break ;
                },
            };
            proof {
                assert(before.len() > 0 && msg == before[0]);
                assert(messages_view(before).len() == before.len());
                assert(messages_view(before) == msgs.subrange(k, msgs.len() as int));
                assert(k < msgs.len());
                assert(messages_view(before)[0] == msg@);
                assert(msgs.subrange(k, msgs.len() as int)[0] == msgs[k]);
                assert(msg@ == msgs[k]);
                assert(self.messages@ == before.subrange(1, before.len() as int));
                assert forall|i: int| 0 <= i < self.messages@.len() implies (#[trigger] self.messages@[i]).to < self.nodes.len() by {
                    assert(self.messages@[i] == before[i + 1]);
                }
                assert forall|i: int| 0 <= i < self.messages@.len() implies messages_view(self.messages@)[i] == msgs.subrange(
                    k + 1,
                    msgs.len() as int,
                )[i] by {
                    assert(self.messages@[i] == before[i + 1]);
                    assert(messages_view(before)[i + 1] == before[i + 1]@);
                    assert(msgs.subrange(k, msgs.len() as int)[i + 1] == msgs[k + 1 + i]);
                }
                assert(messages_view(self.messages@) =~= msgs.subrange(k + 1, msgs.len() as int));
                let longer = msgs.subrange(0, k + 1);
                assert(longer.drop_last() =~= msgs.subrange(0, k));
                assert(longer.last() == msgs[k]);
            }
            if !self.is_partitioned(msg.from, msg.to) {
                let ghost nodes0 = self@.nodes;
                self.nodes[msg.to].receive_update(&msg.update);
                self.stats.messages_delivered = add_capped(self.stats.messages_delivered, 1);
                proof {
                    assert(self@.nodes =~= nodes0.update(msg.to as int, received(nodes0[msg.to as int], msg@.update)));
                }
            } else {
                self.stats.messages_dropped = add_capped(self.stats.messages_dropped, 1);
                proof {
                    assert(self@.nodes =~= now.nodes);
                }
            }
            proof {
                assert((ClusterModel { messages: Seq::empty(), ..self@ }) == delivered_one(now, msg@));
                k = k + 1;
            }
        }
        proof {
            assert(msgs.subrange(0, msgs.len() as int) =~= msgs);
            assert(self@.messages =~= Seq::<MessageModel>::empty());
        }
    }

    /// One round: broadcast, deliver, and count the round.
    pub fn propagate_round(&mut self)
        requires
            forall|i: int| 0 <= i < old(self).messages@.len() ==> (#[trigger] old(self).messages@[i]).to < old(self).nodes.len(),
        ensures
            final(self)@ == round_of(old(self)@),
            final(self).nodes.len() == old(self).nodes.len(),
            final(self).messages@.len() == 0,
            final(self).config == old(self).config,
    {
        self.broadcast_all();
        self.deliver_messages();
        self.round = add_capped(self.round, 1);
    }

    /// Runs rounds until a round starts with empty outboxes and ends with
    /// the nodes converged, or until the configured number of rounds is
    /// spent. In the first case the round is recorded in the counters.
    pub fn propagate_all(&mut self)
        requires
            forall|i: int| 0 <= i < old(self).messages@.len() ==> (#[trigger] old(self).messages@[i]).to < old(self).nodes.len(),
        ensures
            final(self)@ == propagated(old(self)@, old(self)@.max_rounds as nat),
            final(self).nodes.len() == old(self).nodes.len(),
            final(self).config == old(self).config,
    {
        let ghost start = self@;
        let mut r: usize = 0;
        while r < self.config.max_rounds
            invariant
                r <= self.config.max_rounds,
                start == old(self)@,
                self.config.max_rounds == start.max_rounds,
                self.config == old(self).config,
                self.nodes.len() == old(self).nodes.len(),
                propagated(start, start.max_rounds as nat) == propagated(self@, (start.max_rounds - r) as nat),
                forall|i: int| 0 <= i < self.messages@.len() ==> (#[trigger] self.messages@[i]).to < self.nodes.len(),
            decreases self.config.max_rounds - r,
        {
            let ghost before = self@;
            let had_messages = !self.all_outboxes_empty();
            proof {
                assert(had_messages == !outboxes_empty(before)) by {
                    if outboxes_empty(before) {
                        assert forall|i: int| 0 <= i < self.nodes.len() implies (#[trigger] self.nodes[i]).outbox@.len() == 0 by {
                            assert(before.nodes[i].outbox.len() == 0);
                        }
                    } else {
                        let i = choose|i: int| 0 <= i < before.nodes.len() && (#[trigger] before.nodes[i]).outbox.len() != 0;
                        assert(self.nodes[i]@.outbox.len() != 0);
                    }
                }
            }
            self.propagate_round();
            let ghost next = self@;
            proof {
                assert(next == round_of(before));
                assert(propagated(before, (start.max_rounds - r) as nat) == (if outboxes_empty(before) && converged(next.nodes) {
                    ClusterModel {
                        stats: SimulationStats { rounds_to_converge: Some(next.round), ..next.stats },
                        ..next
                    }
                } else {
                    propagated(next, ((start.max_rounds - r) - 1) as nat)
                }));
            }
            if !had_messages && self.verify_convergence() {
                self.stats.rounds_to_converge = Some(self.round);
                proof {
                    assert(outboxes_empty(before) && converged(next.nodes));
                    assert(self@.nodes =~= next.nodes);
                    assert(self@.messages =~= next.messages);
                    assert(self@.stats == (SimulationStats { rounds_to_converge: Some(next.round), ..next.stats }));
                    assert(self@ == (ClusterModel {
                        stats: SimulationStats { rounds_to_converge: Some(next.round), ..next.stats },
                        ..next
                    }));
                    assert(self@ == propagated(before, (start.max_rounds - r) as nat));
                }
                return ;
            }
            r += 1;
        }
    }

    /// Whether no node has an update waiting to be sent.
    fn all_outboxes_empty(&self) -> (r: bool)
        ensures
            r == (forall|i: int| 0 <= i < self.nodes.len() ==> (#[trigger] self.nodes[i]).outbox@.len() == 0),
    {
        let mut i: usize = 0;
        while i < self.nodes.len()
            invariant
                i <= self.nodes.len(),
                forall|j: int| 0 <= j < i ==> (#[trigger] self.nodes[j]).outbox@.len() == 0,
            decreases self.nodes.len() - i,
        {
            if self.nodes[i].outbox.len() != 0 {
                return false;
            }
            i += 1;
        }
        true
    }

    /// Partitions the nodes `node_a` and `node_b` from each other.
    pub fn partition(&mut self, node_a: usize, node_b: usize)
        ensures
            final(self).config.partitions@ == old(self).config.partitions@.push((node_a, node_b)),
            final(self).config.max_rounds == old(self).config.max_rounds,
            final(self).config.randomize_order == old(self).config.randomize_order,
            final(self).nodes == old(self).nodes,
            final(self).messages == old(self).messages,
            final(self).round == old(self).round,
            final(self).stats == old(self).stats,
    {
        self.config.partitions.push((node_a, node_b));
    }

    /// Removes all partitions.
    pub fn heal_partitions(&mut self)
        ensures
            final(self).config.partitions@.len() == 0,
            final(self).config.max_rounds == old(self).config.max_rounds,
            final(self).config.randomize_order == old(self).config.randomize_order,
            final(self).nodes == old(self).nodes,
            final(self).messages == old(self).messages,
            final(self).round == old(self).round,
            final(self).stats == old(self).stats,
    {
        self.config.partitions.clear();
    }

    /// Queues, on every node, all updates that the node knows, its own and
    /// the received ones, behind what its outbox holds.
    pub fn requeue_all_updates(&mut self)
        ensures
            final(self).nodes.len() == old(self).nodes.len(),
            forall|i: int| 0 <= i < final(self).nodes.len() ==> (#[trigger] final(self).nodes[i])@ == (NodeModel {
                outbox: old(self).nodes[i]@.outbox + old(self).nodes[i]@.all_updates,
                ..old(self).nodes[i]@
            }),
            final(self).messages == old(self).messages,
            final(self).config == old(self).config,
            final(self).round == old(self).round,
            final(self).stats == old(self).stats,
    {
        let n = self.nodes.len();
        let mut i: usize = 0;
        while i < n
            invariant
                i <= n,
                n == self.nodes.len(),
                self.nodes.len() == old(self).nodes.len(),
                self.messages == old(self).messages,
                self.config == old(self).config,
                self.round == old(self).round,
                self.stats == old(self).stats,
                forall|k: int| 0 <= k < i ==> (#[trigger] self.nodes[k])@ == (NodeModel {
                    outbox: old(self).nodes[k]@.outbox + old(self).nodes[k]@.all_updates,
                    ..old(self).nodes[k]@
                }),
                forall|k: int| i <= k < n ==> self.nodes[k] == old(self).nodes[k],
            decreases n - i,
        {
            let ghost node0 = self.nodes[i as int]@;
            let m = self.nodes[i].all_updates.len();
            let mut j: usize = 0;
            proof {
                assert(node0.all_updates.subrange(0, 0) =~= Seq::<UpdateModel>::empty());
                assert(node0.outbox + Seq::<UpdateModel>::empty() =~= node0.outbox);
            }
            while j < m
                invariant
                    j <= m,
                    i < n,
                    n == self.nodes.len(),
                    self.nodes.len() == old(self).nodes.len(),
                    self.messages == old(self).messages,
                    self.config == old(self).config,
                    self.round == old(self).round,
                    self.stats == old(self).stats,
                    node0 == old(self).nodes[i as int]@,
                    m == node0.all_updates.len(),
                    self.nodes[i as int]@ == (NodeModel { outbox: node0.outbox + node0.all_updates.subrange(0, j as int), ..node0 }),
                    forall|k: int| 0 <= k < i ==> (#[trigger] self.nodes[k])@ == (NodeModel {
                        outbox: old(self).nodes[k]@.outbox + old(self).nodes[k]@.all_updates,
                        ..old(self).nodes[k]@
                    }),
                    forall|k: int| i < k < n ==> self.nodes[k] == old(self).nodes[k],
                decreases m - j,
            {
                let u = self.nodes[i].all_updates[j].clone();
                let ghost ob = updates_view(self.nodes[i as int].outbox@);
                self.nodes[i].outbox.push_back(u);
                proof {
                    assert(updates_view(self.nodes[i as int].outbox@) =~= ob.push(u@));
                    assert(node0.all_updates.subrange(0, j + 1) =~= node0.all_updates.subrange(0, j as int).push(u@));
                    assert(ob.push(u@) =~= node0.outbox + node0.all_updates.subrange(0, j + 1));
                }
                j += 1;
            }
            assert(node0.all_updates.subrange(0, m as int) =~= node0.all_updates);
            i += 1;
        }
    }

    /// Whether every node holds the same value for every key.
    pub fn verify_convergence(&self) -> (r: bool)
        ensures
            r == converged(self@.nodes),
    {
        let n = self.nodes.len();
        proof {
            assert forall|i: int| 0 <= i < n implies self@.nodes[i] == (#[trigger] self.nodes[i])@ by {}
        }
        if n == 0 {
            return true;
        }
        let mut i: usize = 0;
        // First pass: whatever a node holds, the first node holds too.
        while i < n
            invariant
                i <= n,
                n == self.nodes.len(),
                n > 0,
                forall|a: int, k: Seq<char>| 0 <= a < i && self.nodes[a]@.state.contains_key(k) ==> #[trigger] node_value(self.nodes[a]@, k) == node_value(self.nodes[0]@, k),
            decreases n - i,
        {
            let keys = self.nodes[i].keys();
            let mut j: usize = 0;
            while j < keys.len()
                invariant
                    j <= keys.len(),
                    i < n,
                    n == self.nodes.len(),
                    forall|k: Seq<char>| keys.deep_view().contains(k) <==> self.nodes[i as int]@.state.contains_key(k),
                    forall|t: int| 0 <= t < j ==> node_value(self.nodes[i as int]@, #[trigger] keys.deep_view()[t]) == node_value(self.nodes[0]@, keys.deep_view()[t]),
                decreases keys.len() - j,
            {
                let key = keys[j].as_str();
                assert(keys.deep_view()[j as int] == key@);
                let mine = self.nodes[i].get_state(key);
                let first = self.nodes[0].get_state(key);
                let same = match (mine, first) {
                    (Some(a), Some(b)) => values_equal(a, b),
                    (None, None) => true,
                    _ => false,
                };
                if !same {
                    assert(node_value(self.nodes[i as int]@, key@) != node_value(self.nodes[0]@, key@));
                    assert(self@.nodes[i as int] == self.nodes[i as int]@ && self@.nodes[0] == self.nodes[0]@);
                    return false;
                }
                j += 1;
            }
            proof {
                assert forall|k: Seq<char>| self.nodes[i as int]@.state.contains_key(k) implies #[trigger] node_value(self.nodes[i as int]@, k) == node_value(self.nodes[0]@, k) by {
                    assert(keys.deep_view().contains(k));
                    let t = keys.deep_view().index_of(k);
                    assert(keys.deep_view()[t] == k);
                }
            }
            i += 1;
        }
        // Second pass: whatever the first node holds, every node holds.
        let keys0 = self.nodes[0].keys();
        let mut a: usize = 0;
        while a < n
            invariant
                a <= n,
                n == self.nodes.len(),
                n > 0,
                forall|k: Seq<char>| keys0.deep_view().contains(k) <==> self.nodes[0]@.state.contains_key(k),
                forall|b: int, k: Seq<char>| 0 <= b < n && self.nodes[b]@.state.contains_key(k) ==> #[trigger] node_value(self.nodes[b]@, k) == node_value(self.nodes[0]@, k),
                forall|b: int, k: Seq<char>| 0 <= b < a && self.nodes[0]@.state.contains_key(k) ==> #[trigger] node_value(self.nodes[b]@, k) == node_value(self.nodes[0]@, k),
            decreases n - a,
        {
            let mut j: usize = 0;
            while j < keys0.len()
                invariant
                    j <= keys0.len(),
                    a < n,
                    n == self.nodes.len(),
                    n > 0,
                    forall|t: int| 0 <= t < j ==> self.nodes[a as int]@.state.contains_key(#[trigger] keys0.deep_view()[t]),
                    forall|b: int, k: Seq<char>| 0 <= b < n && self.nodes[b]@.state.contains_key(k) ==> #[trigger] node_value(self.nodes[b]@, k) == node_value(self.nodes[0]@, k),
                    forall|k: Seq<char>| keys0.deep_view().contains(k) <==> self.nodes[0]@.state.contains_key(k),
                decreases keys0.len() - j,
            {
                let key = keys0[j].as_str();
                assert(keys0.deep_view()[j as int] == key@);
                if self.nodes[a].get_state(key).is_none() {
                    proof {
                        assert(keys0.deep_view().contains(key@));
                        assert(node_value(self.nodes[a as int]@, key@) != node_value(self.nodes[0]@, key@));
                        assert(self@.nodes[a as int] == self.nodes[a as int]@ && self@.nodes[0] == self.nodes[0]@);
                    }
                    return false;
                }
                j += 1;
            }
            proof {
                assert forall|k: Seq<char>| self.nodes[0]@.state.contains_key(k) implies #[trigger] node_value(self.nodes[a as int]@, k) == node_value(self.nodes[0]@, k) by {
                    assert(keys0.deep_view().contains(k));
                    let t = keys0.deep_view().index_of(k);
                    assert(keys0.deep_view()[t] == k);
                    assert(self.nodes[a as int]@.state.contains_key(k));
                }
            }
            a += 1;
        }
        proof {
            assert forall|b: int, k: Seq<char>| 0 <= b < n implies #[trigger] node_value(self.nodes[b]@, k) == node_value(self.nodes[0]@, k) by {
                if !self.nodes[b]@.state.contains_key(k) && self.nodes[0]@.state.contains_key(k) {
                    assert(node_value(self.nodes[b]@, k) == node_value(self.nodes[0]@, k));
                }
            }
            assert forall|b: int, k: Seq<char>| 0 <= b < self@.nodes.len() implies #[trigger] node_value(self@.nodes[b], k) == node_value(self@.nodes[0], k) by {
                assert(self@.nodes[b] == self.nodes[b]@ && self@.nodes[0] == self.nodes[0]@);
                assert(node_value(self.nodes[b]@, k) == node_value(self.nodes[0]@, k));
            }
        }
        true
    }

    /// The value that the node `node_index` holds for `key`.
    pub fn get_node_state(&self, node_index: usize, key: &str) -> (r: Option<&AlgebraicValue>)
        requires
            node_index < self.nodes.len(),
        ensures
            r is Some == self.nodes[node_index as int]@.state.contains_key(key@),
            r is Some ==> r->0@ == self.nodes[node_index as int]@.state[key@].1,
    {
        self.nodes[node_index].get_state(key)
    }

    /// The counters.
    pub fn get_stats(&self) -> (r: &SimulationStats)
        ensures
            *r == self.stats,
    {
        &self.stats
    }

    /// The keys that some node holds, sorted and without repeats.
    pub fn all_keys(&self) -> (r: Vec<String>)
        ensures
            crate::strmap::sorted_strict(r.deep_view()),
            forall|k: Seq<char>| r.deep_view().contains(k) <==> exists|i: int| 0 <= i < self.nodes.len() && (#[trigger] self.nodes[i])@.state.contains_key(k),
    {
        let mut set = StrSet::new();
        let mut i: usize = 0;
        while i < self.nodes.len()
            invariant
                i <= self.nodes.len(),
                forall|k: Seq<char>| set@.contains(k) <==> exists|a: int| 0 <= a < i && (#[trigger] self.nodes[a])@.state.contains_key(k),
            decreases self.nodes.len() - i,
        {
            let keys = self.nodes[i].keys();
            let ghost start = set@;
            let ghost names = keys.deep_view();
            let mut j: usize = 0;
            while j < keys.len()
                invariant
                    j <= keys.len(),
                    i < self.nodes.len(),
                    names == keys.deep_view(),
                    forall|k: Seq<char>| #[trigger] set@.contains(k) <==> (start.contains(k) || in_prefix(names, j as int, k)),
                decreases keys.len() - j,
            {
                let ghost before = set@;
                set.insert(keys[j].clone());
                proof {
                    assert(names[j as int] == keys[j as int]@);
                    assert forall|k: Seq<char>| #[trigger] set@.contains(k) <==> (start.contains(k) || in_prefix(names, j + 1, k)) by {
                        lemma_prefix_step(names, j as int, k);
                        assert(set@.contains(k) <==> (before.contains(k) || k == names[j as int]));
                    }
                }
                j += 1;
            }
            proof {
                assert forall|k: Seq<char>| in_prefix(names, names.len() as int, k) <==> names.contains(k) by {
                    lemma_prefix_all(names, k);
                }
                assert forall|k: Seq<char>| set@.contains(k) <==> exists|a: int| 0 <= a < i + 1 && (#[trigger] self.nodes[a])@.state.contains_key(k) by {
                    if start.contains(k) {
                        let a = choose|a: int| 0 <= a < i && (#[trigger] self.nodes[a])@.state.contains_key(k);
                        assert(0 <= a < i + 1 && self.nodes[a]@.state.contains_key(k));
                    }
                    if names.contains(k) {
                        assert(self.nodes[i as int]@.state.contains_key(k));
                    }
                    if exists|a: int| 0 <= a < i + 1 && (#[trigger] self.nodes[a])@.state.contains_key(k) {
                        let a = choose|a: int| 0 <= a < i + 1 && (#[trigger] self.nodes[a])@.state.contains_key(k);
                        if a == i {
                            assert(names.contains(k));
                        } else {
                            assert(0 <= a < i && self.nodes[a]@.state.contains_key(k));
                        }
                    }
                }
            }
            i += 1;
        }
        set.to_vec()
    }
}

/// A step-by-step description of a simulation: nodes, configuration and the
/// transactions to commit before propagation starts.
#[derive(Debug)]
pub struct SimulationBuilder {
    num_nodes: usize,
    config: SimulationConfig,
    initial_operations: Vec<(usize, AlgebraicTransaction)>,
}

impl SimulationBuilder {
    /// The number of nodes.
    pub closed spec fn nodes(&self) -> usize {
        self.num_nodes
    }

    /// The configuration so far.
    pub closed spec fn settings(&self) -> SimulationConfig {
        self.config
    }

    /// The transactions to commit, in order: for each the index of its node
    /// and its operations.
    pub closed spec fn plan(&self) -> Seq<(usize, Seq<OperationModel>)> {
        plan_view(self.initial_operations@)
    }

    /// A builder for `num_nodes` nodes with the default configuration and no
    /// transaction.
    pub fn new(num_nodes: usize) -> (r: Self)
        ensures
            r.nodes() == num_nodes,
            r.settings().max_rounds == 100,
            !r.settings().randomize_order,
            r.settings().partitions@.len() == 0,
            r.plan().len() == 0,
    {
        SimulationBuilder { num_nodes, config: SimulationConfig::default(), initial_operations: Vec::new() }
    }

    /// Sets the maximum number of rounds.
    pub fn max_rounds(self, rounds: usize) -> (r: Self)
        ensures
            r.nodes() == self.nodes(),
            r.plan() == self.plan(),
            r.settings().max_rounds == rounds,
            r.settings().randomize_order == self.settings().randomize_order,
            r.settings().partitions == self.settings().partitions,
    {
        let mut r = self;
        r.config.max_rounds = rounds;
        r
    }

    /// Turns message reordering on.
    pub fn with_reordering(self) -> (r: Self)
        ensures
            r.nodes() == self.nodes(),
            r.plan() == self.plan(),
            r.settings().max_rounds == self.settings().max_rounds,
            r.settings().randomize_order,
            r.settings().partitions == self.settings().partitions,
    {
        let mut r = self;
        r.config.randomize_order = true;
        r
    }

    /// Partitions two nodes from each other.
    pub fn with_partition(self, node_a: usize, node_b: usize) -> (r: Self)
        ensures
            r.nodes() == self.nodes(),
            r.plan() == self.plan(),
            r.settings().max_rounds == self.settings().max_rounds,
            r.settings().randomize_order == self.settings().randomize_order,
            r.settings().partitions@ == self.settings().partitions@.push((node_a, node_b)),
    {
        let mut r = self;
        r.config.partitions.push((node_a, node_b));
        r
    }

    /// Adds a transaction to commit on `node` before propagation.
    pub fn with_operation(self, node: usize, tx: AlgebraicTransaction) -> (r: Self)
        ensures
            r.nodes() == self.nodes(),
            r.settings() == self.settings(),
            r.plan() == self.plan().push((node, tx.ops())),
    {
        let mut r = self;
        r.initial_operations.push((node, tx));
        assert(r.plan() =~= self.plan().push((node, tx.ops())));
        r
    }

    /// Builds the cluster, commits the transactions in order, and
    /// propagates. The first commit that fails ends the run with its error.
    /// Every transaction must name a node of the cluster.
    pub fn run(self) -> (r: Result<SimulatedCluster, LocalCommitError>)
        requires
            forall|i: int| 0 <= i < self.plan().len() ==> (#[trigger] self.plan()[i]).0 < self.nodes(),
        ensures
            r is Ok <==> forall|i: int| 0 <= i < self.plan().len() ==> commits((#[trigger] self.plan()[i]).1),
            r matches Ok(c) ==> c@ == propagated(
                committed_all(fresh_cluster(self.nodes(), self.settings()), self.plan()),
                self.settings().max_rounds as nat,
            ),
            r matches Err(e) ==> exists|i: int| 0 <= i < self.plan().len() && !commits((#[trigger] self.plan()[i]).1) && e@ == refusal(
                self.plan()[i].1,
            ) && forall|j: int| 0 <= j < i ==> commits((#[trigger] self.plan()[j]).1),
    {
        let mut cluster = SimulatedCluster::with_config(self.num_nodes, self.config);
        let mut ops = self.initial_operations;
        let ghost plan = plan_view(ops@);
        let ghost fresh = cluster@;
        let ghost mut k: int = 0;
        proof {
            assert(plan.subrange(0, 0) =~= Seq::<(usize, Seq<OperationModel>)>::empty());
            assert(plan.subrange(0, plan.len() as int) =~= plan);
        }
        while ops.len() > 0
            invariant
                plan == self.plan(),
                fresh == fresh_cluster(self.num_nodes, self.config),
                0 <= k <= plan.len(),
                plan_view(ops@) == plan.subrange(k, plan.len() as int),
                cluster.nodes.len() == self.num_nodes,
                cluster.config == self.config,
                cluster.messages@.len() == 0,
                cluster@ == committed_all(fresh, plan.subrange(0, k)),
                forall|j: int| 0 <= j < k ==> commits((#[trigger] plan[j]).1),
                forall|i: int| 0 <= i < plan.len() ==> (#[trigger] plan[i]).0 < self.num_nodes,
            decreases ops.len(),
        {
            let ghost before = ops@;
            let (node_index, tx) = ops.remove(0);
            proof {
                assert(plan_view(before).len() == before.len());
                assert(k < plan.len());
                assert(plan_view(before)[0] == (before[0].0, before[0].1.ops()));
                assert(plan.subrange(k, plan.len() as int)[0] == plan[k]);
                assert(plan[k] == (node_index, tx.ops()));
                assert forall|i: int| 0 <= i < ops.len() implies plan_view(ops@)[i] == plan.subrange(
                    k + 1,
                    plan.len() as int,
                )[i] by {
                    assert(ops[i] == before[i + 1]);
                    assert(plan_view(before)[i + 1] == (before[i + 1].0, before[i + 1].1.ops()));
                    assert(plan.subrange(k, plan.len() as int)[i + 1] == plan[k + 1 + i]);
                }
                assert(plan_view(ops@) =~= plan.subrange(k + 1, plan.len() as int));
                let longer = plan.subrange(0, k + 1);
                assert(longer.drop_last() =~= plan.subrange(0, k));
                assert(longer.last() == plan[k]);
            }
            match cluster.commit_on_node(node_index, tx) {
                Ok(_) => {},
                Err(e) => {
                    return Err(e);
                },
            }
            proof {
                k = k + 1;
            }
        }
        proof {
            assert(k == plan.len());
            assert(plan.subrange(0, plan.len() as int) =~= plan);
        }
        cluster.propagate_all();
        Ok(cluster)
    }
}

/// For each transaction of a builder the index of its node and its
/// operations.
pub open spec fn plan_view(ops: Seq<(usize, AlgebraicTransaction)>) -> Seq<(usize, Seq<OperationModel>)> {
    Seq::new(ops.len(), |i: int| (ops[i].0, ops[i].1.ops()))
}

} // verus!
