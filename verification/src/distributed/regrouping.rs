//! Convergence of pairwise merges: however the updates of a set are grouped
//! and ordered when they are merged two by two, the merged update holds,
//! for every key, the same operation.

use vstd::prelude::*;
use crate::algebraic::types::OpType;
use crate::distributed::convergence::{key_math, key_step, lemma_fold_concat, lemma_fold_single_key, lemma_fold_without_key, lemma_lift_injective, lemma_math_associative, lemma_math_commutative, lemma_merge_key_in_model, lift, math_merge, MathValue};
use crate::distributed::local_commit::{all_algebraic, has_key, merged_ops_are, op_keys, OperationModel, UpdateModel};
use crate::distributed::vector_clock::{is_clock_max, max_time, time_at};
use crate::strmap::lemma_sorted_distinct;

verus! {

/// A way to merge updates two by two: one update, or the merge of two such
/// ways, together with the update that the merge gave.
pub enum MergeTree {
    Leaf(UpdateModel),
    Node(Box<MergeTree>, Box<MergeTree>, UpdateModel),
}

impl MergeTree {
    /// The update at the root: the update itself, or what the last merge
    /// gave.
    pub open spec fn outcome(self) -> UpdateModel {
        match self {
            MergeTree::Leaf(u) => u,
            MergeTree::Node(_, _, merged) => merged,
        }
    }

    /// The updates that are merged, from left to right.
    pub open spec fn updates(self) -> Seq<UpdateModel>
        decreases self,
    {
        match self {
            MergeTree::Leaf(u) => seq![u],
            MergeTree::Node(left, right, _) => left.updates() + right.updates(),
        }
    }

    /// Every merge of the tree gave what a successful merge of two updates
    /// gives: one operation per key, the merge of the operations that both
    /// sides hold on the key, and the pointwise maximum of the two clocks.
    pub open spec fn well_merged(self) -> bool
        decreases self,
    {
        match self {
            MergeTree::Leaf(_) => true,
            MergeTree::Node(left, right, merged) => {
                &&& left.well_merged()
                &&& right.well_merged()
                &&& merged_ops_are(left.outcome().operations + right.outcome().operations, merged.operations)
                &&& is_clock_max(merged.clock, left.outcome().clock, right.outcome().clock)
            },
        }
    }
}

/// Every operation of the updates is conflict-free, and every operation on
/// `key` has the type `op`.
pub open spec fn leaves_fit(us: Seq<UpdateModel>, key: Seq<char>, op: OpType) -> bool {
    forall|i: int, j: int|
        0 <= i < us.len() && 0 <= j < us[i].operations.len() ==> (#[trigger] us[i].operations[j]).op_type.conflict_free() && (
        us[i].operations[j].key == key ==> us[i].operations[j].op_type == op)
}

/// Some update holds an operation on `key`.
pub open spec fn leaves_have(us: Seq<UpdateModel>, key: Seq<char>) -> bool {
    exists|i: int| 0 <= i < us.len() && has_key(#[trigger] us[i].operations, key)
}

/// One step of the model fold over updates: the model value of the key in
/// the update is merged in.
pub open spec fn update_step(op: OpType, key: Seq<char>) -> spec_fn(MathValue, UpdateModel) -> MathValue {
    |m: MathValue, u: UpdateModel| math_merge(op, m, key_math(u.operations, key, op))
}

/// The model value of `key` over all updates.
pub open spec fn updates_math(us: Seq<UpdateModel>, key: Seq<char>, op: OpType) -> MathValue {
    us.fold_left(MathValue::Null, update_step(op, key))
}

/// Null is the identity of the model merge.
proof fn lemma_math_null(op: OpType, x: MathValue)
    ensures
        math_merge(op, x, MathValue::Null) == x,
        math_merge(op, MathValue::Null, x) == x,
{
}

/// The model fold from a start value is the start value merged with the
/// fold from null.
proof fn lemma_ops_from(ops: Seq<OperationModel>, key: Seq<char>, op: OpType, start: MathValue)
    ensures
        ops.fold_left(start, key_step(op, key)) == math_merge(op, start, key_math(ops, key, op)),
    decreases ops.len(),
{
    if ops.len() == 0 {
        lemma_math_null(op, start);
    } else {
        let o = ops.last();
        lemma_ops_from(ops.drop_last(), key, op, start);
        if o.key == key {
            lemma_math_associative(op, start, key_math(ops.drop_last(), key, op), lift(o.value));
        }
    }
}

/// The model value of a key over two lists is the merge of its values over
/// each.
proof fn lemma_ops_concat(a: Seq<OperationModel>, b: Seq<OperationModel>, key: Seq<char>, op: OpType)
    ensures
        key_math(a + b, key, op) == math_merge(op, key_math(a, key, op), key_math(b, key, op)),
{
    lemma_fold_concat(a, b, MathValue::Null, key_step(op, key));
    lemma_ops_from(b, key, op, key_math(a, key, op));
}

/// The model fold over updates from a start value is the start value
/// merged with the fold from null.
proof fn lemma_updates_from(us: Seq<UpdateModel>, key: Seq<char>, op: OpType, start: MathValue)
    ensures
        us.fold_left(start, update_step(op, key)) == math_merge(op, start, updates_math(us, key, op)),
    decreases us.len(),
{
    if us.len() == 0 {
        lemma_math_null(op, start);
    } else {
        let u = us.last();
        lemma_updates_from(us.drop_last(), key, op, start);
        lemma_math_associative(
            op,
            start,
            updates_math(us.drop_last(), key, op),
            key_math(u.operations, key, op),
        );
    }
}

/// The fold over `x + y` continues the fold over `x` through `y`.
proof fn lemma_updates_fold_concat(x: Seq<UpdateModel>, y: Seq<UpdateModel>, start: MathValue, f: spec_fn(MathValue, UpdateModel) -> MathValue)
    ensures
        (x + y).fold_left(start, f) == y.fold_left(x.fold_left(start, f), f),
    decreases y.len(),
{
    if y.len() == 0 {
        assert(x + y =~= x);
    } else {
        assert((x + y).drop_last() =~= x + y.drop_last());
        assert((x + y).last() == y.last());
        lemma_updates_fold_concat(x, y.drop_last(), start, f);
    }
}

/// The model value of a key over two lists of updates is the merge of its
/// values over each.
proof fn lemma_updates_concat(x: Seq<UpdateModel>, y: Seq<UpdateModel>, key: Seq<char>, op: OpType)
    ensures
        updates_math(x + y, key, op) == math_merge(op, updates_math(x, key, op), updates_math(y, key, op)),
{
    lemma_updates_fold_concat(x, y, MathValue::Null, update_step(op, key));
    lemma_updates_from(y, key, op, updates_math(x, key, op));
}

/// The order of two updates does not matter to the model fold.
proof fn lemma_update_step_commutes(op: OpType, key: Seq<char>)
    ensures
        vstd::seq_lib::commutative_foldl(update_step(op, key)),
{
    let f = update_step(op, key);
    assert forall|x: UpdateModel, y: UpdateModel, v: MathValue| #[trigger] f(f(v, x), y) == f(f(v, y), x) by {
        let a = key_math(x.operations, key, op);
        let b = key_math(y.operations, key, op);
        lemma_math_associative(op, v, a, b);
        lemma_math_associative(op, v, b, a);
        lemma_math_commutative(op, a, b);
    }
}

/// A key stands in `a + b` exactly if it stands in `a` or in `b`.
proof fn lemma_has_key_concat(a: Seq<OperationModel>, b: Seq<OperationModel>, key: Seq<char>)
    ensures
        has_key(a + b, key) <==> has_key(a, key) || has_key(b, key),
{
    let ab = a + b;
    if has_key(a, key) {
        let i = choose|i: int| 0 <= i < a.len() && (#[trigger] a[i]).key == key;
        assert(ab[i].key == key);
    }
    if has_key(b, key) {
        let i = choose|i: int| 0 <= i < b.len() && (#[trigger] b[i]).key == key;
        assert(ab[a.len() + i].key == key);
    }
    if has_key(ab, key) {
        let i = choose|i: int| 0 <= i < ab.len() && (#[trigger] ab[i]).key == key;
        if i < a.len() {
            assert(a[i].key == key);
        } else {
            assert(b[i - a.len()].key == key);
        }
    }
}

/// What the root of a tree of merges holds, in the model: for a key whose
/// operations all have one type, the model of the root's value is the
/// model value of the key over all updates that were merged.
pub proof fn lemma_tree_in_model(t: MergeTree, key: Seq<char>, op: OpType)
    requires
        t.well_merged(),
        leaves_fit(t.updates(), key, op),
    ensures
        all_algebraic(t.outcome().operations),
        forall|j: int| 0 <= j < t.outcome().operations.len() && (#[trigger] t.outcome().operations[j]).key == key ==> t.outcome().operations[j].op_type == op,
        has_key(t.outcome().operations, key) <==> leaves_have(t.updates(), key),
        key_math(t.outcome().operations, key, op) == updates_math(t.updates(), key, op),
    decreases t,
{
    match t {
        MergeTree::Leaf(u) => {
            let us = t.updates();
            assert(us[0] == u);
            assert forall|j: int| 0 <= j < u.operations.len() implies (#[trigger] u.operations[j]).op_type.conflict_free() && (u.operations[j].key == key ==> u.operations[j].op_type == op) by {
                assert(us[0].operations[j] == u.operations[j]);
            }
            if has_key(u.operations, key) {
                assert(has_key(us[0].operations, key));
            }
            let f = update_step(op, key);
            assert(us.drop_last() =~= Seq::<UpdateModel>::empty());
            assert(us.last() == u);
            assert(us.drop_last().fold_left(MathValue::Null, f) == MathValue::Null);
            assert(us.fold_left(MathValue::Null, f) == f(us.drop_last().fold_left(MathValue::Null, f), us.last()));
            lemma_math_null(op, key_math(u.operations, key, op));
        },
        MergeTree::Node(left, right, merged) => {
            let l = *left;
            let r = *right;
            let lu = l.updates();
            let ru = r.updates();
            let us = t.updates();
            assert(leaves_fit(lu, key, op)) by {
                assert forall|i: int, j: int| 0 <= i < lu.len() && 0 <= j < lu[i].operations.len() implies (#[trigger] lu[i].operations[j]).op_type.conflict_free() && (
                lu[i].operations[j].key == key ==> lu[i].operations[j].op_type == op) by {
                    assert(us[i] == lu[i]);
                    assert(us[i].operations[j] == lu[i].operations[j]);
                }
            }
            assert(leaves_fit(ru, key, op)) by {
                assert forall|i: int, j: int| 0 <= i < ru.len() && 0 <= j < ru[i].operations.len() implies (#[trigger] ru[i].operations[j]).op_type.conflict_free() && (
                ru[i].operations[j].key == key ==> ru[i].operations[j].op_type == op) by {
                    assert(us[lu.len() + i] == ru[i]);
                    assert(us[lu.len() + i].operations[j] == ru[i].operations[j]);
                }
            }
            lemma_tree_in_model(l, key, op);
            lemma_tree_in_model(r, key, op);
            let a = l.outcome().operations;
            let b = r.outcome().operations;
            let ab = a + b;
            let out = merged.operations;
            assert(all_algebraic(ab)) by {
                assert forall|i: int| 0 <= i < ab.len() implies (#[trigger] ab[i]).op_type.conflict_free() by {
                    if i < a.len() {
                        assert(ab[i] == a[i]);
                    } else {
                        assert(ab[i] == b[i - a.len()]);
                    }
                }
            }
            assert forall|i: int| 0 <= i < ab.len() && (#[trigger] ab[i]).key == key implies ab[i].op_type == op by {
                if i < a.len() {
                    assert(ab[i] == a[i]);
                } else {
                    assert(ab[i] == b[i - a.len()]);
                }
            }
            lemma_has_key_concat(a, b, key);
            // the updates of the tree hold the key exactly if one side's updates do
            assert(leaves_have(us, key) <==> leaves_have(lu, key) || leaves_have(ru, key)) by {
                if leaves_have(lu, key) {
                    let i = choose|i: int| 0 <= i < lu.len() && has_key(#[trigger] lu[i].operations, key);
                    assert(us[i] == lu[i]);
                    assert(has_key(us[i].operations, key));
                }
                if leaves_have(ru, key) {
                    let i = choose|i: int| 0 <= i < ru.len() && has_key(#[trigger] ru[i].operations, key);
                    assert(us[lu.len() + i] == ru[i]);
                    assert(has_key(us[lu.len() + i].operations, key));
                }
                if leaves_have(us, key) {
                    let i = choose|i: int| 0 <= i < us.len() && has_key(#[trigger] us[i].operations, key);
                    if i < lu.len() {
                        assert(us[i] == lu[i]);
                        assert(has_key(lu[i].operations, key));
                    } else {
                        assert(us[i] == ru[i - lu.len()]);
                        assert(has_key(ru[i - lu.len()].operations, key));
                    }
                }
            }
            // every operation of the merge is conflict-free
            assert(all_algebraic(out)) by {
                assert forall|i: int| 0 <= i < out.len() implies (#[trigger] out[i]).op_type.conflict_free() by {
                    assert(op_keys(out)[i] == out[i].key);
                    assert(op_keys(out).contains(out[i].key));
                    lemma_merge_key_in_model(ab, out[i].key);
                }
            }
            assert(has_key(out, key) <==> has_key(ab, key)) by {
                if has_key(out, key) {
                    let i = choose|i: int| 0 <= i < out.len() && (#[trigger] out[i]).key == key;
                    assert(op_keys(out)[i] == key);
                    assert(op_keys(out).contains(key));
                }
                if has_key(ab, key) {
                    assert(op_keys(out).contains(key));
                    let i = op_keys(out).index_of(key);
                    assert(op_keys(out)[i] == out[i].key);
                }
            }
            lemma_ops_concat(a, b, key, op);
            lemma_updates_concat(lu, ru, key, op);
            if has_key(out, key) {
                let i = choose|i: int| 0 <= i < out.len() && (#[trigger] out[i]).key == key;
                lemma_merge_key_in_model(ab, key);
                let w = choose|w: int| 0 <= w < ab.len() && (#[trigger] ab[w]).key == key;
                assert(ab[w].op_type == op);
                assert(out[i].op_type == op);
                assert forall|j: int| 0 <= j < out.len() && (#[trigger] out[j]).key == key implies out[j].op_type == op by {
                    assert(op_keys(out)[j] == key);
                    assert(op_keys(out)[i] == key);
                    lemma_sorted_distinct(op_keys(out), i, j);
                }
                lemma_fold_single_key(out, i, op);
            } else {
                lemma_fold_without_key(out, key, op, MathValue::Null);
                lemma_fold_without_key(ab, key, op, MathValue::Null);
            }
        },
    }
}

/// Convergence. Take two ways to merge the same updates two by two, in any
/// order and any grouping, in which every merge succeeded. Where the
/// operations of the updates are all conflict-free and the operations on
/// one key all have one type, the two merged updates hold, for every key,
/// the same operation.
pub proof fn law_merges_converge(t1: MergeTree, t2: MergeTree, i: int, j: int)
    requires
        t1 is Node,
        t2 is Node,
        t1.well_merged(),
        t2.well_merged(),
        t1.updates().to_multiset() == t2.updates().to_multiset(),
        forall|a: int, b: int| 0 <= a < t1.updates().len() && 0 <= b < t1.updates()[a].operations.len() ==> (#[trigger] t1.updates()[a].operations[b]).op_type.conflict_free(),
        forall|a: int, b: int, c: int, d: int|
            0 <= a < t1.updates().len() && 0 <= b < t1.updates()[a].operations.len() && 0 <= c < t1.updates().len() && 0 <= d
                < t1.updates()[c].operations.len() && (#[trigger] t1.updates()[a].operations[b]).key == (
            #[trigger] t1.updates()[c].operations[d]).key ==> t1.updates()[a].operations[b].op_type
                == t1.updates()[c].operations[d].op_type,
        0 <= i < t1.outcome().operations.len(),
        0 <= j < t2.outcome().operations.len(),
        t1.outcome().operations[i].key == t2.outcome().operations[j].key,
    ensures
        t1.outcome().operations[i] == t2.outcome().operations[j],
{
    broadcast use vstd::seq_lib::to_multiset_contains;

    let o1 = t1.outcome().operations;
    let o2 = t2.outcome().operations;
    let u1 = t1.updates();
    let u2 = t2.updates();
    let key = o1[i].key;
    let op = o1[i].op_type;
    // the merge of the root names its key once, so the key stands in the operations of both sides
    // the type of the operations on the key in the updates is the type at the root
    let ty = some_type(u1, key);
    assert(leaves_fit(u1, key, ty));
    lemma_tree_in_model(t1, key, ty);
    assert(op == ty);
    assert(leaves_fit(u2, key, ty)) by {
        assert forall|a: int, b: int| 0 <= a < u2.len() && 0 <= b < u2[a].operations.len() implies (#[trigger] u2[a].operations[b]).op_type.conflict_free() && (
        u2[a].operations[b].key == key ==> u2[a].operations[b].op_type == ty) by {
            assert(u2.contains(u2[a]));
            assert(u2.to_multiset().count(u2[a]) > 0);
            assert(u1.contains(u2[a]));
            let c = u1.index_of(u2[a]);
            assert(u1[c].operations[b] == u2[a].operations[b]);
        }
    }
    lemma_tree_in_model(t2, key, ty);
    lemma_update_step_commutes(ty, key);
    vstd::seq_lib::lemma_fold_left_permutation(u1, u2, update_step(ty, key), MathValue::Null);
    lemma_root_single(t1, i, ty);
    lemma_root_single(t2, j, ty);
    lemma_lift_injective(o1[i].value, o2[j].value);
}

/// The type of some operation on `key` in the updates; any type where none
/// stands on the key.
pub open spec fn some_type(us: Seq<UpdateModel>, key: Seq<char>) -> OpType {
    if exists|a: int, b: int| 0 <= a < us.len() && 0 <= b < us[a].operations.len() && (#[trigger] us[a].operations[b]).key == key {
        let (a, b) = choose|a: int, b: int| 0 <= a < us.len() && 0 <= b < us[a].operations.len() && (#[trigger] us[a].operations[b]).key == key;
        us[a].operations[b].op_type
    } else {
        OpType::Unknown
    }
}

/// The merge at the root of a tree holds one operation per key, so the
/// model value of a key at the root is the model of that operation's value.
proof fn lemma_root_single(t: MergeTree, i: int, op: OpType)
    requires
        t is Node,
        t.well_merged(),
        0 <= i < t.outcome().operations.len(),
    ensures
        key_math(t.outcome().operations, t.outcome().operations[i].key, op) == lift(t.outcome().operations[i].value),
{
    lemma_fold_single_key(t.outcome().operations, i, op);
}

/// One step of the fold to the latest time of a node: the later of the
/// time so far and the time in the clock of the update.
pub open spec fn time_step(node: Seq<char>) -> spec_fn(u64, UpdateModel) -> u64 {
    |m: u64, u: UpdateModel| max_time(m, time_at(u.clock, node))
}

/// The latest time that the clocks of the updates show for `node`.
pub open spec fn latest_time(us: Seq<UpdateModel>, node: Seq<char>) -> u64 {
    us.fold_left(0u64, time_step(node))
}

/// The clock of some update has an entry for `node`.
pub open spec fn clocks_name(us: Seq<UpdateModel>, node: Seq<char>) -> bool {
    exists|i: int| 0 <= i < us.len() && (#[trigger] us[i]).clock.contains_key(node)
}

/// The fold to the latest time from a start value is the later of the
/// start value and the latest time.
proof fn lemma_time_from(us: Seq<UpdateModel>, node: Seq<char>, start: u64)
    ensures
        us.fold_left(start, time_step(node)) == max_time(start, latest_time(us, node)),
    decreases us.len(),
{
    if us.len() > 0 {
        lemma_time_from(us.drop_last(), node, start);
    }
}

/// The fold over `x + y` continues the fold over `x` through `y`.
proof fn lemma_time_fold_concat(x: Seq<UpdateModel>, y: Seq<UpdateModel>, start: u64, f: spec_fn(u64, UpdateModel) -> u64)
    ensures
        (x + y).fold_left(start, f) == y.fold_left(x.fold_left(start, f), f),
    decreases y.len(),
{
    if y.len() == 0 {
        assert(x + y =~= x);
    } else {
        assert((x + y).drop_last() =~= x + y.drop_last());
        assert((x + y).last() == y.last());
        lemma_time_fold_concat(x, y.drop_last(), start, f);
    }
}

/// The clock at the root of a tree of merges has an entry for exactly the
/// nodes that the clocks of the merged updates name, and shows for every
/// node the latest time that they show.
pub proof fn lemma_tree_clock(t: MergeTree, node: Seq<char>)
    requires
        t.well_merged(),
    ensures
        t.outcome().clock.contains_key(node) <==> clocks_name(t.updates(), node),
        time_at(t.outcome().clock, node) == latest_time(t.updates(), node),
    decreases t,
{
    let us = t.updates();
    let f = time_step(node);
    match t {
        MergeTree::Leaf(u) => {
            assert(us[0] == u);
            assert(us.drop_last() =~= Seq::<UpdateModel>::empty());
            assert(us.last() == u);
            assert(us.drop_last().fold_left(0u64, f) == 0u64);
            assert(us.fold_left(0u64, f) == f(us.drop_last().fold_left(0u64, f), us.last()));
        },
        MergeTree::Node(left, right, merged) => {
            let l = *left;
            let r = *right;
            let lu = l.updates();
            let ru = r.updates();
            lemma_tree_clock(l, node);
            lemma_tree_clock(r, node);
            lemma_time_fold_concat(lu, ru, 0u64, f);
            lemma_time_from(ru, node, latest_time(lu, node));
            assert(merged.clock.dom().contains(node) <==> l.outcome().clock.dom().union(r.outcome().clock.dom()).contains(node));
            if clocks_name(lu, node) {
                let i = choose|i: int| 0 <= i < lu.len() && (#[trigger] lu[i]).clock.contains_key(node);
                assert(us[i] == lu[i]);
            }
            if clocks_name(ru, node) {
                let i = choose|i: int| 0 <= i < ru.len() && (#[trigger] ru[i]).clock.contains_key(node);
                assert(us[lu.len() + i] == ru[i]);
            }
            if clocks_name(us, node) {
                let i = choose|i: int| 0 <= i < us.len() && (#[trigger] us[i]).clock.contains_key(node);
                if i < lu.len() {
                    assert(us[i] == lu[i]);
                } else {
                    assert(us[i] == ru[i - lu.len()]);
                }
            }
        },
    }
}

/// The clocks at the roots of two trees over the same updates agree on
/// every node.
proof fn lemma_clocks_agree_at(t1: MergeTree, t2: MergeTree, node: Seq<char>)
    requires
        t1.well_merged(),
        t2.well_merged(),
        t1.updates().to_multiset() == t2.updates().to_multiset(),
    ensures
        t1.outcome().clock.contains_key(node) == t2.outcome().clock.contains_key(node),
        time_at(t1.outcome().clock, node) == time_at(t2.outcome().clock, node),
{
    broadcast use vstd::seq_lib::to_multiset_contains;

    let u1 = t1.updates();
    let u2 = t2.updates();
    lemma_tree_clock(t1, node);
    lemma_tree_clock(t2, node);
    let f = time_step(node);
    assert(vstd::seq_lib::commutative_foldl(f)) by {
        assert forall|x: UpdateModel, y: UpdateModel, v: u64| #[trigger] f(f(v, x), y) == f(f(v, y), x) by {}
    }
    vstd::seq_lib::lemma_fold_left_permutation(u1, u2, f, 0u64);
    if clocks_name(u1, node) {
        let i = choose|i: int| 0 <= i < u1.len() && (#[trigger] u1[i]).clock.contains_key(node);
        assert(u1.contains(u1[i]));
        assert(u1.to_multiset().count(u1[i]) > 0);
        assert(u2.contains(u1[i]));
        let k = u2.index_of(u1[i]);
        assert(u2[k].clock.contains_key(node));
    }
    if clocks_name(u2, node) {
        let i = choose|i: int| 0 <= i < u2.len() && (#[trigger] u2[i]).clock.contains_key(node);
        assert(u2.contains(u2[i]));
        assert(u2.to_multiset().count(u2[i]) > 0);
        assert(u1.contains(u2[i]));
        let k = u1.index_of(u2[i]);
        assert(u1[k].clock.contains_key(node));
    }
}

/// Convergence of the clocks. Two ways to merge the same updates two by
/// two, in any order and any grouping, give the same clock: the pointwise
/// maximum of the clocks of all updates.
pub proof fn law_merged_clocks_converge(t1: MergeTree, t2: MergeTree)
    requires
        t1.well_merged(),
        t2.well_merged(),
        t1.updates().to_multiset() == t2.updates().to_multiset(),
    ensures
        t1.outcome().clock == t2.outcome().clock,
        forall|node: Seq<char>| #[trigger] time_at(t1.outcome().clock, node) == latest_time(t1.updates(), node),
{
    let c1 = t1.outcome().clock;
    let c2 = t2.outcome().clock;
    assert forall|node: Seq<char>| #[trigger] time_at(c1, node) == latest_time(t1.updates(), node) by {
        lemma_tree_clock(t1, node);
    }
    assert forall|node: Seq<char>| #[trigger] c1.dom().contains(node) == c2.dom().contains(node) by {
        lemma_clocks_agree_at(t1, t2, node);
    }
    assert(c1.dom() =~= c2.dom());
    assert forall|node: Seq<char>| #[trigger] c1.dom().contains(node) implies c1[node] == c2[node] by {
        lemma_clocks_agree_at(t1, t2, node);
    }
    assert(c1 =~= c2);
}

} // verus!
