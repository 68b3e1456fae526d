//! Convergence: the merged value of a key does not depend on the order in
//! which operations, or updates, are merged.
//!
//! The proofs go through an unbounded model of the merge: integers without
//! overflow and one absorbing value for every failure. Merging in that model
//! is commutative and associative outright, and wherever the real merge gives
//! a value, the model gives the same one.

use vstd::prelude::*;
use crate::algebraic::merge::{merge_spec, MergeModel};
use crate::algebraic::types::{OpType, ValueModel};
use crate::distributed::local_commit::{all_algebraic, first_clash, fold_values, group_of, has_key, merge_group, merge_key, merged_ops_are, op_keys, values_of, CommitErrorModel, OperationModel};
use crate::strmap::{lemma_sorted_distinct, sorted_strict};

verus! {

/// A value of the unbounded model.
pub enum MathValue {
    Int(int),
    Strs(Set<Seq<char>>),
    Ints(Set<i64>),
    Bool(bool),
    Null,
    Invalid,
}

/// The model of a value.
pub open spec fn lift(v: ValueModel) -> MathValue {
    match v {
        ValueModel::Integer(x) => MathValue::Int(x as int),
        ValueModel::StringSet(s) => MathValue::Strs(s),
        ValueModel::IntSet(s) => MathValue::Ints(s),
        ValueModel::Boolean(b) => MathValue::Bool(b),
        ValueModel::Null => MathValue::Null,
    }
}

/// The merge in the unbounded model: null is the identity, a failure
/// absorbs, integers do not overflow.
pub open spec fn math_merge(op: OpType, a: MathValue, b: MathValue) -> MathValue {
    if a is Invalid || b is Invalid {
        MathValue::Invalid
    } else if a is Null {
        b
    } else if b is Null {
        a
    } else {
        match (op, a, b) {
            (OpType::SemilatticeMax, MathValue::Int(x), MathValue::Int(y)) => MathValue::Int(
                if x >= y {
                    x
                } else {
                    y
                },
            ),
            (OpType::SemilatticeMax, MathValue::Bool(x), MathValue::Bool(y)) => MathValue::Bool(x || y),
            (OpType::SemilatticeMin, MathValue::Int(x), MathValue::Int(y)) => MathValue::Int(
                if x <= y {
                    x
                } else {
                    y
                },
            ),
            (OpType::SemilatticeMin, MathValue::Bool(x), MathValue::Bool(y)) => MathValue::Bool(x && y),
            (OpType::SemilatticeUnion, MathValue::Strs(x), MathValue::Strs(y)) => MathValue::Strs(
                x.union(y),
            ),
            (OpType::SemilatticeUnion, MathValue::Ints(x), MathValue::Ints(y)) => MathValue::Ints(
                x.union(y),
            ),
            (OpType::SemilatticeUnion, MathValue::Bool(x), MathValue::Bool(y)) => MathValue::Bool(
                x || y,
            ),
            (OpType::SemilatticeIntersect, MathValue::Strs(x), MathValue::Strs(y)) => MathValue::Strs(
                x.intersect(y),
            ),
            (OpType::SemilatticeIntersect, MathValue::Ints(x), MathValue::Ints(y)) => MathValue::Ints(
                x.intersect(y),
            ),
            (OpType::SemilatticeIntersect, MathValue::Bool(x), MathValue::Bool(y)) => MathValue::Bool(
                x && y,
            ),
            (OpType::AbelianAdd, MathValue::Int(x), MathValue::Int(y)) => MathValue::Int(x + y),
            (OpType::AbelianMultiply, MathValue::Int(x), MathValue::Int(y)) => MathValue::Int(x * y),
            _ => MathValue::Invalid,
        }
    }
}

/// The model merge is commutative.
pub proof fn lemma_math_commutative(op: OpType, a: MathValue, b: MathValue)
    ensures
        math_merge(op, a, b) == math_merge(op, b, a),
{
    match (a, b) {
        (MathValue::Strs(x), MathValue::Strs(y)) => {
            assert(x.union(y) =~= y.union(x));
            assert(x.intersect(y) =~= y.intersect(x));
        },
        (MathValue::Ints(x), MathValue::Ints(y)) => {
            assert(x.union(y) =~= y.union(x));
            assert(x.intersect(y) =~= y.intersect(x));
        },
        (MathValue::Int(x), MathValue::Int(y)) => {
            assert(x * y == y * x) by (nonlinear_arith);
        },
        _ => {},
    }
}

/// The model merge is associative.
pub proof fn lemma_math_associative(op: OpType, a: MathValue, b: MathValue, c: MathValue)
    ensures
        math_merge(op, math_merge(op, a, b), c) == math_merge(op, a, math_merge(op, b, c)),
{
    match (a, b, c) {
        (MathValue::Strs(x), MathValue::Strs(y), MathValue::Strs(z)) => {
            assert(x.union(y).union(z) =~= x.union(y.union(z)));
            assert(x.intersect(y).intersect(z) =~= x.intersect(y.intersect(z)));
        },
        (MathValue::Ints(x), MathValue::Ints(y), MathValue::Ints(z)) => {
            assert(x.union(y).union(z) =~= x.union(y.union(z)));
            assert(x.intersect(y).intersect(z) =~= x.intersect(y.intersect(z)));
        },
        (MathValue::Int(x), MathValue::Int(y), MathValue::Int(z)) => {
            assert((x * y) * z == x * (y * z)) by (nonlinear_arith);
        },
        _ => {},
    }
}

/// Where the real merge gives a value, the model merge gives its model.
pub proof fn lemma_merge_in_model(op: OpType, a: ValueModel, b: ValueModel)
    requires
        op.conflict_free(),
        merge_spec(op, a, b) is Merged,
    ensures
        lift(merge_spec(op, a, b)->Merged_0) == math_merge(op, lift(a), lift(b)),
{
}

/// The model is faithful: two values with one model are the same value.
pub proof fn lemma_lift_injective(a: ValueModel, b: ValueModel)
    requires
        lift(a) == lift(b),
    ensures
        a == b,
{
}

/// One step of the model fold over the values of a key: an operation on
/// another key leaves the accumulator alone.
pub open spec fn key_step(op: OpType, key: Seq<char>) -> spec_fn(MathValue, OperationModel) -> MathValue {
    |m: MathValue, o: OperationModel|
        if o.key == key {
            math_merge(op, m, lift(o.value))
        } else {
            m
        }
}

/// The model value of `key` in `all`: the model merge of the values of all
/// operations on the key.
pub open spec fn key_math(all: Seq<OperationModel>, key: Seq<char>, op: OpType) -> MathValue {
    all.fold_left(MathValue::Null, key_step(op, key))
}

/// The order of two operations does not matter to the model fold.
pub proof fn lemma_key_step_commutes(op: OpType, key: Seq<char>)
    ensures
        vstd::seq_lib::commutative_foldl(key_step(op, key)),
{
    let f = key_step(op, key);
    assert forall|x: OperationModel, y: OperationModel, v: MathValue| #[trigger] f(f(v, x), y) == f(f(v, y), x) by {
        let a = lift(x.value);
        let b = lift(y.value);
        lemma_math_associative(op, v, a, b);
        lemma_math_associative(op, v, b, a);
        lemma_math_commutative(op, a, b);
    }
}

/// Folding the real merge over `vals.push(x)` is folding over `vals` and
/// then merging `x`.
pub proof fn lemma_fold_values_push(op: OpType, acc: ValueModel, vals: Seq<ValueModel>, x: ValueModel)
    ensures
        fold_values(op, acc, vals.push(x)) == (match fold_values(op, acc, vals) {
            MergeModel::Merged(v) => merge_spec(op, v, x),
            other => other,
        }),
    decreases vals.len(),
{
    let ext = vals.push(x);
    if vals.len() == 0 {
        assert(ext.drop_first() =~= Seq::<ValueModel>::empty());
        assert(ext[0] == x);
        match merge_spec(op, acc, x) {
            MergeModel::Merged(v) => {
                assert(fold_values(op, v, ext.drop_first()) == MergeModel::Merged(v));
            },
            _ => {},
        }
    } else {
        assert(ext[0] == vals[0]);
        assert(ext.drop_first() =~= vals.drop_first().push(x));
        match merge_spec(op, acc, vals[0]) {
            MergeModel::Merged(v) => {
                lemma_fold_values_push(op, v, vals.drop_first(), x);
            },
            _ => {},
        }
    }
}

/// One step of the model fold over a list of values.
pub open spec fn value_step(op: OpType) -> spec_fn(MathValue, ValueModel) -> MathValue {
    |m: MathValue, x: ValueModel| math_merge(op, m, lift(x))
}

/// Where the real fold gives a value, the model fold gives its model.
pub proof fn lemma_fold_in_model(op: OpType, acc: ValueModel, vals: Seq<ValueModel>)
    requires
        op.conflict_free(),
        fold_values(op, acc, vals) is Merged,
    ensures
        lift(fold_values(op, acc, vals)->Merged_0) == vals.fold_left(lift(acc), value_step(op)),
    decreases vals.len(),
{
    if vals.len() > 0 {
        let rest = vals.drop_last();
        let x = vals.last();
        assert(vals =~= rest.push(x));
        lemma_fold_values_push(op, acc, rest, x);
        lemma_fold_in_model(op, acc, rest);
        let v = fold_values(op, acc, rest)->Merged_0;
        lemma_merge_in_model(op, v, x);
    }
}

/// The model fold over all operations, skipping other keys, is the model
/// fold over the values of the key's group.
pub proof fn lemma_key_math_is_group_fold(all: Seq<OperationModel>, key: Seq<char>, op: OpType, start: MathValue)
    ensures
        all.fold_left(start, key_step(op, key)) == values_of(group_of(all, key)).fold_left(
            start,
            value_step(op),
        ),
    decreases all.len(),
{
    if all.len() > 0 {
        let rest = all.drop_last();
        lemma_key_math_is_group_fold(rest, key, op, start);
        if all.last().key == key {
            let g = group_of(rest, key);
            let vs = values_of(g.push(all.last()));
            assert(vs =~= values_of(g).push(all.last().value));
            assert(vs.drop_last() =~= values_of(g));
        }
    } else {
        assert(values_of(group_of(all, key)) =~= Seq::<ValueModel>::empty());
    }
}

/// An operation on `key` is in the key's group, and the group holds only
/// operations of the list.
pub proof fn lemma_group_members(all: Seq<OperationModel>, key: Seq<char>)
    ensures
        forall|i: int| 0 <= i < all.len() && (#[trigger] all[i]).key == key ==> group_of(all, key).contains(all[i]),
        forall|j: int| 0 <= j < group_of(all, key).len() ==> all.contains(#[trigger] group_of(all, key)[j]) && group_of(all, key)[j].key == key,
    decreases all.len(),
{
    if all.len() > 0 {
        let rest = all.drop_last();
        let g0 = group_of(rest, key);
        let g = group_of(all, key);
        lemma_group_members(rest, key);
        assert forall|i: int| 0 <= i < all.len() && (#[trigger] all[i]).key == key implies g.contains(all[i]) by {
            if i < all.len() - 1 {
                assert(rest[i] == all[i]);
                assert(g0.contains(rest[i]));
                let j = g0.index_of(rest[i]);
                assert(g[j] == all[i]);
            } else {
                assert(g[g.len() - 1] == all[i]);
            }
        }
        assert forall|j: int| 0 <= j < g.len() implies all.contains(#[trigger] g[j]) && g[j].key == key by {
            if j < g0.len() {
                assert(g[j] == g0[j]);
                assert(rest.contains(g0[j]));
                let i = rest.index_of(g0[j]);
                assert(all[i] == g[j]);
            } else {
                assert(all[all.len() - 1] == g[j]);
            }
        }
    }
}

/// In a list without a type clash every operation has the type of the
/// first.
pub proof fn lemma_no_clash(ops: Seq<OperationModel>, from: int, i: int)
    requires
        1 <= from <= i < ops.len(),
        first_clash(ops, from) == ops.len(),
    ensures
        ops[i].op_type == ops[0].op_type,
    decreases ops.len() - from,
{
    if from < i {
        lemma_no_clash(ops, from + 1, i);
    }
}

/// `first_clash` answers with an index from `from` on.
pub proof fn lemma_first_clash_range(ops: Seq<OperationModel>, from: int)
    requires
        0 <= from,
    ensures
        from <= first_clash(ops, from) || first_clash(ops, from) == ops.len(),
        first_clash(ops, from) <= ops.len(),
    decreases ops.len() - from,
{
    if from < ops.len() && ops[from].op_type == ops[0].op_type {
        lemma_first_clash_range(ops, from + 1);
    }
}

/// What a successful merge of a key says in the model: all operations on
/// the key have the type of the result, and the model of the result's value
/// is the model value of the key.
pub proof fn lemma_merge_key_in_model(all: Seq<OperationModel>, key: Seq<char>)
    requires
        all_algebraic(all),
        has_key(all, key),
        merge_key(all, key) is Ok,
    ensures
        merge_key(all, key)->Ok_0.key == key,
        merge_key(all, key)->Ok_0.op_type.conflict_free(),
        forall|i: int| 0 <= i < all.len() && (#[trigger] all[i]).key == key ==> all[i].op_type == merge_key(all, key)->Ok_0.op_type,
        lift(merge_key(all, key)->Ok_0.value) == key_math(all, key, merge_key(all, key)->Ok_0.op_type),
{
    let g = group_of(all, key);
    let o = merge_key(all, key)->Ok_0;
    lemma_group_members(all, key);
    crate::distributed::local_commit::lemma_group_of_present(all, key);
    let t = g[0].op_type;
    assert(all.contains(g[0]));
    let i0 = all.index_of(g[0]);
    assert(all[i0].op_type.conflict_free());
    let vals = values_of(g);
    if g.len() == 1 {
        assert(o == g[0]);
        assert(vals.drop_last() =~= Seq::<ValueModel>::empty());
        assert(vals.last() == g[0].value);
        assert(vals.drop_last().fold_left(MathValue::Null, value_step(t)) == MathValue::Null);
        assert(vals.fold_left(MathValue::Null, value_step(t)) == math_merge(t, MathValue::Null, lift(g[0].value)));
    } else {
        lemma_first_clash_range(g, 1);
        assert(first_clash(g, 1) == g.len());
        assert(o.op_type == t);
        let rest = values_of(g.skip(1));
        assert(vals[0] == g[0].value);
        assert(vals.drop_first() =~= rest);
        assert(merge_spec(t, ValueModel::Null, vals[0]) == MergeModel::Merged(vals[0]));
        assert(fold_values(t, ValueModel::Null, vals) == fold_values(t, g[0].value, rest));
        assert(fold_values(t, ValueModel::Null, vals) == MergeModel::Merged(o.value));
        lemma_fold_in_model(t, ValueModel::Null, vals);
    }
    lemma_key_math_is_group_fold(all, key, t, MathValue::Null);
    assert forall|i: int| 0 <= i < all.len() && (#[trigger] all[i]).key == key implies all[i].op_type == o.op_type by {
        assert(g.contains(all[i]));
        let j = g.index_of(all[i]);
        if j >= 1 {
            if g.len() > 1 {
                lemma_no_clash(g, 1, j);
            }
        }
    }
}

/// Convergence, for one merge. A permutation of the operations does not
/// change what a key merges to: where the operations are all conflict-free
/// and the merge of `key` succeeds on both orders, both give the same
/// operation type and the same value.
pub proof fn law_merge_order_free(all1: Seq<OperationModel>, all2: Seq<OperationModel>, key: Seq<char>)
    requires
        all1.to_multiset() == all2.to_multiset(),
        all_algebraic(all1),
        has_key(all1, key),
        merge_key(all1, key) is Ok,
        merge_key(all2, key) is Ok,
    ensures
        merge_key(all1, key)->Ok_0 == merge_key(all2, key)->Ok_0,
{
    broadcast use vstd::seq_lib::to_multiset_contains;

    let o1 = merge_key(all1, key)->Ok_0;
    let o2 = merge_key(all2, key)->Ok_0;
    assert(all_algebraic(all2)) by {
        assert forall|i: int| 0 <= i < all2.len() implies (#[trigger] all2[i]).op_type.conflict_free() by {
            assert(all2.contains(all2[i]));
            assert(all2.to_multiset().count(all2[i]) > 0);
            assert(all1.contains(all2[i]));
            let j = all1.index_of(all2[i]);
            assert(all1[j].op_type.conflict_free());
        }
    }
    let i1 = choose|i: int| 0 <= i < all1.len() && (#[trigger] all1[i]).key == key;
    assert(all1.contains(all1[i1]));
    assert(all1.to_multiset().count(all1[i1]) > 0);
    assert(all2.contains(all1[i1]));
    let i2 = all2.index_of(all1[i1]);
    assert(all2[i2].key == key);
    assert(has_key(all2, key));
    lemma_merge_key_in_model(all1, key);
    lemma_merge_key_in_model(all2, key);
    assert(o1.op_type == all1[i1].op_type);
    assert(o2.op_type == all2[i2].op_type);
    lemma_key_step_commutes(o1.op_type, key);
    vstd::seq_lib::lemma_fold_left_permutation(all1, all2, key_step(o1.op_type, key), MathValue::Null);
    lemma_lift_injective(o1.value, o2.value);
}

/// The model fold over `x + y` continues the fold over `x` through `y`.
pub proof fn lemma_fold_concat(x: Seq<OperationModel>, y: Seq<OperationModel>, start: MathValue, f: spec_fn(MathValue, OperationModel) -> MathValue)
    ensures
        (x + y).fold_left(start, f) == y.fold_left(x.fold_left(start, f), f),
    decreases y.len(),
{
    if y.len() == 0 {
        assert(x + y =~= x);
    } else {
        assert((x + y).drop_last() =~= x + y.drop_last());
        assert((x + y).last() == y.last());
        lemma_fold_concat(x, y.drop_last(), start, f);
    }
}

/// A list without an operation on `key` folds to the start value.
pub proof fn lemma_fold_without_key(all: Seq<OperationModel>, key: Seq<char>, op: OpType, start: MathValue)
    requires
        !has_key(all, key),
    ensures
        all.fold_left(start, key_step(op, key)) == start,
    decreases all.len(),
{
    if all.len() > 0 {
        let rest = all.drop_last();
        assert(all[all.len() - 1].key != key);
        assert(!has_key(rest, key)) by {
            if has_key(rest, key) {
                let i = choose|i: int| 0 <= i < rest.len() && (#[trigger] rest[i]).key == key;
                assert(all[i].key == key);
            }
        }
        lemma_fold_without_key(rest, key, op, start);
    }
}

/// A list with distinct keys folds, for the key of its operation at `i`, to the
/// model of that operation's value.
pub proof fn lemma_fold_single_key(all: Seq<OperationModel>, i: int, op: OpType)
    requires
        sorted_strict(op_keys(all)),
        0 <= i < all.len(),
    ensures
        key_math(all, all[i].key, op) == lift(all[i].value),
    decreases all.len(),
{
    let key = all[i].key;
    let rest = all.drop_last();
    let last = all.len() - 1;
    assert(op_keys(rest) =~= op_keys(all).drop_last());
    assert forall|a: int, b: int| 0 <= a < b < op_keys(rest).len() implies crate::text::lex_lt(#[trigger] op_keys(rest)[a], #[trigger] op_keys(rest)[b]) by {
        assert(op_keys(rest)[a] == op_keys(all)[a]);
        assert(op_keys(rest)[b] == op_keys(all)[b]);
    }
    if i == last {
        assert(!has_key(rest, key)) by {
            if has_key(rest, key) {
                let j = choose|j: int| 0 <= j < rest.len() && (#[trigger] rest[j]).key == key;
                assert(op_keys(all)[j] == key && op_keys(all)[last] == key);
                lemma_sorted_distinct(op_keys(all), j, last);
            }
        }
        lemma_fold_without_key(rest, key, op, MathValue::Null);
    } else {
        assert(all[last].key != key) by {
            if all[last].key == key {
                assert(op_keys(all)[i] == key && op_keys(all)[last] == key);
                lemma_sorted_distinct(op_keys(all), i, last);
            }
        }
        assert(rest[i] == all[i]);
        lemma_fold_single_key(rest, i, op);
    }
}

/// Convergence, for nested merges. Merging the result of an earlier merge
/// with further operations gives, for every key, what merging all
/// operations at once gives.
pub proof fn law_merge_regroups(
    first: Seq<OperationModel>,
    merged: Seq<OperationModel>,
    more: Seq<OperationModel>,
    key: Seq<char>,
)
    requires
        all_algebraic(first + more),
        merged_ops_are(first, merged),
        has_key(first + more, key),
        merge_key(merged + more, key) is Ok,
        merge_key(first + more, key) is Ok,
    ensures
        merge_key(merged + more, key)->Ok_0 == merge_key(first + more, key)->Ok_0,
{
    let nested = merged + more;
    let flat = first + more;
    assert(all_algebraic(first)) by {
        assert forall|i: int| 0 <= i < first.len() implies (#[trigger] first[i]).op_type.conflict_free() by {
            assert(flat[i] == first[i]);
        }
    }
    // every merged operation stands for a key of `first` that merged
    assert forall|i: int| 0 <= i < merged.len() implies has_key(first, (#[trigger] merged[i]).key) && merged[i].op_type.conflict_free() by {
        assert(op_keys(merged)[i] == merged[i].key);
        assert(op_keys(merged).contains(merged[i].key));
        lemma_merge_key_in_model(first, merged[i].key);
    }
    assert(all_algebraic(nested)) by {
        assert forall|i: int| 0 <= i < nested.len() implies (#[trigger] nested[i]).op_type.conflict_free() by {
            if i < merged.len() {
                assert(nested[i] == merged[i]);
            } else {
                assert(nested[i] == more[i - merged.len()]);
                assert(flat[i - merged.len() + first.len()] == more[i - merged.len()]);
            }
        }
    }
    let w = choose|i: int| 0 <= i < flat.len() && (#[trigger] flat[i]).key == key;
    assert(has_key(nested, key)) by {
        if w < first.len() {
            assert(first[w] == flat[w]);
            assert(has_key(first, key));
            assert(op_keys(merged).contains(key));
            let j = op_keys(merged).index_of(key);
            assert(nested[j] == merged[j]);
            assert(nested[j].key == key);
        } else {
            assert(nested[w - first.len() + merged.len()] == flat[w]);
        }
    }
    lemma_merge_key_in_model(nested, key);
    lemma_merge_key_in_model(flat, key);
    let o = merge_key(nested, key)->Ok_0;
    let o2 = merge_key(flat, key)->Ok_0;
    // both results have the same operation type
    assert(o.op_type == o2.op_type) by {
        if w < first.len() {
            assert(first[w] == flat[w]);
            assert(has_key(first, key));
            let j = op_keys(merged).index_of(key);
            assert(op_keys(merged)[j] == key);
            assert(merged[j].key == key);
            assert(nested[j] == merged[j]);
            lemma_merge_key_in_model(first, key);
            assert(merge_key(first, key) == Ok::<OperationModel, CommitErrorModel>(merged[j]));
            assert(first[w].op_type == merged[j].op_type);
        } else {
            assert(nested[w - first.len() + merged.len()] == flat[w]);
        }
    }
    let t = o.op_type;
    let f = key_step(t, key);
    lemma_fold_concat(merged, more, MathValue::Null, f);
    lemma_fold_concat(first, more, MathValue::Null, f);
    assert(merged.fold_left(MathValue::Null, f) == first.fold_left(MathValue::Null, f)) by {
        if has_key(first, key) {
            assert(op_keys(merged).contains(key));
            let j = op_keys(merged).index_of(key);
            assert(op_keys(merged)[j] == key);
            assert(merged[j].key == key);
            lemma_fold_single_key(merged, j, t);
            lemma_merge_key_in_model(first, key);
            assert(merge_key(first, key) == Ok::<OperationModel, CommitErrorModel>(merged[j]));
            let i = choose|i: int| 0 <= i < first.len() && (#[trigger] first[i]).key == key;
            assert(flat[i] == first[i]);
            assert(merged[j].op_type == t);
        } else {
            assert(!has_key(merged, key)) by {
                if has_key(merged, key) {
                    let j = choose|j: int| 0 <= j < merged.len() && (#[trigger] merged[j]).key == key;
                    assert(op_keys(merged)[j] == key);
                    assert(op_keys(merged).contains(key));
                }
            }
            lemma_fold_without_key(merged, key, t, MathValue::Null);
            lemma_fold_without_key(first, key, t, MathValue::Null);
        }
    }
    lemma_lift_injective(o.value, o2.value);
}

} // verus!
