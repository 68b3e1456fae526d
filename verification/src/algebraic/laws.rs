//! Laws of the merge table.

use vstd::prelude::*;
use crate::algebraic::types::{OpType, ValueModel};
use crate::algebraic::merge::{merge_spec, MergeModel};

verus! {

/// Commutativity. Under a conflict-free operation, merging `a` with `b`
/// succeeds exactly when merging `b` with `a` does, and both give the same
/// value.
pub proof fn law_merge_commutative(op: OpType, a: ValueModel, b: ValueModel)
    requires
        op.conflict_free(),
    ensures
        merge_spec(op, a, b) is Merged <==> merge_spec(op, b, a) is Merged,
        merge_spec(op, a, b) is Merged ==> merge_spec(op, a, b) == merge_spec(op, b, a),
{
    match (a, b) {
        (ValueModel::StringSet(x), ValueModel::StringSet(y)) => {
            assert(x.union(y) =~= y.union(x));
            assert(x.intersect(y) =~= y.intersect(x));
        },
        (ValueModel::IntSet(x), ValueModel::IntSet(y)) => {
            assert(x.union(y) =~= y.union(x));
            assert(x.intersect(y) =~= y.intersect(x));
        },
        (ValueModel::Integer(x), ValueModel::Integer(y)) => {
            assert(x * y == y * x) by (nonlinear_arith);
        },
        _ => {},
    }
}

/// Associativity. Under a conflict-free operation, where `a` merges with `b`
/// and `b` merges with `c`, merging the first result with `c` succeeds
/// exactly when merging `a` with the second result does, and both give the
/// same value.
pub proof fn law_merge_associative(op: OpType, a: ValueModel, b: ValueModel, c: ValueModel)
    requires
        op.conflict_free(),
        merge_spec(op, a, b) is Merged,
        merge_spec(op, b, c) is Merged,
    ensures
        merge_spec(op, merge_spec(op, a, b)->Merged_0, c) is Merged <==> merge_spec(
            op,
            a,
            merge_spec(op, b, c)->Merged_0,
        ) is Merged,
        merge_spec(op, merge_spec(op, a, b)->Merged_0, c) is Merged ==> merge_spec(
            op,
            merge_spec(op, a, b)->Merged_0,
            c,
        ) == merge_spec(op, a, merge_spec(op, b, c)->Merged_0),
{
    match (a, b, c) {
        (ValueModel::StringSet(x), ValueModel::StringSet(y), ValueModel::StringSet(z)) => {
            assert(x.union(y).union(z) =~= x.union(y.union(z)));
            assert(x.intersect(y).intersect(z) =~= x.intersect(y.intersect(z)));
        },
        (ValueModel::IntSet(x), ValueModel::IntSet(y), ValueModel::IntSet(z)) => {
            assert(x.union(y).union(z) =~= x.union(y.union(z)));
            assert(x.intersect(y).intersect(z) =~= x.intersect(y.intersect(z)));
        },
        (ValueModel::Integer(x), ValueModel::Integer(y), ValueModel::Integer(z)) => {
            assert((x * y) * z == x * (y * z)) by (nonlinear_arith);
        },
        _ => {},
    }
}

/// Idempotency. Under a semilattice operation, a value merged with itself
/// is a type mismatch or gives the value back.
pub proof fn law_merge_idempotent(op: OpType, v: ValueModel)
    requires
        op.semilattice(),
    ensures
        merge_spec(op, v, v) is Merged || merge_spec(op, v, v) is TypeMismatch,
        merge_spec(op, v, v) is Merged ==> merge_spec(op, v, v) == MergeModel::Merged(v),
{
    match v {
        ValueModel::StringSet(x) => {
            assert(x.union(x) =~= x);
            assert(x.intersect(x) =~= x);
        },
        ValueModel::IntSet(x) => {
            assert(x.union(x) =~= x);
            assert(x.intersect(x) =~= x);
        },
        _ => {},
    }
}

/// Null is the identity of every operation type, on either side.
pub proof fn law_null_identity(op: OpType, v: ValueModel)
    ensures
        merge_spec(op, ValueModel::Null, v) == MergeModel::Merged(v),
        merge_spec(op, v, ValueModel::Null) == MergeModel::Merged(v),
{
}

} // verus!
