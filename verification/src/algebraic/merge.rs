//! The merge of two values under an operation type.
//!
//! `merge_spec` is the whole merge table; `AlgebraicMerger::merge` computes it.

use vstd::prelude::*;
use crate::algebraic::types::{AlgebraicValue, OpType, ValueModel};
use crate::text::{push_signed_decimal, signed_decimal};

verus! {

/// What a merge result is, over value models.
pub enum MergeModel {
    Merged(ValueModel),
    Conflict { value1: ValueModel, value2: ValueModel, reason: Seq<char> },
    TypeMismatch { type1: Seq<char>, type2: Seq<char>, operation: OpType },
}

/// The reason given when the operation type is not conflict-free.
pub open spec fn not_conflict_free_text(op: OpType) -> Seq<char> {
    "Operation type "@ + op.label() + " is not conflict-free"@
}

/// The reason given when `a + b` leaves the 64-bit range.
pub open spec fn add_overflow_text(a: i64, b: i64) -> Seq<char> {
    "Integer overflow: "@ + signed_decimal(a as int) + " + "@ + signed_decimal(b as int)
}

/// The reason given when `a * b` leaves the 64-bit range.
pub open spec fn mul_overflow_text(a: i64, b: i64) -> Seq<char> {
    "Integer overflow: "@ + signed_decimal(a as int) + " * "@ + signed_decimal(b as int)
}

/// The result for two values whose types the operation cannot combine.
pub open spec fn mismatch(op: OpType, a: ValueModel, b: ValueModel) -> MergeModel {
    MergeModel::TypeMismatch { type1: a.kind_name(), type2: b.kind_name(), operation: op }
}

/// Whether `n` fits in a signed 64-bit integer.
pub open spec fn fits_i64(n: int) -> bool {
    i64::MIN <= n <= i64::MAX
}

/// The merge of two values that are not null under a conflict-free operation.
pub open spec fn combine_spec(op: OpType, a: ValueModel, b: ValueModel) -> MergeModel {
    match op {
        OpType::SemilatticeMax => match (a, b) {
            (ValueModel::Integer(x), ValueModel::Integer(y)) => MergeModel::Merged(
                ValueModel::Integer(if x >= y { x } else { y }),
            ),
            (ValueModel::Boolean(x), ValueModel::Boolean(y)) => MergeModel::Merged(
                ValueModel::Boolean(x || y),
            ),
            _ => mismatch(op, a, b),
        },
        OpType::SemilatticeMin => match (a, b) {
            (ValueModel::Integer(x), ValueModel::Integer(y)) => MergeModel::Merged(
                ValueModel::Integer(if x <= y { x } else { y }),
            ),
            (ValueModel::Boolean(x), ValueModel::Boolean(y)) => MergeModel::Merged(
                ValueModel::Boolean(x && y),
            ),
            _ => mismatch(op, a, b),
        },
        OpType::SemilatticeUnion => match (a, b) {
            (ValueModel::StringSet(x), ValueModel::StringSet(y)) => MergeModel::Merged(
                ValueModel::StringSet(x.union(y)),
            ),
            (ValueModel::IntSet(x), ValueModel::IntSet(y)) => MergeModel::Merged(
                ValueModel::IntSet(x.union(y)),
            ),
            (ValueModel::Boolean(x), ValueModel::Boolean(y)) => MergeModel::Merged(
                ValueModel::Boolean(x || y),
            ),
            _ => mismatch(op, a, b),
        },
        OpType::SemilatticeIntersect => match (a, b) {
            (ValueModel::StringSet(x), ValueModel::StringSet(y)) => MergeModel::Merged(
                ValueModel::StringSet(x.intersect(y)),
            ),
            (ValueModel::IntSet(x), ValueModel::IntSet(y)) => MergeModel::Merged(
                ValueModel::IntSet(x.intersect(y)),
            ),
            (ValueModel::Boolean(x), ValueModel::Boolean(y)) => MergeModel::Merged(
                ValueModel::Boolean(x && y),
            ),
            _ => mismatch(op, a, b),
        },
        OpType::AbelianAdd => match (a, b) {
            (ValueModel::Integer(x), ValueModel::Integer(y)) => if fits_i64(x + y) {
                MergeModel::Merged(ValueModel::Integer((x + y) as i64))
            } else {
                MergeModel::Conflict { value1: a, value2: b, reason: add_overflow_text(x, y) }
            },
            _ => mismatch(op, a, b),
        },
        OpType::AbelianMultiply => match (a, b) {
            (ValueModel::Integer(x), ValueModel::Integer(y)) => if fits_i64(x * y) {
                MergeModel::Merged(ValueModel::Integer((x * y) as i64))
            } else {
                MergeModel::Conflict { value1: a, value2: b, reason: mul_overflow_text(x, y) }
            },
            _ => mismatch(op, a, b),
        },
        _ => MergeModel::Conflict { value1: a, value2: b, reason: not_conflict_free_text(op) },
    }
}

/// The merge table.
///
/// Null on either side gives the other side. An operation type that is not
/// conflict-free gives a conflict. Otherwise the two values are combined as
/// the operation says; integer overflow in a sum or product is a conflict.
pub open spec fn merge_spec(op: OpType, a: ValueModel, b: ValueModel) -> MergeModel {
    if a is Null {
        MergeModel::Merged(b)
    } else if b is Null {
        MergeModel::Merged(a)
    } else if !op.conflict_free() {
        MergeModel::Conflict { value1: a, value2: b, reason: not_conflict_free_text(op) }
    } else {
        combine_spec(op, a, b)
    }
}

/// The outcome of merging two values.
#[derive(Debug, PartialEq, Eq)]
pub enum MergeResult {
    /// The two values merged into one.
    Merged(AlgebraicValue),
    /// The values cannot be merged: the operation type is not conflict-free,
    /// or a sum or product overflowed.
    Conflict { value1: AlgebraicValue, value2: AlgebraicValue, reason: String },
    /// The operation does not apply to values of these types.
    TypeMismatch { type1: &'static str, type2: &'static str, operation: OpType },
}

impl View for MergeResult {
    type V = MergeModel;

    open spec fn view(&self) -> MergeModel {
        match self {
            MergeResult::Merged(v) => MergeModel::Merged(v@),
            MergeResult::Conflict { value1, value2, reason } => MergeModel::Conflict {
                value1: value1@,
                value2: value2@,
                reason: reason@,
            },
            MergeResult::TypeMismatch { type1, type2, operation } => MergeModel::TypeMismatch {
                type1: type1@,
                type2: type2@,
                operation: *operation,
            },
        }
    }
}

impl Clone for MergeResult {
    fn clone(&self) -> (r: Self)
        ensures
            r@ == self@,
    {
        match self {
            MergeResult::Merged(v) => MergeResult::Merged(v.clone()),
            MergeResult::Conflict { value1, value2, reason } => MergeResult::Conflict {
                value1: value1.clone(),
                value2: value2.clone(),
                reason: reason.clone(),
            },
            MergeResult::TypeMismatch { type1, type2, operation } => MergeResult::TypeMismatch {
                type1: *type1,
                type2: *type2,
                operation: *operation,
            },
        }
    }
}

impl MergeResult {
    /// Whether the merge gave a value.
    pub fn is_merged(&self) -> (r: bool)
        ensures
            r == (self@ is Merged),
    {
        match self {
            MergeResult::Merged(_) => true,
            _ => false,
        }
    }

    /// Whether the merge ended in a conflict.
    pub fn is_conflict(&self) -> (r: bool)
        ensures
            r == (self@ is Conflict),
    {
        match self {
            MergeResult::Conflict { .. } => true,
            _ => false,
        }
    }

    /// Whether the value types did not fit the operation.
    pub fn is_type_mismatch(&self) -> (r: bool)
        ensures
            r == (self@ is TypeMismatch),
    {
        match self {
            MergeResult::TypeMismatch { .. } => true,
            _ => false,
        }
    }

    /// The merged value. Only a merged result has one.
    pub fn unwrap(self) -> (v: AlgebraicValue)
        requires
            self@ is Merged,
        ensures
            self@ == MergeModel::Merged(v@),
    {
        match self {
            MergeResult::Merged(v) => v,
            _ => AlgebraicValue::Null,
        }
    }

    /// The merged value, or `None` for a conflict or a type mismatch.
    pub fn ok(self) -> (r: Option<AlgebraicValue>)
        ensures
            r is Some == (self@ is Merged),
            r is Some ==> self@ == MergeModel::Merged(r->0@),
    {
        match self {
            MergeResult::Merged(v) => Some(v),
            _ => None,
        }
    }
}

/// The stateless merge engine.
pub struct AlgebraicMerger;

impl AlgebraicMerger {
    /// Merges two values under `op_type`, as `merge_spec` says.
    pub fn merge(op_type: OpType, value1: &AlgebraicValue, value2: &AlgebraicValue) -> (r: MergeResult)
        ensures
            r@ == merge_spec(op_type, value1@, value2@),
    {
        if value1.is_null() {
            return MergeResult::Merged(value2.clone());
        }
        if value2.is_null() {
            return MergeResult::Merged(value1.clone());
        }
        if !op_type.is_conflict_free() {
            return MergeResult::Conflict {
                value1: value1.clone(),
                value2: value2.clone(),
                reason: Self::not_conflict_free_reason(op_type),
            };
        }
        match op_type {
            OpType::SemilatticeMax => Self::merge_max(value1, value2),
            OpType::SemilatticeMin => Self::merge_min(value1, value2),
            OpType::SemilatticeUnion => Self::merge_union(value1, value2),
            OpType::SemilatticeIntersect => Self::merge_intersect(value1, value2),
            OpType::AbelianAdd => Self::merge_add(value1, value2),
            OpType::AbelianMultiply => Self::merge_multiply(value1, value2),
            _ => MergeResult::Conflict {
                value1: value1.clone(),
                value2: value2.clone(),
                reason: Self::not_conflict_free_reason(op_type),
            },
        }
    }

    /// The reason given when the operation type is not conflict-free.
    fn not_conflict_free_reason(op: OpType) -> (s: String)
        ensures
            s@ == not_conflict_free_text(op),
    {
        let mut s = "Operation type ".to_owned();
        s.append(op.as_str());
        s.append(" is not conflict-free");
        s
    }

    /// The reason given when a sum or product leaves the 64-bit range.
    fn overflow_reason(a: i64, sign: &'static str, b: i64) -> (s: String)
        ensures
            s@ == "Integer overflow: "@ + signed_decimal(a as int) + sign@ + signed_decimal(b as int),
    {
        let mut s = "Integer overflow: ".to_owned();
        push_signed_decimal(&mut s, a);
        s.append(sign);
        push_signed_decimal(&mut s, b);
        s
    }

    /// The result for two values whose types the operation cannot combine.
    fn type_mismatch(op: OpType, v1: &AlgebraicValue, v2: &AlgebraicValue) -> (r: MergeResult)
        ensures
            r@ == mismatch(op, v1@, v2@),
    {
        MergeResult::TypeMismatch { type1: v1.kind_name(), type2: v2.kind_name(), operation: op }
    }

    /// The larger of two integers; the disjunction of two booleans.
    fn merge_max(v1: &AlgebraicValue, v2: &AlgebraicValue) -> (r: MergeResult)
        ensures
            r@ == combine_spec(OpType::SemilatticeMax, v1@, v2@),
    {
        match (v1, v2) {
            (AlgebraicValue::Integer(a), AlgebraicValue::Integer(b)) => {
                let m: i64 = if *a >= *b { *a } else { *b };
                MergeResult::Merged(AlgebraicValue::Integer(m))
            },
            (AlgebraicValue::Boolean(a), AlgebraicValue::Boolean(b)) => MergeResult::Merged(
                AlgebraicValue::Boolean(*a || *b),
            ),
            _ => Self::type_mismatch(OpType::SemilatticeMax, v1, v2),
        }
    }

    /// The smaller of two integers; the conjunction of two booleans.
    fn merge_min(v1: &AlgebraicValue, v2: &AlgebraicValue) -> (r: MergeResult)
        ensures
            r@ == combine_spec(OpType::SemilatticeMin, v1@, v2@),
    {
        match (v1, v2) {
            (AlgebraicValue::Integer(a), AlgebraicValue::Integer(b)) => {
                let m: i64 = if *a <= *b { *a } else { *b };
                MergeResult::Merged(AlgebraicValue::Integer(m))
            },
            (AlgebraicValue::Boolean(a), AlgebraicValue::Boolean(b)) => MergeResult::Merged(
                AlgebraicValue::Boolean(*a && *b),
            ),
            _ => Self::type_mismatch(OpType::SemilatticeMin, v1, v2),
        }
    }

    /// The union of two sets of one kind; the disjunction of two booleans.
    fn merge_union(v1: &AlgebraicValue, v2: &AlgebraicValue) -> (r: MergeResult)
        ensures
            r@ == combine_spec(OpType::SemilatticeUnion, v1@, v2@),
    {
        match (v1, v2) {
            (AlgebraicValue::StringSet(a), AlgebraicValue::StringSet(b)) => MergeResult::Merged(
                AlgebraicValue::StringSet(a.union(b)),
            ),
            (AlgebraicValue::IntSet(a), AlgebraicValue::IntSet(b)) => MergeResult::Merged(
                AlgebraicValue::IntSet(a.union(b)),
            ),
            (AlgebraicValue::Boolean(a), AlgebraicValue::Boolean(b)) => MergeResult::Merged(
                AlgebraicValue::Boolean(*a || *b),
            ),
            _ => Self::type_mismatch(OpType::SemilatticeUnion, v1, v2),
        }
    }

    /// The intersection of two sets of one kind; the conjunction of two
    /// booleans.
    fn merge_intersect(v1: &AlgebraicValue, v2: &AlgebraicValue) -> (r: MergeResult)
        ensures
            r@ == combine_spec(OpType::SemilatticeIntersect, v1@, v2@),
    {
        match (v1, v2) {
            (AlgebraicValue::StringSet(a), AlgebraicValue::StringSet(b)) => MergeResult::Merged(
                AlgebraicValue::StringSet(a.intersection(b)),
            ),
            (AlgebraicValue::IntSet(a), AlgebraicValue::IntSet(b)) => MergeResult::Merged(
                AlgebraicValue::IntSet(a.intersection(b)),
            ),
            (AlgebraicValue::Boolean(a), AlgebraicValue::Boolean(b)) => MergeResult::Merged(
                AlgebraicValue::Boolean(*a && *b),
            ),
            _ => Self::type_mismatch(OpType::SemilatticeIntersect, v1, v2),
        }
    }

    /// The sum of two integers, or a conflict if it overflows.
    fn merge_add(v1: &AlgebraicValue, v2: &AlgebraicValue) -> (r: MergeResult)
        ensures
            r@ == combine_spec(OpType::AbelianAdd, v1@, v2@),
    {
        match (v1, v2) {
            (AlgebraicValue::Integer(a), AlgebraicValue::Integer(b)) => {
                match a.checked_add(*b) {
                    Some(sum) => MergeResult::Merged(AlgebraicValue::Integer(sum)),
                    None => MergeResult::Conflict {
                        value1: v1.clone(),
                        value2: v2.clone(),
                        reason: Self::overflow_reason(*a, " + ", *b),
                    },
                }
            },
            _ => Self::type_mismatch(OpType::AbelianAdd, v1, v2),
        }
    }

    /// The product of two integers, or a conflict if it overflows.
    fn merge_multiply(v1: &AlgebraicValue, v2: &AlgebraicValue) -> (r: MergeResult)
        ensures
            r@ == combine_spec(OpType::AbelianMultiply, v1@, v2@),
    {
        match (v1, v2) {
            (AlgebraicValue::Integer(a), AlgebraicValue::Integer(b)) => {
                match a.checked_mul(*b) {
                    Some(product) => MergeResult::Merged(AlgebraicValue::Integer(product)),
                    None => MergeResult::Conflict {
                        value1: v1.clone(),
                        value2: v2.clone(),
                        reason: Self::overflow_reason(*a, " * ", *b),
                    },
                }
            },
            _ => Self::type_mismatch(OpType::AbelianMultiply, v1, v2),
        }
    }

    /// Whether merging in either order gives the same result.
    pub fn verify_commutativity(op_type: OpType, v1: &AlgebraicValue, v2: &AlgebraicValue) -> (r: bool)
        ensures
            r == (merge_spec(op_type, v1@, v2@) == merge_spec(op_type, v2@, v1@)),
    {
        let r1 = Self::merge(op_type, v1, v2);
        let r2 = Self::merge(op_type, v2, v1);
        merge_results_equal(&r1, &r2)
    }

    /// Whether merging a value with itself gives the value back. Operation
    /// types outside the semilattice family pass without a merge.
    pub fn verify_idempotency(op_type: OpType, v: &AlgebraicValue) -> (r: bool)
        ensures
            r == (!op_type.semilattice() || merge_spec(op_type, v@, v@) == MergeModel::Merged(v@)),
    {
        if !op_type.is_semilattice() {
            return true;
        }
        let result = Self::merge(op_type, v, v);
        match result {
            MergeResult::Merged(merged) => values_equal(&merged, v),
            _ => false,
        }
    }
}

/// Whether two values have the same contents.
pub fn values_equal(a: &AlgebraicValue, b: &AlgebraicValue) -> (r: bool)
    ensures
        r == (a@ == b@),
{
    match (a, b) {
        (AlgebraicValue::Integer(x), AlgebraicValue::Integer(y)) => *x == *y,
        (AlgebraicValue::Boolean(x), AlgebraicValue::Boolean(y)) => *x == *y,
        (AlgebraicValue::StringSet(x), AlgebraicValue::StringSet(y)) => x.same_members(y),
        (AlgebraicValue::IntSet(x), AlgebraicValue::IntSet(y)) => x.same_members(y),
        (AlgebraicValue::Null, AlgebraicValue::Null) => true,
        _ => false,
    }
}

/// Whether two merge results have the same contents.
pub fn merge_results_equal(a: &MergeResult, b: &MergeResult) -> (r: bool)
    ensures
        r == (a@ == b@),
{
    match (a, b) {
        (MergeResult::Merged(x), MergeResult::Merged(y)) => values_equal(x, y),
        (
            MergeResult::Conflict { value1: a1, value2: a2, reason: ar },
            MergeResult::Conflict { value1: b1, value2: b2, reason: br },
        ) => values_equal(a1, b1) && values_equal(a2, b2) && crate::text::str_eq(
            ar.as_str(),
            br.as_str(),
        ),
        (
            MergeResult::TypeMismatch { type1: a1, type2: a2, operation: ao },
            MergeResult::TypeMismatch { type1: b1, type2: b2, operation: bo },
        ) => crate::text::str_eq(a1, b1) && crate::text::str_eq(a2, b2) && *ao == *bo,
        _ => false,
    }
}

} // verus!
