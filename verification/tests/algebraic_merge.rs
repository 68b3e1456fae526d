use rhizo_core::algebraic::{AlgebraicMerger, AlgebraicValue, MergeResult, OpType};

// ============ MAX Tests ============

#[test]
fn test_merge_max_integers() {
    let result = AlgebraicMerger::merge(
        OpType::SemilatticeMax,
        &AlgebraicValue::integer(10),
        &AlgebraicValue::integer(20),
    );
    assert_eq!(result, MergeResult::Merged(AlgebraicValue::integer(20)));

    // Verify commutativity
    let result2 = AlgebraicMerger::merge(
        OpType::SemilatticeMax,
        &AlgebraicValue::integer(20),
        &AlgebraicValue::integer(10),
    );
    assert_eq!(result, result2);
}

#[test]
fn test_merge_max_negative() {
    let result = AlgebraicMerger::merge(
        OpType::SemilatticeMax,
        &AlgebraicValue::integer(-10),
        &AlgebraicValue::integer(-5),
    );
    assert_eq!(result, MergeResult::Merged(AlgebraicValue::integer(-5)));
}

#[test]
fn test_merge_max_idempotent() {
    let v = AlgebraicValue::integer(42);
    let result = AlgebraicMerger::merge(OpType::SemilatticeMax, &v, &v);
    assert_eq!(result, MergeResult::Merged(AlgebraicValue::integer(42)));
}

// ============ MIN Tests ============

#[test]
fn test_merge_min_integers() {
    let result = AlgebraicMerger::merge(
        OpType::SemilatticeMin,
        &AlgebraicValue::integer(10),
        &AlgebraicValue::integer(20),
    );
    assert_eq!(result, MergeResult::Merged(AlgebraicValue::integer(10)));
}

// ============ UNION Tests ============

#[test]
fn test_merge_union_string_sets() {
    let v1 = AlgebraicValue::string_set(["a", "b"]);
    let v2 = AlgebraicValue::string_set(["b", "c"]);
    let result = AlgebraicMerger::merge(OpType::SemilatticeUnion, &v1, &v2);

    if let MergeResult::Merged(AlgebraicValue::StringSet(s)) = result {
        assert_eq!(s.len(), 3);
        assert!(s.contains("a"));
        assert!(s.contains("b"));
        assert!(s.contains("c"));
    } else {
        panic!("Expected Merged StringSet");
    }
}

#[test]
fn test_merge_union_int_sets() {
    let v1 = AlgebraicValue::int_set([1, 2]);
    let v2 = AlgebraicValue::int_set([2, 3]);
    let result = AlgebraicMerger::merge(OpType::SemilatticeUnion, &v1, &v2);

    if let MergeResult::Merged(AlgebraicValue::IntSet(s)) = result {
        assert_eq!(s.len(), 3);
        assert!(s.contains(1));
        assert!(s.contains(2));
        assert!(s.contains(3));
    } else {
        panic!("Expected Merged IntSet");
    }
}

#[test]
fn test_merge_union_idempotent() {
    let v = AlgebraicValue::string_set(["x", "y"]);
    let result = AlgebraicMerger::merge(OpType::SemilatticeUnion, &v, &v);

    if let MergeResult::Merged(AlgebraicValue::StringSet(s)) = result {
        assert_eq!(s.len(), 2);
    } else {
        panic!("Expected Merged StringSet");
    }
}

// ============ INTERSECT Tests ============

#[test]
fn test_merge_intersect_string_sets() {
    let v1 = AlgebraicValue::string_set(["a", "b", "c"]);
    let v2 = AlgebraicValue::string_set(["b", "c", "d"]);
    let result = AlgebraicMerger::merge(OpType::SemilatticeIntersect, &v1, &v2);

    if let MergeResult::Merged(AlgebraicValue::StringSet(s)) = result {
        assert_eq!(s.len(), 2);
        assert!(s.contains("b"));
        assert!(s.contains("c"));
    } else {
        panic!("Expected Merged StringSet");
    }
}

#[test]
fn test_merge_intersect_empty_result() {
    let v1 = AlgebraicValue::string_set(["a", "b"]);
    let v2 = AlgebraicValue::string_set(["c", "d"]);
    let result = AlgebraicMerger::merge(OpType::SemilatticeIntersect, &v1, &v2);

    if let MergeResult::Merged(AlgebraicValue::StringSet(s)) = result {
        assert!(s.is_empty());
    } else {
        panic!("Expected Merged StringSet");
    }
}

// ============ ADD Tests ============

#[test]
fn test_merge_add_integers() {
    let result = AlgebraicMerger::merge(
        OpType::AbelianAdd,
        &AlgebraicValue::integer(5),
        &AlgebraicValue::integer(3),
    );
    assert_eq!(result, MergeResult::Merged(AlgebraicValue::integer(8)));
}

#[test]
fn test_merge_add_negative() {
    let result = AlgebraicMerger::merge(
        OpType::AbelianAdd,
        &AlgebraicValue::integer(10),
        &AlgebraicValue::integer(-3),
    );
    assert_eq!(result, MergeResult::Merged(AlgebraicValue::integer(7)));
}

#[test]
fn test_merge_add_commutativity() {
    let v1 = AlgebraicValue::integer(17);
    let v2 = AlgebraicValue::integer(23);
    assert!(AlgebraicMerger::verify_commutativity(OpType::AbelianAdd, &v1, &v2));
}

#[test]
fn test_merge_add_overflow() {
    let result = AlgebraicMerger::merge(
        OpType::AbelianAdd,
        &AlgebraicValue::integer(i64::MAX),
        &AlgebraicValue::integer(1),
    );
    assert!(result.is_conflict());
}

// ============ MULTIPLY Tests ============

#[test]
fn test_merge_multiply_integers() {
    let result = AlgebraicMerger::merge(
        OpType::AbelianMultiply,
        &AlgebraicValue::integer(4),
        &AlgebraicValue::integer(5),
    );
    assert_eq!(result, MergeResult::Merged(AlgebraicValue::integer(20)));
}

#[test]
fn test_merge_multiply_by_zero() {
    let result = AlgebraicMerger::merge(
        OpType::AbelianMultiply,
        &AlgebraicValue::integer(100),
        &AlgebraicValue::integer(0),
    );
    assert_eq!(result, MergeResult::Merged(AlgebraicValue::integer(0)));
}

#[test]
fn test_merge_multiply_overflow() {
    let result = AlgebraicMerger::merge(
        OpType::AbelianMultiply,
        &AlgebraicValue::integer(i64::MAX),
        &AlgebraicValue::integer(2),
    );
    assert!(result.is_conflict());
}

// ============ Null Handling Tests ============

#[test]
fn test_merge_with_null() {
    let v = AlgebraicValue::integer(42);
    let null = AlgebraicValue::null();

    let result1 = AlgebraicMerger::merge(OpType::AbelianAdd, &v, &null);
    assert_eq!(result1, MergeResult::Merged(AlgebraicValue::integer(42)));

    let result2 = AlgebraicMerger::merge(OpType::AbelianAdd, &null, &v);
    assert_eq!(result2, MergeResult::Merged(AlgebraicValue::integer(42)));

    let result3 = AlgebraicMerger::merge(OpType::AbelianAdd, &null, &null);
    assert!(result3.is_merged());
}

// ============ Conflict Tests ============

#[test]
fn test_merge_generic_overwrite_conflicts() {
    let result = AlgebraicMerger::merge(
        OpType::GenericOverwrite,
        &AlgebraicValue::integer(1),
        &AlgebraicValue::integer(2),
    );
    assert!(result.is_conflict());
}

#[test]
fn test_merge_unknown_conflicts() {
    let result = AlgebraicMerger::merge(
        OpType::Unknown,
        &AlgebraicValue::integer(1),
        &AlgebraicValue::integer(2),
    );
    assert!(result.is_conflict());
}

// ============ Type Mismatch Tests ============

#[test]
fn test_merge_type_mismatch() {
    let result = AlgebraicMerger::merge(
        OpType::AbelianAdd,
        &AlgebraicValue::integer(1),
        &AlgebraicValue::string_set(["a"]),
    );
    assert!(result.is_type_mismatch());
}

// ============ Boolean Tests ============

#[test]
fn test_merge_bool_union() {
    let result = AlgebraicMerger::merge(
        OpType::SemilatticeUnion,
        &AlgebraicValue::boolean(false),
        &AlgebraicValue::boolean(true),
    );
    assert_eq!(result, MergeResult::Merged(AlgebraicValue::boolean(true)));
}

#[test]
fn test_merge_bool_intersect() {
    let result = AlgebraicMerger::merge(
        OpType::SemilatticeIntersect,
        &AlgebraicValue::boolean(true),
        &AlgebraicValue::boolean(false),
    );
    assert_eq!(result, MergeResult::Merged(AlgebraicValue::boolean(false)));
}

// ============ Property Tests ============

#[test]
fn test_all_semilattice_idempotent() {
    // Max and Min are idempotent for integers
    for op in [OpType::SemilatticeMax, OpType::SemilatticeMin] {
        assert!(
            AlgebraicMerger::verify_idempotency(op, &AlgebraicValue::integer(42)),
            "{:?} should be idempotent for integers",
            op
        );
    }

    // Union and Intersect are idempotent for sets
    for op in [OpType::SemilatticeUnion, OpType::SemilatticeIntersect] {
        assert!(
            AlgebraicMerger::verify_idempotency(
                op,
                &AlgebraicValue::string_set(["a", "b"])
            ),
            "{:?} should be idempotent for sets",
            op
        );
    }
}

#[test]
fn test_all_conflict_free_commutative() {
    let ops = [
        OpType::SemilatticeMax,
        OpType::SemilatticeMin,
        OpType::AbelianAdd,
        OpType::AbelianMultiply,
    ];

    for op in ops {
        assert!(
            AlgebraicMerger::verify_commutativity(
                op,
                &AlgebraicValue::integer(17),
                &AlgebraicValue::integer(23),
            ),
            "{:?} should be commutative",
            op
        );
    }
}

// ============ MergeResult Tests ============

#[test]
fn test_merge_result_unwrap() {
    let result = MergeResult::Merged(AlgebraicValue::integer(42));
    assert_eq!(result.unwrap(), AlgebraicValue::integer(42));
}

#[test]
fn test_merge_result_ok() {
    let merged = MergeResult::Merged(AlgebraicValue::integer(42));
    assert_eq!(merged.ok(), Some(AlgebraicValue::integer(42)));

    let conflict = MergeResult::Conflict {
        value1: AlgebraicValue::integer(1),
        value2: AlgebraicValue::integer(2),
        reason: "test".to_string(),
    };
    assert_eq!(conflict.ok(), None);
}

#[test]
fn merge_min_with_negative_numbers() {
    let result = AlgebraicMerger::merge(
        OpType::SemilatticeMin,
        &AlgebraicValue::integer(-10),
        &AlgebraicValue::integer(-5),
    );
    assert_eq!(result, MergeResult::Merged(AlgebraicValue::integer(-10)));
}

#[test]
fn merge_add_at_the_limits() {
    let result = AlgebraicMerger::merge(
        OpType::AbelianAdd,
        &AlgebraicValue::integer(i64::MAX - 1),
        &AlgebraicValue::integer(1),
    );
    assert_eq!(result, MergeResult::Merged(AlgebraicValue::integer(i64::MAX)));

    let result = AlgebraicMerger::merge(
        OpType::AbelianAdd,
        &AlgebraicValue::integer(i64::MIN),
        &AlgebraicValue::integer(-1),
    );
    match result {
        MergeResult::Conflict { value1, value2, reason } => {
            assert_eq!(value1, AlgebraicValue::integer(i64::MIN));
            assert_eq!(value2, AlgebraicValue::integer(-1));
            assert_eq!(reason, "Integer overflow: -9223372036854775808 + -1");
        }
        other => panic!("expected a conflict, got {:?}", other),
    }
}

#[test]
fn merge_multiply_overflow_reason() {
    let result = AlgebraicMerger::merge(
        OpType::AbelianMultiply,
        &AlgebraicValue::integer(i64::MIN),
        &AlgebraicValue::integer(-1),
    );
    match result {
        MergeResult::Conflict { reason, .. } => {
            assert_eq!(reason, "Integer overflow: -9223372036854775808 * -1");
        }
        other => panic!("expected a conflict, got {:?}", other),
    }
}

#[test]
fn merge_null_is_identity_for_every_operation() {
    let ops = [
        OpType::SemilatticeMax,
        OpType::SemilatticeMin,
        OpType::SemilatticeUnion,
        OpType::SemilatticeIntersect,
        OpType::AbelianAdd,
        OpType::AbelianMultiply,
    ];
    let values = [
        AlgebraicValue::integer(7),
        AlgebraicValue::boolean(true),
        AlgebraicValue::string_set(["a"]),
        AlgebraicValue::int_set([1, 2]),
    ];
    for op in ops {
        for v in &values {
            assert_eq!(
                AlgebraicMerger::merge(op, v, &AlgebraicValue::null()),
                MergeResult::Merged(v.clone())
            );
            assert_eq!(
                AlgebraicMerger::merge(op, &AlgebraicValue::null(), v),
                MergeResult::Merged(v.clone())
            );
        }
        assert_eq!(
            AlgebraicMerger::merge(op, &AlgebraicValue::null(), &AlgebraicValue::null()),
            MergeResult::Merged(AlgebraicValue::null())
        );
    }
}

#[test]
fn merge_generic_conflict_names_the_operation() {
    for op in [OpType::GenericOverwrite, OpType::GenericConditional, OpType::Unknown] {
        let result = AlgebraicMerger::merge(op, &AlgebraicValue::integer(2), &AlgebraicValue::integer(1));
        match result {
            MergeResult::Conflict { value1, value2, reason } => {
                assert_eq!(value1, AlgebraicValue::integer(2));
                assert_eq!(value2, AlgebraicValue::integer(1));
                assert_eq!(reason, format!("Operation type {} is not conflict-free", op.to_string()));
            }
            other => panic!("expected a conflict, got {:?}", other),
        }
        assert_eq!(
            AlgebraicMerger::merge(op, &AlgebraicValue::null(), &AlgebraicValue::integer(1)),
            MergeResult::Merged(AlgebraicValue::integer(1))
        );
    }
}

#[test]
fn merge_type_mismatch_names_both_kinds() {
    let result = AlgebraicMerger::merge(
        OpType::SemilatticeMax,
        &AlgebraicValue::string_set(["a"]),
        &AlgebraicValue::string_set(["a"]),
    );
    assert_eq!(
        result,
        MergeResult::TypeMismatch {
            type1: "StringSet",
            type2: "StringSet",
            operation: OpType::SemilatticeMax,
        }
    );
    assert!(!AlgebraicMerger::verify_idempotency(
        OpType::SemilatticeMax,
        &AlgebraicValue::string_set(["a"])
    ));
}

#[test]
fn merge_is_associative_on_examples() {
    let a = AlgebraicValue::int_set([1, 2, 3]);
    let b = AlgebraicValue::int_set([2, 3, 4]);
    let c = AlgebraicValue::int_set([3, 4, 5]);
    for op in [OpType::SemilatticeUnion, OpType::SemilatticeIntersect] {
        let ab = AlgebraicMerger::merge(op, &a, &b).unwrap();
        let bc = AlgebraicMerger::merge(op, &b, &c).unwrap();
        assert_eq!(AlgebraicMerger::merge(op, &ab, &c), AlgebraicMerger::merge(op, &a, &bc));
    }
    let a = AlgebraicValue::integer(5);
    let b = AlgebraicValue::integer(-9);
    let c = AlgebraicValue::integer(12);
    for op in [OpType::SemilatticeMax, OpType::SemilatticeMin, OpType::AbelianAdd, OpType::AbelianMultiply] {
        let ab = AlgebraicMerger::merge(op, &a, &b).unwrap();
        let bc = AlgebraicMerger::merge(op, &b, &c).unwrap();
        assert_eq!(AlgebraicMerger::merge(op, &ab, &c), AlgebraicMerger::merge(op, &a, &bc));
    }
}

#[test]
fn merge_bool_max_and_min() {
    assert_eq!(
        AlgebraicMerger::merge(OpType::SemilatticeMax, &AlgebraicValue::boolean(false), &AlgebraicValue::boolean(true)),
        MergeResult::Merged(AlgebraicValue::boolean(true))
    );
    assert_eq!(
        AlgebraicMerger::merge(OpType::SemilatticeMin, &AlgebraicValue::boolean(false), &AlgebraicValue::boolean(true)),
        MergeResult::Merged(AlgebraicValue::boolean(false))
    );
}
