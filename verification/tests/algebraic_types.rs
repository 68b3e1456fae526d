use rhizo_core::algebraic::{AlgebraicValue, OpType};
use rhizo_core::sets::{IntSet, StrSet};

#[test]
fn test_optype_is_conflict_free() {
    assert!(OpType::SemilatticeMax.is_conflict_free());
    assert!(OpType::SemilatticeMin.is_conflict_free());
    assert!(OpType::SemilatticeUnion.is_conflict_free());
    assert!(OpType::SemilatticeIntersect.is_conflict_free());

    assert!(OpType::AbelianAdd.is_conflict_free());
    assert!(OpType::AbelianMultiply.is_conflict_free());

    assert!(!OpType::GenericOverwrite.is_conflict_free());
    assert!(!OpType::GenericConditional.is_conflict_free());
    assert!(!OpType::Unknown.is_conflict_free());
}

#[test]
fn test_optype_is_semilattice() {
    assert!(OpType::SemilatticeMax.is_semilattice());
    assert!(OpType::SemilatticeMin.is_semilattice());
    assert!(OpType::SemilatticeUnion.is_semilattice());
    assert!(OpType::SemilatticeIntersect.is_semilattice());

    assert!(!OpType::AbelianAdd.is_semilattice());
    assert!(!OpType::GenericOverwrite.is_semilattice());
}

#[test]
fn test_optype_is_abelian() {
    assert!(OpType::AbelianAdd.is_abelian());
    assert!(OpType::AbelianMultiply.is_abelian());

    assert!(!OpType::SemilatticeMax.is_abelian());
    assert!(!OpType::GenericOverwrite.is_abelian());
}

#[test]
fn test_optype_can_merge_with() {
    assert!(OpType::AbelianAdd.can_merge_with(&OpType::AbelianAdd));
    assert!(OpType::SemilatticeMax.can_merge_with(&OpType::SemilatticeMax));

    assert!(!OpType::AbelianAdd.can_merge_with(&OpType::AbelianMultiply));
    assert!(!OpType::SemilatticeMax.can_merge_with(&OpType::SemilatticeMin));

    assert!(!OpType::GenericOverwrite.can_merge_with(&OpType::GenericOverwrite));
    assert!(!OpType::Unknown.can_merge_with(&OpType::Unknown));
}

#[test]
fn test_optype_display() {
    assert_eq!(OpType::SemilatticeMax.to_string(), "MAX");
    assert_eq!(OpType::AbelianAdd.to_string(), "ADD");
    assert_eq!(OpType::GenericOverwrite.to_string(), "OVERWRITE");
}

#[test]
fn test_optype_default() {
    assert_eq!(OpType::default(), OpType::Unknown);
}

#[test]
fn test_algebraic_value_integer() {
    let v = AlgebraicValue::integer(42);
    assert!(v.is_numeric());
    assert!(!v.is_set());
    assert_eq!(v.as_integer(), Some(42));
    assert_eq!(v.kind_name(), "Integer");
}

#[test]
fn test_algebraic_value_string_set() {
    let v = AlgebraicValue::string_set(["a", "b", "c"]);
    assert!(v.is_set());
    assert!(!v.is_numeric());
    assert_eq!(v.kind_name(), "StringSet");

    if let AlgebraicValue::StringSet(s) = v {
        assert_eq!(s.len(), 3);
        assert!(s.contains("a"));
        assert!(s.contains("b"));
        assert!(s.contains("c"));
    } else {
        panic!("Expected StringSet");
    }
}

#[test]
fn test_algebraic_value_int_set() {
    let v = AlgebraicValue::int_set([1, 2, 3]);
    assert!(v.is_set());
    assert_eq!(v.kind_name(), "IntSet");

    if let AlgebraicValue::IntSet(s) = v {
        assert_eq!(s.len(), 3);
        assert!(s.contains(1));
    } else {
        panic!("Expected IntSet");
    }
}

#[test]
fn test_algebraic_value_null() {
    let v = AlgebraicValue::null();
    assert!(v.is_null());
    assert!(!v.is_numeric());
    assert!(!v.is_set());
    assert_eq!(v.kind_name(), "Null");
}

#[test]
fn test_algebraic_value_from_traits() {
    let v1: AlgebraicValue = 42i64.into();
    assert_eq!(v1, AlgebraicValue::Integer(42));

    let v2: AlgebraicValue = 42i32.into();
    assert_eq!(v2, AlgebraicValue::Integer(42));

    let v4: AlgebraicValue = true.into();
    assert_eq!(v4, AlgebraicValue::Boolean(true));

    let v5: AlgebraicValue = ["a", "b"].into();
    assert!(matches!(v5, AlgebraicValue::StringSet(_)));
}

#[test]
fn test_algebraic_value_display() {
    assert_eq!(AlgebraicValue::integer(42).to_string(), "42");
    assert_eq!(AlgebraicValue::null().to_string(), "null");
    assert_eq!(AlgebraicValue::boolean(true).to_string(), "true");
}

#[test]
fn test_algebraic_value_equality() {
    assert_eq!(AlgebraicValue::integer(42), AlgebraicValue::integer(42));
    assert_ne!(AlgebraicValue::integer(42), AlgebraicValue::integer(43));
    assert_ne!(AlgebraicValue::integer(42), AlgebraicValue::boolean(true));
}

#[test]
fn value_text_of_numbers_and_sets() {
    assert_eq!(AlgebraicValue::integer(-7).to_string(), "-7");
    assert_eq!(AlgebraicValue::integer(i64::MIN).to_string(), "-9223372036854775808");
    assert_eq!(AlgebraicValue::integer(0).to_string(), "0");
    assert_eq!(AlgebraicValue::boolean(false).to_string(), "false");
    assert_eq!(AlgebraicValue::int_set([3, 1, 2]).to_string(), "[1, 2, 3]");
    assert_eq!(AlgebraicValue::int_set([]).to_string(), "[]");
    assert_eq!(
        AlgebraicValue::int_set([6, 5, 4, 3, 2, 1]).to_string(),
        "{[1, 2, 3, 4, 5]... (6 total)}"
    );
    assert_eq!(
        AlgebraicValue::string_set(["b", "a\"c"]).to_string(),
        "[\"a\\\"c\", \"b\"]"
    );
    assert_eq!(
        AlgebraicValue::string_set(["f", "e", "d", "c", "b", "a"]).to_string(),
        "{[\"a\", \"b\", \"c\", \"d\", \"e\"]... (6 total)}"
    );
}

#[test]
fn value_from_sets() {
    let mut s = StrSet::new();
    s.insert("x".to_string());
    s.insert("x".to_string());
    let v: AlgebraicValue = s.into();
    assert_eq!(v, AlgebraicValue::string_set(["x"]));

    let mut n = IntSet::new();
    n.insert(9);
    n.insert(-1);
    let v: AlgebraicValue = n.into();
    assert_eq!(v, AlgebraicValue::int_set([-1, 9]));
}

#[test]
fn optype_texts() {
    let all = [
        (OpType::SemilatticeMax, "MAX", None),
        (OpType::SemilatticeMin, "MIN", None),
        (OpType::SemilatticeUnion, "UNION", Some("empty_set")),
        (OpType::SemilatticeIntersect, "INTERSECT", None),
        (OpType::AbelianAdd, "ADD", Some("0")),
        (OpType::AbelianMultiply, "MULTIPLY", Some("1")),
        (OpType::GenericOverwrite, "OVERWRITE", None),
        (OpType::GenericConditional, "CONDITIONAL", None),
        (OpType::Unknown, "UNKNOWN", None),
    ];
    for (op, label, identity) in all {
        assert_eq!(op.as_str(), label);
        assert_eq!(op.to_string(), label);
        assert_eq!(op.identity_hint(), identity);
        assert!(!op.description().is_empty());
    }
}

#[test]
fn new_sets_have_no_members() {
    let strings = StrSet::new();
    assert!(strings.is_empty());
    assert_eq!(strings.len(), 0);
    assert!(strings.to_vec().is_empty());
    assert!(!strings.contains(""));

    let numbers = IntSet::new();
    assert!(numbers.is_empty());
    assert_eq!(numbers.len(), 0);
    assert!(numbers.to_vec().is_empty());
    assert!(!numbers.contains(0));
}
