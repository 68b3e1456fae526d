use rhizo_core::algebraic::{
    AlgebraicSchemaRegistry, AlgebraicValue, ColumnAlgebraic, OpType, TableAlgebraicSchema,
};

#[test]
fn test_column_algebraic_new() {
    let col = ColumnAlgebraic::new("count", OpType::AbelianAdd);
    assert_eq!(col.column, "count");
    assert_eq!(col.op_type, OpType::AbelianAdd);
    assert_eq!(col.identity, Some(AlgebraicValue::Integer(0)));
    assert!(col.is_conflict_free());
}

#[test]
fn test_column_algebraic_with_description() {
    let col = ColumnAlgebraic::new("last_seen", OpType::SemilatticeMax)
        .with_description("Timestamp of last activity");
    assert_eq!(col.description, Some("Timestamp of last activity".to_string()));
}

#[test]
fn test_table_schema_new() {
    let schema = TableAlgebraicSchema::new("users");
    assert_eq!(schema.table, "users");
    assert_eq!(schema.default_op_type, OpType::Unknown);
    assert!(schema.columns.is_empty());
}

#[test]
fn test_table_schema_add_columns() {
    let mut schema = TableAlgebraicSchema::new("inventory");
    schema.add_column("count", OpType::AbelianAdd);
    schema.add_column("tags", OpType::SemilatticeUnion);
    schema.add_column("name", OpType::GenericOverwrite);

    assert_eq!(schema.get_op_type("count"), OpType::AbelianAdd);
    assert_eq!(schema.get_op_type("tags"), OpType::SemilatticeUnion);
    assert_eq!(schema.get_op_type("name"), OpType::GenericOverwrite);
    assert_eq!(schema.get_op_type("unknown"), OpType::Unknown);
}

#[test]
fn test_table_schema_default() {
    let mut schema = TableAlgebraicSchema::new("counters");
    schema.set_default(OpType::AbelianAdd);

    // All columns inherit the default
    assert_eq!(schema.get_op_type("any_column"), OpType::AbelianAdd);
    assert_eq!(schema.get_op_type("another"), OpType::AbelianAdd);
}

#[test]
fn test_table_schema_all_additive() {
    let schema = TableAlgebraicSchema::all_additive("metrics");
    assert_eq!(schema.default_op_type, OpType::AbelianAdd);
    assert!(schema.is_fully_conflict_free());
}

#[test]
fn test_table_schema_all_max() {
    let schema = TableAlgebraicSchema::all_max("timestamps");
    assert_eq!(schema.default_op_type, OpType::SemilatticeMax);
    assert!(schema.is_fully_conflict_free());
}

#[test]
fn test_table_schema_is_fully_conflict_free() {
    let mut schema = TableAlgebraicSchema::new("test");
    schema.set_default(OpType::AbelianAdd);
    schema.add_column("max_val", OpType::SemilatticeMax);
    assert!(schema.is_fully_conflict_free());

    // Adding a conflicting column breaks it
    schema.add_column("name", OpType::GenericOverwrite);
    assert!(!schema.is_fully_conflict_free());
}

#[test]
fn test_table_schema_can_auto_merge() {
    let mut schema = TableAlgebraicSchema::new("inventory");
    schema.add_column("count", OpType::AbelianAdd);
    schema.add_column("name", OpType::GenericOverwrite);

    assert!(schema.can_auto_merge(&["count"]));
    assert!(!schema.can_auto_merge(&["name"]));
    assert!(!schema.can_auto_merge(&["count", "name"]));
}

#[test]
fn test_table_schema_conflict_free_columns() {
    let mut schema = TableAlgebraicSchema::new("test");
    schema.add_column("a", OpType::AbelianAdd);
    schema.add_column("b", OpType::SemilatticeMax);
    schema.add_column("c", OpType::GenericOverwrite);

    let cf = schema.conflict_free_columns();
    assert!(cf.contains(&"a".to_string()));
    assert!(cf.contains(&"b".to_string()));
    assert!(!cf.contains(&"c".to_string()));

    let conflicting = schema.conflicting_columns();
    assert!(!conflicting.contains(&"a".to_string()));
    assert!(!conflicting.contains(&"b".to_string()));
    assert!(conflicting.contains(&"c".to_string()));
}

#[test]
fn test_registry_basic() {
    let mut registry = AlgebraicSchemaRegistry::new();

    let mut schema = TableAlgebraicSchema::new("users");
    schema.add_column("login_count", OpType::AbelianAdd);
    registry.register(schema);

    assert!(registry.has_table("users"));
    assert!(!registry.has_table("orders"));

    assert_eq!(
        registry.get_op_type("users", "login_count"),
        OpType::AbelianAdd
    );
    assert_eq!(
        registry.get_op_type("users", "unknown"),
        OpType::Unknown
    );
    assert_eq!(
        registry.get_op_type("nonexistent", "col"),
        OpType::Unknown
    );
}

#[test]
fn test_registry_multiple_tables() {
    let mut registry = AlgebraicSchemaRegistry::new();

    registry.register(TableAlgebraicSchema::all_additive("counters"));
    registry.register(TableAlgebraicSchema::all_max("timestamps"));

    assert_eq!(
        registry.get_op_type("counters", "any"),
        OpType::AbelianAdd
    );
    assert_eq!(
        registry.get_op_type("timestamps", "any"),
        OpType::SemilatticeMax
    );
}

#[test]
fn test_registry_unregister() {
    let mut registry = AlgebraicSchemaRegistry::new();
    registry.register(TableAlgebraicSchema::new("test"));

    assert!(registry.has_table("test"));

    let removed = registry.unregister("test");
    assert!(removed.is_some());
    assert!(!registry.has_table("test"));
}

#[test]
fn test_registry_tables() {
    let mut registry = AlgebraicSchemaRegistry::new();
    registry.register(TableAlgebraicSchema::new("a"));
    registry.register(TableAlgebraicSchema::new("b"));
    registry.register(TableAlgebraicSchema::new("c"));

    let tables = registry.tables();
    assert_eq!(tables.len(), 3);
    assert!(tables.contains(&"a".to_string()));
    assert!(tables.contains(&"b".to_string()));
    assert!(tables.contains(&"c".to_string()));
}

#[test]
fn column_identity_follows_the_operation() {
    assert_eq!(ColumnAlgebraic::new("n", OpType::AbelianMultiply).identity, Some(AlgebraicValue::Integer(1)));
    assert_eq!(ColumnAlgebraic::new("n", OpType::SemilatticeMax).identity, None);
    assert_eq!(ColumnAlgebraic::new("n", OpType::GenericOverwrite).identity, None);
    let col = ColumnAlgebraic::new("n", OpType::SemilatticeMax).with_identity(AlgebraicValue::Integer(-5));
    assert_eq!(col.identity, Some(AlgebraicValue::Integer(-5)));
    assert!(!ColumnAlgebraic::new("n", OpType::Unknown).is_conflict_free());
}

#[test]
fn schema_lists_are_sorted_by_column() {
    let mut schema = TableAlgebraicSchema::new("t").with_description("a table");
    assert_eq!(schema.description, Some("a table".to_string()));
    schema.add_column("zeta", OpType::AbelianAdd);
    schema.add_column("alpha", OpType::GenericOverwrite);
    schema.add_column_annotation(ColumnAlgebraic::new("mid", OpType::SemilatticeUnion));
    assert_eq!(schema.annotated_columns(), vec!["alpha".to_string(), "mid".to_string(), "zeta".to_string()]);
    assert_eq!(schema.conflict_free_columns(), vec!["mid".to_string(), "zeta".to_string()]);
    assert_eq!(schema.conflicting_columns(), vec!["alpha".to_string()]);
    assert_eq!(schema.get_column("mid").unwrap().op_type, OpType::SemilatticeUnion);
    assert!(schema.get_column("none").is_none());
    schema.add_column("alpha", OpType::SemilatticeMin);
    assert_eq!(schema.get_op_type("alpha"), OpType::SemilatticeMin);
    assert_eq!(schema.annotated_columns().len(), 3);
}

#[test]
fn schema_without_default_is_not_fully_conflict_free() {
    let mut schema = TableAlgebraicSchema::new("t");
    schema.add_column("a", OpType::AbelianAdd);
    assert!(!schema.is_fully_conflict_free());
    assert!(schema.can_auto_merge(&[]));
    assert!(!schema.can_auto_merge(&["other"]));
}

#[test]
fn registry_replaces_and_clears() {
    let mut registry = AlgebraicSchemaRegistry::new();
    registry.register(TableAlgebraicSchema::all_additive("t"));
    registry.register(TableAlgebraicSchema::all_max("t"));
    assert_eq!(registry.tables(), vec!["t".to_string()]);
    assert_eq!(registry.get_op_type("t", "c"), OpType::SemilatticeMax);
    assert_eq!(registry.get("t").unwrap().table, "t");
    assert!(registry.unregister("missing").is_none());
    registry.clear();
    assert!(registry.tables().is_empty());
    assert!(registry.get("t").is_none());
}
