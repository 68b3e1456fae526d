use rhizo_core::algebraic::{AlgebraicSchemaRegistry, OpType, TableAlgebraicSchema};
use rhizo_core::branch::{Branch, BranchDiff, MergeAnalyzer, MergeOutcome};
use rhizo_core::strmap::StrMap;

fn create_test_registry() -> AlgebraicSchemaRegistry {
    let mut registry = AlgebraicSchemaRegistry::new();

    // Table with all conflict-free columns
    let mut counters = TableAlgebraicSchema::new("counters");
    counters.set_default(OpType::AbelianAdd);
    registry.register(counters);

    // Table with mixed columns
    let mut users = TableAlgebraicSchema::new("users");
    users.add_column("login_count", OpType::AbelianAdd);
    users.add_column("last_login", OpType::SemilatticeMax);
    users.add_column("name", OpType::GenericOverwrite);
    registry.register(users);

    // Table with all conflict columns
    let mut settings = TableAlgebraicSchema::new("settings");
    settings.set_default(OpType::GenericOverwrite);
    registry.register(settings);

    registry
}

fn create_test_diff() -> BranchDiff {
    let mut source_head = StrMap::new();
    source_head.insert("counters".to_string(), 2);
    source_head.insert("users".to_string(), 2);
    source_head.insert("settings".to_string(), 2);
    source_head.insert("new_table".to_string(), 1);
    let source = Branch::new("feature", source_head);

    let mut target_head = StrMap::new();
    target_head.insert("counters".to_string(), 1);
    target_head.insert("users".to_string(), 1);
    target_head.insert("settings".to_string(), 1);
    target_head.insert("other_table".to_string(), 1);
    let target = Branch::new("main", target_head);

    BranchDiff::compute(&source, &target)
}

#[test]
fn test_merge_analysis_counters_auto_mergeable() {
    let registry = create_test_registry();
    let analyzer = MergeAnalyzer::new(&registry);
    let diff = create_test_diff();

    let analysis = analyzer.analyze(&diff);

    assert!(analysis.auto_mergeable.contains(&"counters".to_string()));
    assert!(!analysis.conflicting.contains(&"counters".to_string()));
}

#[test]
fn test_merge_analysis_users_has_conflicts() {
    let registry = create_test_registry();
    let analyzer = MergeAnalyzer::new(&registry);
    let diff = create_test_diff();

    let analysis = analyzer.analyze(&diff);

    // users has mixed columns, so not fully conflict-free
    assert!(!analysis.auto_mergeable.contains(&"users".to_string()));
    assert!(analysis.conflicting.contains(&"users".to_string()));
}

#[test]
fn test_merge_analysis_settings_conflicts() {
    let registry = create_test_registry();
    let analyzer = MergeAnalyzer::new(&registry);
    let diff = create_test_diff();

    let analysis = analyzer.analyze(&diff);

    assert!(!analysis.auto_mergeable.contains(&"settings".to_string()));
    assert!(analysis.conflicting.contains(&"settings".to_string()));
}

#[test]
fn test_merge_analysis_source_only() {
    let registry = create_test_registry();
    let analyzer = MergeAnalyzer::new(&registry);
    let diff = create_test_diff();

    let analysis = analyzer.analyze(&diff);

    assert!(analysis.source_only.contains(&"new_table".to_string()));
}

#[test]
fn test_merge_analysis_target_only() {
    let registry = create_test_registry();
    let analyzer = MergeAnalyzer::new(&registry);
    let diff = create_test_diff();

    let analysis = analyzer.analyze(&diff);

    assert!(analysis.target_only.contains(&"other_table".to_string()));
}

#[test]
fn test_merge_analysis_can_merge() {
    let registry = create_test_registry();
    let analyzer = MergeAnalyzer::new(&registry);
    let diff = create_test_diff();

    let analysis = analyzer.analyze(&diff);

    // Cannot merge because users and settings conflict
    assert!(!analysis.can_merge());
}

#[test]
fn test_merge_analysis_columns() {
    let registry = create_test_registry();
    let analyzer = MergeAnalyzer::new(&registry);
    let diff = create_test_diff();

    let columns = analyzer.analyze_columns(&diff);

    // Check users columns
    let (auto_cols, conflict_cols) = columns.get("users").unwrap();
    assert!(auto_cols.contains(&"login_count".to_string()));
    assert!(auto_cols.contains(&"last_login".to_string()));
    assert!(conflict_cols.contains(&"name".to_string()));
}

#[test]
fn merge_test_merge_outcome_success() {
    let outcome = MergeOutcome::success(
        "feature",
        "main",
        vec!["table1".to_string()],
        vec!["counters".to_string()],
    );

    assert!(outcome.success);
    assert!(outcome.conflicts.is_empty());
    assert_eq!(outcome.fast_forwarded, vec!["table1"]);
    assert_eq!(outcome.algebraically_merged, vec!["counters"]);
}

#[test]
fn merge_test_merge_outcome_conflict() {
    let outcome = MergeOutcome::conflict(
        "feature",
        "main",
        vec!["users".to_string()],
    );

    assert!(!outcome.success);
    assert_eq!(outcome.conflicts, vec!["users"]);
}

#[test]
fn test_unregistered_table_cannot_merge() {
    let registry = AlgebraicSchemaRegistry::new(); // Empty registry
    let analyzer = MergeAnalyzer::new(&registry);

    assert!(!analyzer.can_auto_merge_table("any_table"));
}

#[test]
fn merge_analysis_lists_tables_to_merge() {
    let registry = create_test_registry();
    let analyzer = MergeAnalyzer::new(&registry);
    let diff = create_test_diff();
    let analysis = analyzer.analyze(&diff);

    assert_eq!(analysis.auto_mergeable, vec!["counters".to_string()]);
    assert_eq!(analysis.conflicting, vec!["settings".to_string(), "users".to_string()]);
    assert_eq!(analysis.source_only, vec!["new_table".to_string()]);
    assert_eq!(analysis.target_only, vec!["other_table".to_string()]);
    assert!(analysis.unchanged.is_empty());
    assert_eq!(
        analysis.tables_to_merge(),
        vec!["counters".to_string(), "new_table".to_string(), "other_table".to_string()]
    );
}

#[test]
fn merge_analysis_of_unknown_table_columns_is_empty() {
    let registry = create_test_registry();
    let analyzer = MergeAnalyzer::new(&registry);
    let (auto_cols, conflict_cols) = analyzer.analyze_table_columns("nowhere");
    assert!(auto_cols.is_empty());
    assert!(conflict_cols.is_empty());
    let (auto_cols, conflict_cols) = analyzer.analyze_table_columns("users");
    assert_eq!(auto_cols, vec!["last_login".to_string(), "login_count".to_string()]);
    assert_eq!(conflict_cols, vec!["name".to_string()]);
    assert!(analyzer.can_auto_merge_table("counters"));
    assert!(!analyzer.can_auto_merge_table("users"));
}
