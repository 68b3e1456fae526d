use rhizo_core::branch::{Branch, BranchDiff};
use rhizo_core::strmap::StrMap;

#[test]
fn test_branch_new() {
    let mut head = StrMap::new();
    head.insert("users".to_string(), 1);
    head.insert("orders".to_string(), 2);

    let branch = Branch::new("main", head);

    assert_eq!(branch.name, "main");
    assert_eq!(branch.get_table_version("users"), Some(1));
    assert_eq!(branch.get_table_version("orders"), Some(2));
    assert_eq!(branch.get_table_version("nonexistent"), None);
    assert!(branch.parent_branch.is_none());
}

#[test]
fn test_branch_from_branch() {
    let mut head = StrMap::new();
    head.insert("users".to_string(), 5);
    let main = Branch::new("main", head);

    let feature = Branch::from_branch("feature/test", &main);

    assert_eq!(feature.name, "feature/test");
    assert_eq!(feature.get_table_version("users"), Some(5));
    assert_eq!(feature.parent_branch, Some("main".to_string()));
    // Fork point should snapshot parent's head
    assert!(feature.fork_point.is_some());
    assert_eq!(feature.fork_point.as_ref().unwrap().get("users"), Some(&5));
}

#[test]
fn test_branch_diff_identical() {
    let mut head = StrMap::new();
    head.insert("users".to_string(), 1);

    let branch_a = Branch::new("a", head.clone());
    let branch_b = Branch::new("b", head);

    let diff = BranchDiff::compute(&branch_a, &branch_b);

    assert_eq!(diff.unchanged, vec!["users"]);
    assert!(diff.modified.is_empty());
    assert!(diff.added_in_source.is_empty());
    assert!(diff.added_in_target.is_empty());
    assert!(!diff.has_conflicts);
}

#[test]
fn test_branch_diff_modified_no_base() {
    // Without fork_point, falls back to two-way (all diffs are conflicts)
    let mut head_a = StrMap::new();
    head_a.insert("users".to_string(), 2);

    let mut head_b = StrMap::new();
    head_b.insert("users".to_string(), 1);

    let branch_a = Branch::new("a", head_a);
    let branch_b = Branch::new("b", head_b);

    let diff = BranchDiff::compute(&branch_a, &branch_b);

    assert!(diff.unchanged.is_empty());
    assert_eq!(diff.modified, vec![("users".to_string(), 2, 1)]);
    assert!(diff.has_conflicts);
    assert!(diff.source_only_changes.is_empty());
    assert!(diff.target_only_changes.is_empty());
}

#[test]
fn test_branch_diff_added() {
    let mut head_a = StrMap::new();
    head_a.insert("users".to_string(), 1);
    head_a.insert("orders".to_string(), 1);

    let mut head_b = StrMap::new();
    head_b.insert("users".to_string(), 1);
    head_b.insert("products".to_string(), 1);

    let branch_a = Branch::new("a", head_a);
    let branch_b = Branch::new("b", head_b);

    let diff = BranchDiff::compute(&branch_a, &branch_b);

    assert_eq!(diff.unchanged, vec!["users"]);
    assert_eq!(diff.added_in_source, vec![("orders".to_string(), 1)]);
    assert_eq!(diff.added_in_target, vec![("products".to_string(), 1)]);
    assert!(!diff.has_conflicts);
}

#[test]
fn test_three_way_source_only_change() {
    // Base: users=1, orders=1
    // Source (feature): users=2, orders=1  (changed users)
    // Target (main): users=1, orders=1     (unchanged)
    // Expected: source_only_changes for users, no conflicts
    let mut base = StrMap::new();
    base.insert("users".to_string(), 1);
    base.insert("orders".to_string(), 1);

    let main = Branch::new("main", base.clone());
    let mut feature = Branch::from_branch("feature", &main);
    feature.set_table_version("users", 2);

    let diff = BranchDiff::compute(&feature, &main);

    assert!(!diff.has_conflicts);
    assert!(diff.modified.is_empty());
    assert_eq!(diff.source_only_changes, vec![("users".to_string(), 2, 1)]);
    assert!(diff.target_only_changes.is_empty());
    assert_eq!(diff.unchanged, vec!["orders"]);
}

#[test]
fn test_three_way_target_only_change() {
    // Base: users=1, orders=1
    // Source (feature): users=1, orders=1  (unchanged)
    // Target (main): users=3, orders=1     (changed users)
    // Expected: target_only_changes for users, no conflicts
    let mut base = StrMap::new();
    base.insert("users".to_string(), 1);
    base.insert("orders".to_string(), 1);

    let main = Branch::new("main", base.clone());
    let feature = Branch::from_branch("feature", &main);

    // Simulate main advancing after fork
    let mut main_advanced = main;
    main_advanced.set_table_version("users", 3);

    let diff = BranchDiff::compute(&feature, &main_advanced);

    assert!(!diff.has_conflicts);
    assert!(diff.modified.is_empty());
    assert!(diff.source_only_changes.is_empty());
    assert_eq!(diff.target_only_changes, vec![("users".to_string(), 1, 3)]);
    assert_eq!(diff.unchanged, vec!["orders"]);
}

#[test]
fn test_three_way_true_conflict() {
    // Base: users=1
    // Source: users=2 (feature changed it)
    // Target: users=3 (main also changed it)
    // Expected: true conflict
    let mut base = StrMap::new();
    base.insert("users".to_string(), 1);

    let main = Branch::new("main", base.clone());
    let mut feature = Branch::from_branch("feature", &main);
    feature.set_table_version("users", 2);

    let mut main_advanced = main;
    main_advanced.set_table_version("users", 3);

    let diff = BranchDiff::compute(&feature, &main_advanced);

    assert!(diff.has_conflicts);
    assert_eq!(diff.modified, vec![("users".to_string(), 2, 3)]);
    assert!(diff.source_only_changes.is_empty());
    assert!(diff.target_only_changes.is_empty());
}

#[test]
fn test_three_way_mixed_changes() {
    // Base: users=1, orders=1, products=1
    // Source: users=2, orders=1, products=3 (changed users and products)
    // Target: users=1, orders=2, products=4 (changed orders and products)
    // Expected: users=source_only, orders=target_only, products=conflict
    let mut base = StrMap::new();
    base.insert("users".to_string(), 1);
    base.insert("orders".to_string(), 1);
    base.insert("products".to_string(), 1);

    let main = Branch::new("main", base.clone());
    let mut feature = Branch::from_branch("feature", &main);
    feature.set_table_version("users", 2);
    feature.set_table_version("products", 3);

    let mut main_advanced = main;
    main_advanced.set_table_version("orders", 2);
    main_advanced.set_table_version("products", 4);

    let diff = BranchDiff::compute(&feature, &main_advanced);

    assert!(diff.has_conflicts);
    assert_eq!(diff.modified, vec![("products".to_string(), 3, 4)]);
    assert_eq!(diff.source_only_changes, vec![("users".to_string(), 2, 1)]);
    assert_eq!(diff.target_only_changes, vec![("orders".to_string(), 1, 2)]);
}

#[test]
fn test_three_way_can_auto_merge() {
    // No true conflicts — only source-only and target-only changes
    let mut base = StrMap::new();
    base.insert("users".to_string(), 1);
    base.insert("orders".to_string(), 1);

    let main = Branch::new("main", base.clone());
    let mut feature = Branch::from_branch("feature", &main);
    feature.set_table_version("users", 2);

    let mut main_advanced = main;
    main_advanced.set_table_version("orders", 2);

    let diff = BranchDiff::compute(&feature, &main_advanced);

    assert!(diff.can_auto_merge());
    assert!(!diff.has_conflicts);
    assert_eq!(diff.source_only_changes.len(), 1);
    assert_eq!(diff.target_only_changes.len(), 1);
}

#[test]
fn diff_lists_are_sorted_by_table() {
    let mut head_a = StrMap::new();
    head_a.insert("zebra".to_string(), 1);
    head_a.insert("apple".to_string(), 1);
    head_a.insert("mango".to_string(), 7);
    let mut head_b = StrMap::new();
    head_b.insert("zebra".to_string(), 1);
    head_b.insert("apple".to_string(), 1);
    head_b.insert("mango".to_string(), 9);
    head_b.insert("berry".to_string(), 2);
    head_b.insert("aaa".to_string(), 3);

    let diff = BranchDiff::compute(&Branch::new("a", head_a), &Branch::new("b", head_b));
    assert_eq!(diff.source_branch, "a");
    assert_eq!(diff.target_branch, "b");
    assert_eq!(diff.unchanged, vec!["apple", "zebra"]);
    assert_eq!(diff.modified, vec![("mango".to_string(), 7, 9)]);
    assert_eq!(diff.added_in_target, vec![("aaa".to_string(), 3), ("berry".to_string(), 2)]);
    assert!(diff.added_in_source.is_empty());
    assert!(diff.has_conflicts);
    assert!(!diff.can_auto_merge());
    assert_eq!(diff.conflicting_tables(), vec!["mango".to_string()]);
}

#[test]
fn fresh_branch_has_an_empty_diff() {
    let mut head = StrMap::new();
    head.insert("users".to_string(), 4);
    head.insert("orders".to_string(), 2);
    let main = Branch::new("main", head);
    let feature = Branch::from_branch("feature", &main);

    let diff = BranchDiff::compute(&feature, &main);
    assert_eq!(diff.unchanged, vec!["orders", "users"]);
    assert!(diff.modified.is_empty());
    assert!(diff.source_only_changes.is_empty());
    assert!(diff.target_only_changes.is_empty());
    assert!(diff.added_in_source.is_empty());
    assert!(diff.added_in_target.is_empty());
    assert!(!diff.has_conflicts);
}

#[test]
fn three_way_table_missing_from_base_counts_as_version_zero() {
    let mut base = StrMap::new();
    base.insert("users".to_string(), 1);
    let mut source_head = StrMap::new();
    source_head.insert("users".to_string(), 1);
    source_head.insert("fresh".to_string(), 2);
    let mut target_head = StrMap::new();
    target_head.insert("users".to_string(), 1);
    target_head.insert("fresh".to_string(), 3);

    let source = Branch::new("s", source_head);
    let target = Branch::new("t", target_head);
    let diff = BranchDiff::compute_with_base(&source, &target, Some(&base));
    assert_eq!(diff.modified, vec![("fresh".to_string(), 2, 3)]);
    assert!(diff.has_conflicts);
}

#[test]
fn both_sides_changed_to_the_same_version_is_unchanged() {
    let mut base = StrMap::new();
    base.insert("users".to_string(), 1);
    let main = Branch::new("main", base);
    let mut feature = Branch::from_branch("feature", &main);
    feature.set_table_version("users", 5);
    let mut advanced = main;
    advanced.set_table_version("users", 5);
    let diff = BranchDiff::compute(&feature, &advanced);
    assert_eq!(diff.unchanged, vec!["users"]);
    assert!(!diff.has_conflicts);
}

#[test]
fn branch_description_and_head_updates() {
    let mut b = Branch::new("main", StrMap::new()).with_description("the trunk");
    assert_eq!(b.description, Some("the trunk".to_string()));
    assert!(b.fork_point.is_none());
    b.set_table_version("t", 1);
    b.set_table_version("t", 9);
    assert_eq!(b.get_table_version("t"), Some(9));
    assert_eq!(b.head.len(), 1);
}
