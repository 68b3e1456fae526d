use rhizo_core::branch::{Branch, BranchError, BranchManager};
use rhizo_core::strmap::StrMap;

#[test]
fn test_new_creates_main_branch() {
    let mut manager = BranchManager::new();

    let branches = manager.list().unwrap();
    assert!(branches.contains(&"main".to_string()));

    let main = manager.get("main").unwrap();
    assert_eq!(main.name, "main");
    assert!(main.head.is_empty());
}

#[test]
fn test_create_branch() {
    let mut manager = BranchManager::new();

    // Add a table to main
    manager.update_head("main", "users", 1).unwrap();

    // Create feature branch
    let feature = manager
        .create("feature/test", Some("main"), Some("Test branch"))
        .unwrap();

    assert_eq!(feature.name, "feature/test");
    assert_eq!(feature.get_table_version("users"), Some(1));
    assert_eq!(feature.parent_branch, Some("main".to_string()));
    assert_eq!(feature.description, Some("Test branch".to_string()));
}

#[test]
fn test_create_branch_already_exists() {
    let mut manager = BranchManager::new();

    manager.create("feature", None, None).unwrap();
    let result = manager.create("feature", None, None);

    assert!(matches!(result, Err(BranchError::BranchAlreadyExists(_))));
}

#[test]
fn test_branch_not_found() {
    let mut manager = BranchManager::new();

    let result = manager.get("nonexistent");
    assert!(matches!(result, Err(BranchError::BranchNotFound(_))));
}

#[test]
fn test_list_branches() {
    let mut manager = BranchManager::new();

    manager.create("alpha", None, None).unwrap();
    manager.create("beta", None, None).unwrap();
    manager.create("feature/gamma", None, None).unwrap();

    let branches = manager.list().unwrap();
    assert!(branches.contains(&"main".to_string()));
    assert!(branches.contains(&"alpha".to_string()));
    assert!(branches.contains(&"beta".to_string()));
    assert!(branches.contains(&"feature/gamma".to_string()));
}

#[test]
fn test_delete_branch() {
    let mut manager = BranchManager::new();

    manager.create("feature", None, None).unwrap();
    assert!(manager.list().unwrap().contains(&"feature".to_string()));

    manager.delete("feature").unwrap();
    assert!(!manager.list().unwrap().contains(&"feature".to_string()));
}

#[test]
fn test_cannot_delete_default_branch() {
    let mut manager = BranchManager::new();

    let result = manager.delete("main");
    assert!(matches!(result, Err(BranchError::CannotDeleteDefault(_))));
}

#[test]
fn test_update_head() {
    let mut manager = BranchManager::new();

    manager.update_head("main", "users", 1).unwrap();
    manager.update_head("main", "users", 2).unwrap();
    manager.update_head("main", "orders", 1).unwrap();

    let main = manager.get("main").unwrap();
    assert_eq!(main.get_table_version("users"), Some(2));
    assert_eq!(main.get_table_version("orders"), Some(1));
}

#[test]
fn test_diff_branches() {
    let mut manager = BranchManager::new();

    // Setup main with users v1
    manager.update_head("main", "users", 1).unwrap();

    // Create feature and update users to v2
    manager.create("feature", Some("main"), None).unwrap();
    manager.update_head("feature", "users", 2).unwrap();
    manager.update_head("feature", "orders", 1).unwrap();

    let diff = manager.diff("feature", "main").unwrap();

    // With three-way merge: only feature changed users (source-only), not a conflict
    assert!(diff.source_only_changes.contains(&("users".to_string(), 2, 1)));
    assert!(diff.added_in_source.contains(&("orders".to_string(), 1)));
    assert!(!diff.has_conflicts); // source-only change, not a true conflict
}

#[test]
fn test_fast_forward_merge() {
    let mut manager = BranchManager::new();

    // Setup main with users v1
    manager.update_head("main", "users", 1).unwrap();

    // Create feature and add orders (no conflict with main)
    manager.create("feature", Some("main"), None).unwrap();
    manager.update_head("feature", "orders", 1).unwrap();

    // Should be able to fast-forward
    assert!(manager.can_fast_forward("feature", "main").unwrap());

    manager.merge_fast_forward("feature", "main").unwrap();

    // Main should now have orders
    let main = manager.get("main").unwrap();
    assert_eq!(main.get_table_version("users"), Some(1));
    assert_eq!(main.get_table_version("orders"), Some(1));
}

#[test]
fn test_cannot_fast_forward_with_conflicts() {
    let mut manager = BranchManager::new();

    // Setup main with users v1
    manager.update_head("main", "users", 1).unwrap();

    // Create feature and update users to v2
    manager.create("feature", Some("main"), None).unwrap();
    manager.update_head("feature", "users", 2).unwrap();

    // Also update users on main to v3 (divergence!)
    manager.update_head("main", "users", 3).unwrap();

    // Should NOT be able to fast-forward (true conflict — both changed users)
    assert!(!manager.can_fast_forward("feature", "main").unwrap());

    let result = manager.merge_fast_forward("feature", "main");
    assert!(matches!(result, Err(BranchError::MergeConflict(_))));
}

#[test]
fn test_three_way_auto_merge() {
    // Three-way merge: source changes users, target changes orders
    // Both should be auto-resolved without conflict
    let mut manager = BranchManager::new();

    // Setup main with users=1 and orders=1
    manager.update_head("main", "users", 1).unwrap();
    manager.update_head("main", "orders", 1).unwrap();

    // Create feature branch (fork point: users=1, orders=1)
    manager.create("feature", Some("main"), None).unwrap();

    // Feature changes users to v2
    manager.update_head("feature", "users", 2).unwrap();

    // Main changes orders to v2 (no conflict with feature's changes)
    manager.update_head("main", "orders", 2).unwrap();

    // Three-way merge should succeed
    assert!(manager.can_fast_forward("feature", "main").unwrap());
    manager.merge_fast_forward("feature", "main").unwrap();

    // After merge: main should have users=2 (from feature) and orders=2 (kept)
    let main = manager.get("main").unwrap();
    assert_eq!(main.get_table_version("users"), Some(2));
    assert_eq!(main.get_table_version("orders"), Some(2));
}

#[test]
fn test_three_way_true_conflict_in_manager() {
    // Both branches change the same table — true conflict
    let mut manager = BranchManager::new();

    manager.update_head("main", "users", 1).unwrap();

    // Create feature (fork point: users=1)
    manager.create("feature", Some("main"), None).unwrap();

    // Both change users
    manager.update_head("feature", "users", 2).unwrap();
    manager.update_head("main", "users", 3).unwrap();

    // Should fail — true conflict
    assert!(!manager.can_fast_forward("feature", "main").unwrap());
    let result = manager.merge_fast_forward("feature", "main");
    assert!(matches!(result, Err(BranchError::MergeConflict(_))));
}

// ============ No-fork-point merge safety tests ============

#[test]
fn test_no_fork_point_merge_preserves_target_only_tables() {
    // Bug: no-fork-point fallback overwrote all source heads onto target,
    // destroying tables that only existed on target.
    let mut manager = BranchManager::new();

    // Main has users=3 and orders=5
    manager.update_head("main", "users", 3).unwrap();
    manager.update_head("main", "orders", 5).unwrap();

    // Create a root branch (no fork point) with only users=1
    let mut legacy = Branch::new("legacy", StrMap::new());
    legacy.set_table_version("users", 1);
    assert!(legacy.fork_point.is_none());
    manager.save_branch(&legacy).unwrap();

    // Merge legacy into main — should NOT destroy orders
    manager.merge_fast_forward("legacy", "main").unwrap();

    let main = manager.get("main").unwrap();
    // orders must still be v5 (target-only, never touched by source)
    assert_eq!(main.get_table_version("orders"), Some(5));
    // users should stay v3 (target has higher version than source's v1)
    assert_eq!(main.get_table_version("users"), Some(3));
}

#[test]
fn test_no_fork_point_merge_applies_higher_source_version() {
    // When source has a higher version, the merge should apply it.
    let mut manager = BranchManager::new();

    manager.update_head("main", "users", 1).unwrap();

    // Legacy branch with users=5 (higher than main's v1)
    let mut legacy = Branch::new("legacy", StrMap::new());
    legacy.set_table_version("users", 5);
    manager.save_branch(&legacy).unwrap();

    manager.merge_fast_forward("legacy", "main").unwrap();

    let main = manager.get("main").unwrap();
    assert_eq!(main.get_table_version("users"), Some(5));
}

#[test]
fn test_no_fork_point_merge_adds_new_tables() {
    // Source has a table that target doesn't — should be added.
    let mut manager = BranchManager::new();

    manager.update_head("main", "users", 1).unwrap();

    let mut legacy = Branch::new("legacy", StrMap::new());
    legacy.set_table_version("metrics", 3);
    manager.save_branch(&legacy).unwrap();

    manager.merge_fast_forward("legacy", "main").unwrap();

    let main = manager.get("main").unwrap();
    assert_eq!(main.get_table_version("users"), Some(1)); // preserved
    assert_eq!(main.get_table_version("metrics"), Some(3)); // added
}

#[test]
fn test_no_fork_point_never_regresses_version() {
    // Source has lower versions for multiple tables — none should regress.
    let mut manager = BranchManager::new();

    manager.update_head("main", "users", 10).unwrap();
    manager.update_head("main", "orders", 8).unwrap();
    manager.update_head("main", "products", 5).unwrap();

    let mut legacy = Branch::new("legacy", StrMap::new());
    legacy.set_table_version("users", 3);    // lower
    legacy.set_table_version("orders", 12);   // higher
    legacy.set_table_version("products", 5);  // equal
    manager.save_branch(&legacy).unwrap();

    manager.merge_fast_forward("legacy", "main").unwrap();

    let main = manager.get("main").unwrap();
    assert_eq!(main.get_table_version("users"), Some(10));    // kept (higher)
    assert_eq!(main.get_table_version("orders"), Some(12));   // updated (source higher)
    assert_eq!(main.get_table_version("products"), Some(5));  // unchanged (equal)
}

#[test]
fn test_fork_point_merge_unaffected_by_fix() {
    // Ensure normal three-way merge (with fork point) still works correctly.
    let mut manager = BranchManager::new();

    // Main: users=1, orders=1
    manager.update_head("main", "users", 1).unwrap();
    manager.update_head("main", "orders", 1).unwrap();

    // Feature branch (has fork point from main)
    manager.create("feature", Some("main"), None).unwrap();

    // Feature changes users to v2
    manager.update_head("feature", "users", 2).unwrap();
    // Main changes orders to v2
    manager.update_head("main", "orders", 2).unwrap();

    // Three-way merge should auto-resolve
    manager.merge_fast_forward("feature", "main").unwrap();

    let main = manager.get("main").unwrap();
    assert_eq!(main.get_table_version("users"), Some(2));   // from feature
    assert_eq!(main.get_table_version("orders"), Some(2));  // preserved on main
}

#[test]
fn test_invalid_branch_names() {
    let mut manager = BranchManager::new();

    // Empty name
    assert!(matches!(
        manager.create("", None, None),
        Err(BranchError::InvalidBranchName(_))
    ));

    // Starts with underscore
    assert!(matches!(
        manager.create("_hidden", None, None),
        Err(BranchError::InvalidBranchName(_))
    ));

    // Double slashes
    assert!(matches!(
        manager.create("feature//test", None, None),
        Err(BranchError::InvalidBranchName(_))
    ));

    // Double underscores (would collide with slash encoding on filesystem)
    assert!(matches!(
        manager.create("feature__test", None, None),
        Err(BranchError::InvalidBranchName(_))
    ));

    // Valid names should work
    assert!(manager.create("feature/test-1", None, None).is_ok());
    assert!(manager.create("experiment_v2", None, None).is_ok());
}

#[test]
fn branch_name_rules_and_messages() {
    let cases = [
        ("", "Branch name cannot be empty"),
        ("_x", "Branch name cannot start with underscore"),
        ("a b", "Branch name contains invalid characters: a b"),
        ("a//b", "Branch name cannot contain double slashes"),
        ("a__b", "Branch name cannot contain double underscores (reserved for path encoding)"),
    ];
    for (name, message) in cases {
        match BranchManager::validate_branch_name(name) {
            Err(BranchError::InvalidBranchName(m)) => assert_eq!(m, message),
            other => panic!("expected an invalid name for {:?}, got {:?}", name, other),
        }
    }
    assert!(BranchManager::validate_branch_name("feature/test-1").is_ok());
    assert!(BranchManager::validate_branch_name("a_/b").is_ok());
}

#[test]
fn branch_file_stems_round_trip() {
    assert_eq!(BranchManager::branch_file_stem("feature/test"), "feature__test");
    assert_eq!(BranchManager::branch_name_of_stem("feature__test"), "feature/test");
    for name in ["main", "a/b/c", "x_y/z-1", "experiment_v2"] {
        assert!(BranchManager::validate_branch_name(name).is_ok());
        let stem = BranchManager::branch_file_stem(name);
        assert_eq!(BranchManager::branch_name_of_stem(&stem), name);
    }
}

#[test]
fn branch_errors_have_messages() {
    assert_eq!(BranchError::BranchNotFound("x".to_string()).to_string(), "Branch not found: x");
    assert_eq!(
        BranchError::BranchAlreadyExists("x".to_string()).to_string(),
        "Branch already exists: x"
    );
    assert_eq!(
        BranchError::CannotDeleteDefault("main".to_string()).to_string(),
        "Cannot delete default branch: main"
    );
    assert_eq!(
        BranchError::InvalidBranchName("why".to_string()).to_string(),
        "Invalid branch name: why"
    );
    assert_eq!(
        BranchError::MergeConflict(vec!["t".to_string(), "u".to_string()]).to_string(),
        "Merge conflict on tables: [\"t\", \"u\"]"
    );
    assert_eq!(
        BranchError::CannotFastForward {
            source_branch: "feature".to_string(),
            target_branch: "main".to_string()
        }
        .to_string(),
        "Cannot fast-forward: feature is not ahead of main"
    );
    assert_eq!(BranchError::Io("gone".to_string()).to_string(), "IO error: gone");
    assert_eq!(BranchError::Json("bad".to_string()).to_string(), "JSON error: bad");
}

#[test]
fn create_from_missing_parent_fails() {
    let mut manager = BranchManager::new();
    let result = manager.create("feature", Some("nowhere"), None);
    assert!(matches!(result, Err(BranchError::BranchNotFound(n)) if n == "nowhere"));
    assert_eq!(manager.list().unwrap(), vec!["main".to_string()]);
}

#[test]
fn create_without_parent_forks_the_default_branch() {
    let mut manager = BranchManager::new();
    manager.update_head("main", "users", 4).unwrap();
    let feature = manager.create("feature", None, None).unwrap();
    assert_eq!(feature.parent_branch, Some("main".to_string()));
    assert_eq!(feature.fork_point.as_ref().unwrap().get("users"), Some(&4));
    assert_eq!(manager.get_table_version("feature", "users").unwrap(), Some(4));
    assert_eq!(manager.get_table_version("feature", "none").unwrap(), None);
    assert!(matches!(
        manager.get_table_version("nowhere", "users"),
        Err(BranchError::BranchNotFound(_))
    ));
}

#[test]
fn default_branch_can_be_moved() {
    let mut manager = BranchManager::new();
    assert_eq!(manager.get_default().unwrap(), Some("main".to_string()));
    assert!(matches!(manager.set_default("dev"), Err(BranchError::BranchNotFound(_))));
    manager.create("dev", None, None).unwrap();
    manager.set_default("dev").unwrap();
    assert_eq!(manager.get_default().unwrap(), Some("dev".to_string()));
    assert!(matches!(manager.delete("dev"), Err(BranchError::CannotDeleteDefault(_))));
    manager.delete("main").unwrap();
    assert!(matches!(manager.delete("main"), Err(BranchError::BranchNotFound(_))));
}

#[test]
fn list_is_sorted() {
    let mut manager = BranchManager::new();
    manager.create("zeta", None, None).unwrap();
    manager.create("alpha", None, None).unwrap();
    assert_eq!(
        manager.list().unwrap(),
        vec!["alpha".to_string(), "main".to_string(), "zeta".to_string()]
    );
}

#[test]
fn merge_conflict_names_the_tables() {
    let mut manager = BranchManager::new();
    manager.update_head("main", "users", 1).unwrap();
    manager.update_head("main", "orders", 1).unwrap();
    manager.create("feature", Some("main"), None).unwrap();
    manager.update_head("feature", "users", 2).unwrap();
    manager.update_head("feature", "orders", 2).unwrap();
    manager.update_head("main", "users", 3).unwrap();
    manager.update_head("main", "orders", 3).unwrap();
    match manager.merge_fast_forward("feature", "main") {
        Err(BranchError::MergeConflict(tables)) => {
            assert_eq!(tables, vec!["orders".to_string(), "users".to_string()]);
        }
        other => panic!("expected a merge conflict, got {:?}", other),
    }
    let main = manager.get("main").unwrap();
    assert_eq!(main.get_table_version("users"), Some(3));
    assert_eq!(main.get_table_version("orders"), Some(3));
}

#[test]
fn open_keeps_given_branches() {
    let mut head = StrMap::new();
    head.insert("t".to_string(), 2);
    let manager = BranchManager::open(vec![Branch::new("dev", head)], Some("dev".to_string()));
    assert_eq!(manager.list().unwrap(), vec!["dev".to_string()]);
    assert_eq!(manager.get_default().unwrap(), Some("dev".to_string()));
    let empty = BranchManager::open(vec![], None);
    assert_eq!(empty.list().unwrap(), vec!["main".to_string()]);
}

#[test]
fn branch_names_may_hold_letters_and_digits_of_any_script() {
    assert!(BranchManager::validate_branch_name("größe-2").is_ok());
    assert!(BranchManager::validate_branch_name("ветка/один").is_ok());
    assert!(matches!(
        BranchManager::validate_branch_name("a.b"),
        Err(BranchError::InvalidBranchName(_))
    ));
    assert!(matches!(
        BranchManager::validate_branch_name("a b"),
        Err(BranchError::InvalidBranchName(_))
    ));
}

#[test]
fn a_fresh_branch_differs_from_its_parent_in_nothing() {
    let mut manager = BranchManager::new();
    manager.update_head("main", "users", 3).unwrap();
    manager.update_head("main", "orders", 1).unwrap();
    manager.create("parent", Some("main"), None).unwrap();
    manager.update_head("parent", "users", 4).unwrap();
    manager.create("child", Some("parent"), None).unwrap();

    let diff = manager.diff("child", "parent").unwrap();
    assert!(diff.modified.is_empty());
    assert!(diff.source_only_changes.is_empty());
    assert!(diff.target_only_changes.is_empty());
    assert!(diff.added_in_source.is_empty());
    assert!(diff.added_in_target.is_empty());
    assert!(!diff.has_conflicts);
    assert_eq!(diff.unchanged, vec!["orders".to_string(), "users".to_string()]);
}
