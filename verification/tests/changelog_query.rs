use rhizo_core::changelog::{ChangelogEntry, ChangelogQuery, TableChange};

fn make_entry(tx_id: u64, branch: &str, tables: Vec<&str>) -> ChangelogEntry {
    let mut entry = ChangelogEntry::new(tx_id, 1, 1000, branch);
    for table in tables {
        entry.add_change(TableChange::new(table, Some(1), 2, vec![]));
    }
    entry
}

#[test]
fn test_query_builder() {
    let query = ChangelogQuery::new()
        .since_tx(100)
        .for_tables(vec!["users".to_string()])
        .on_branch("main")
        .with_limit(10);

    assert_eq!(query.since_tx_id, Some(100));
    assert_eq!(query.tables, Some(vec!["users".to_string()]));
    assert_eq!(query.branch, Some("main".to_string()));
    assert_eq!(query.limit, Some(10));
}

#[test]
fn test_matches_no_filter() {
    let query = ChangelogQuery::new();
    let entry = make_entry(1, "main", vec!["users"]);
    assert!(query.matches_entry(&entry));
}

#[test]
fn test_matches_branch_filter() {
    let query = ChangelogQuery::new().on_branch("main");

    let main_entry = make_entry(1, "main", vec!["users"]);
    let feature_entry = make_entry(2, "feature", vec!["users"]);

    assert!(query.matches_entry(&main_entry));
    assert!(!query.matches_entry(&feature_entry));
}

#[test]
fn test_matches_table_filter() {
    let query = ChangelogQuery::new()
        .for_tables(vec!["users".to_string(), "orders".to_string()]);

    let users_entry = make_entry(1, "main", vec!["users"]);
    let orders_entry = make_entry(2, "main", vec!["orders"]);
    let audit_entry = make_entry(3, "main", vec!["audit"]);
    let multi_entry = make_entry(4, "main", vec!["users", "audit"]);

    assert!(query.matches_entry(&users_entry));
    assert!(query.matches_entry(&orders_entry));
    assert!(!query.matches_entry(&audit_entry));
    assert!(query.matches_entry(&multi_entry)); // Has users
}

#[test]
fn test_matches_combined_filters() {
    let query = ChangelogQuery::new()
        .on_branch("main")
        .for_tables(vec!["users".to_string()]);

    let match_entry = make_entry(1, "main", vec!["users"]);
    let wrong_branch = make_entry(2, "feature", vec!["users"]);
    let wrong_table = make_entry(3, "main", vec!["orders"]);

    assert!(query.matches_entry(&match_entry));
    assert!(!query.matches_entry(&wrong_branch));
    assert!(!query.matches_entry(&wrong_table));
}

#[test]
fn query_since_time_and_defaults() {
    let query = ChangelogQuery::new();
    assert_eq!(query.since_tx_id, None);
    assert_eq!(query.since_timestamp, None);
    assert_eq!(query.tables, None);
    assert_eq!(query.branch, None);
    assert_eq!(query.limit, None);
    let query = query.since_time(-5);
    assert_eq!(query.since_timestamp, Some(-5));
}

#[test]
fn query_with_empty_table_list_matches_nothing() {
    let query = ChangelogQuery::new().for_tables(vec![]);
    assert!(!query.matches_entry(&make_entry(1, "main", vec!["users"])));
    assert!(!query.matches_entry(&make_entry(1, "main", vec![])));
}
