use rhizo_core::transaction::{
    AdaptiveConflictDetector, Conflict, ConflictDetector, PartitionLevelConflictDetector,
    RowLevelConflictDetector, TableLevelConflictDetector, TableWrite, TransactionRecord,
    WriteGranularity,
};

fn create_tx_with_writes(tx_id: u64, tables: &[&str]) -> TransactionRecord {
    let mut tx = TransactionRecord::new(tx_id, 1, "main".to_string());
    for table in tables {
        tx.add_write(TableWrite::new(*table, 1, vec!["chunk".to_string()]));
    }
    tx
}

#[test]
fn conflict_test_no_conflict_different_tables() {
    let detector = TableLevelConflictDetector::new();

    let tx1 = create_tx_with_writes(1, &["users"]);
    let tx2 = create_tx_with_writes(2, &["orders"]);

    let conflict = detector.detect(&tx1, &tx2);
    assert!(conflict.is_none());
}

#[test]
fn test_conflict_same_table() {
    let detector = TableLevelConflictDetector::new();

    let tx1 = create_tx_with_writes(1, &["users"]);
    let tx2 = create_tx_with_writes(2, &["users"]);

    let conflict = detector.detect(&tx1, &tx2);
    assert!(conflict.is_some());

    let conflict = conflict.unwrap();
    assert_eq!(conflict.tables, vec!["users"]);
    assert_eq!(conflict.tx1_id, 1);
    assert_eq!(conflict.tx2_id, 2);
}

#[test]
fn test_conflict_multiple_tables() {
    let detector = TableLevelConflictDetector::new();

    let tx1 = create_tx_with_writes(1, &["users", "orders"]);
    let tx2 = create_tx_with_writes(2, &["orders", "products"]);

    let conflict = detector.detect(&tx1, &tx2);
    assert!(conflict.is_some());

    let conflict = conflict.unwrap();
    assert!(conflict.involves_table("orders"));
}

#[test]
fn test_no_conflict_empty_writes() {
    let detector = TableLevelConflictDetector::new();

    let tx1 = TransactionRecord::new(1, 1, "main".to_string());
    let tx2 = TransactionRecord::new(2, 1, "main".to_string());

    let conflict = detector.detect(&tx1, &tx2);
    assert!(conflict.is_none());
}

#[test]
fn test_no_conflict_one_empty() {
    let detector = TableLevelConflictDetector::new();

    let tx1 = create_tx_with_writes(1, &["users"]);
    let tx2 = TransactionRecord::new(2, 1, "main".to_string());

    let conflict = detector.detect(&tx1, &tx2);
    assert!(conflict.is_none());
}

#[test]
fn test_partition_conflict_whole_table() {
    let detector = PartitionLevelConflictDetector::new();

    let tx1 = create_tx_with_writes(1, &["users"]);
    let tx2 = create_tx_with_writes(2, &["users"]);

    // Both WholeTable -> should conflict
    let conflict = detector.detect(&tx1, &tx2);
    assert!(conflict.is_some());
}

#[test]
fn test_partition_no_conflict_different_partitions() {
    let detector = PartitionLevelConflictDetector::new();

    let mut tx1 = TransactionRecord::new(1, 1, "main".to_string());
    tx1.add_write(TableWrite::new("users", 1, vec!["chunk".to_string()])
        .with_granularity(WriteGranularity::Partitions(vec!["p1".to_string()])));

    let mut tx2 = TransactionRecord::new(2, 1, "main".to_string());
    tx2.add_write(TableWrite::new("users", 1, vec!["chunk".to_string()])
        .with_granularity(WriteGranularity::Partitions(vec!["p2".to_string()])));

    let conflict = detector.detect(&tx1, &tx2);
    assert!(conflict.is_none());
}

#[test]
fn test_partition_conflict_same_partition() {
    let detector = PartitionLevelConflictDetector::new();

    let mut tx1 = TransactionRecord::new(1, 1, "main".to_string());
    tx1.add_write(TableWrite::new("users", 1, vec!["chunk".to_string()])
        .with_granularity(WriteGranularity::Partitions(vec!["p1".to_string()])));

    let mut tx2 = TransactionRecord::new(2, 1, "main".to_string());
    tx2.add_write(TableWrite::new("users", 1, vec!["chunk".to_string()])
        .with_granularity(WriteGranularity::Partitions(vec!["p1".to_string(), "p2".to_string()])));

    let conflict = detector.detect(&tx1, &tx2);
    assert!(conflict.is_some());
}

#[test]
fn test_adaptive_detector() {
    let detector = AdaptiveConflictDetector::new();

    // Table-level writes
    let tx1 = create_tx_with_writes(1, &["users"]);
    let tx2 = create_tx_with_writes(2, &["users"]);

    let conflict = detector.detect(&tx1, &tx2);
    assert!(conflict.is_some());

    // Different tables
    let tx3 = create_tx_with_writes(3, &["orders"]);
    let conflict = detector.detect(&tx1, &tx3);
    assert!(conflict.is_none());
}

#[test]
fn test_conflict_description() {
    let conflict = Conflict::new(
        vec!["users".to_string(), "orders".to_string()],
        1,
        2,
    );

    assert!(conflict.description.contains("users"));
    assert!(conflict.description.contains("orders"));
    assert!(conflict.description.contains("tx 1"));
    assert!(conflict.description.contains("tx 2"));
}

#[test]
fn test_detector_names() {
    assert_eq!(TableLevelConflictDetector::new().name(), "TableLevelConflictDetector");
    assert_eq!(PartitionLevelConflictDetector::new().name(), "PartitionLevelConflictDetector");
    assert_eq!(RowLevelConflictDetector::new().name(), "RowLevelConflictDetector");
    assert_eq!(AdaptiveConflictDetector::new().name(), "AdaptiveConflictDetector");
}

#[test]
fn conflict_lists_shared_tables_in_first_transaction_order() {
    let detector = TableLevelConflictDetector::new();
    let tx1 = create_tx_with_writes(7, &["c", "a", "b"]);
    let tx2 = create_tx_with_writes(8, &["b", "c", "z"]);
    let conflict = detector.detect(&tx1, &tx2).unwrap();
    let mut tables = conflict.tables.clone();
    tables.sort();
    assert_eq!(tables, vec!["b".to_string(), "c".to_string()]);
    assert_eq!(conflict.tx1_id, 7);
    assert_eq!(conflict.tx2_id, 8);
    assert!(!conflict.involves_table("a"));
}

#[test]
fn conflict_description_text() {
    let conflict = Conflict::new(vec!["users".to_string(), "orders".to_string()], 1, 2);
    assert_eq!(
        conflict.description,
        "Write-write conflict on tables [\"users\", \"orders\"] between tx 1 and tx 2"
    );
}

#[test]
fn partition_detector_whole_table_against_partitions_conflicts() {
    let detector = PartitionLevelConflictDetector::new();
    let tx1 = create_tx_with_writes(1, &["users"]);
    let mut tx2 = TransactionRecord::new(2, 1, "main".to_string());
    tx2.add_write(
        TableWrite::new("users", 1, vec![])
            .with_granularity(WriteGranularity::Partitions(vec!["north".to_string()])),
    );
    assert!(detector.detect(&tx1, &tx2).is_some());
    assert!(detector.detect(&tx2, &tx1).is_some());
}

#[test]
fn row_level_detector_behaves_as_table_level() {
    let detector = RowLevelConflictDetector::new();
    let mut tx1 = TransactionRecord::new(1, 1, "main".to_string());
    tx1.add_write(
        TableWrite::new("users", 1, vec![])
            .with_granularity(WriteGranularity::Partitions(vec!["north".to_string()])),
    );
    let mut tx2 = TransactionRecord::new(2, 1, "main".to_string());
    tx2.add_write(
        TableWrite::new("users", 1, vec![])
            .with_granularity(WriteGranularity::Partitions(vec!["south".to_string()])),
    );
    assert!(detector.detect(&tx1, &tx2).is_some());
    assert!(AdaptiveConflictDetector::new().detect(&tx1, &tx2).is_none());
}
