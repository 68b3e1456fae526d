use rhizo_core::transaction::{
    TableWrite, TransactionMode, TransactionRecord, TransactionStatus, WriteGranularity,
};

#[test]
fn test_transaction_record_new() {
    let tx = TransactionRecord::new(1, 1, "main".to_string());
    assert_eq!(tx.tx_id, 1);
    assert_eq!(tx.epoch_id, 1);
    assert_eq!(tx.branch, "main");
    assert!(tx.is_active());
    assert!(!tx.is_committed());
    assert!(tx.writes.is_empty());
    assert!(tx.read_snapshot.is_empty());
}

#[test]
fn test_transaction_status_transitions() {
    let mut tx = TransactionRecord::new(1, 1, "main".to_string());

    assert!(tx.is_active());

    tx.mark_preparing();
    assert!(tx.is_preparing());

    tx.mark_committed();
    assert!(tx.is_committed());
    assert!(tx.committed_at.is_some());
}

#[test]
fn test_transaction_aborted() {
    let mut tx = TransactionRecord::new(1, 1, "main".to_string());

    tx.mark_aborted("Conflict detected");
    assert!(tx.is_aborted());

    if let TransactionStatus::Aborted { reason } = &tx.status {
        assert_eq!(reason, "Conflict detected");
    } else {
        panic!("Expected Aborted status");
    }
}

#[test]
fn test_table_write() {
    let write = TableWrite::new("users", 5, vec!["abc123".to_string()])
        .with_schema_hash("schema_xyz")
        .with_branch("feature/test");

    assert_eq!(write.table_name, "users");
    assert_eq!(write.new_version, 5);
    assert_eq!(write.chunk_hashes, vec!["abc123"]);
    assert_eq!(write.schema_hash, Some("schema_xyz".to_string()));
    assert_eq!(write.branch, Some("feature/test".to_string()));
}

#[test]
fn test_transaction_writes_and_reads() {
    let mut tx = TransactionRecord::new(1, 1, "main".to_string());

    tx.record_read("users", 5);
    tx.record_read("orders", 3);

    let write = TableWrite::new("users", 6, vec!["abc".to_string()]);
    tx.add_write(write);

    assert_eq!(tx.read_snapshot.get("users"), Some(&5));
    assert_eq!(tx.read_snapshot.get("orders"), Some(&3));
    assert_eq!(tx.writes.len(), 1);
    assert_eq!(tx.written_tables(), vec!["users"]);
}

#[test]
fn test_write_granularity_default() {
    let granularity = WriteGranularity::default();
    assert!(matches!(granularity, WriteGranularity::WholeTable));
}

#[test]
fn types_test_transaction_metadata() {
    let mut tx = TransactionRecord::new(1, 1, "main".to_string());

    tx.set_metadata("user", "alice");
    tx.set_metadata("operation", "batch_update");

    assert_eq!(tx.metadata.get("user"), Some(&"alice".to_string()));
    assert_eq!(tx.metadata.get("operation"), Some(&"batch_update".to_string()));
}

#[test]
fn transaction_status_texts_and_mode_default() {
    assert_eq!(TransactionStatus::Active.to_string(), "Active");
    assert_eq!(TransactionStatus::Preparing.to_string(), "Preparing");
    assert_eq!(TransactionStatus::Committed.to_string(), "Committed");
    assert_eq!(
        TransactionStatus::Aborted { reason: "why".to_string() }.to_string(),
        "Aborted(why)"
    );
    assert!(matches!(TransactionMode::default(), TransactionMode::Coordinated));
}

#[test]
fn transaction_record_lists_tables() {
    let mut tx = TransactionRecord::new(3, 2, "dev".to_string());
    assert_eq!(tx.format_version, 1);
    assert_eq!(tx.committed_at, None);
    tx.record_read("zeta", 1);
    tx.record_read("alpha", 2);
    tx.record_read("zeta", 4);
    assert_eq!(tx.read_tables(), vec!["alpha".to_string(), "zeta".to_string()]);
    assert_eq!(tx.read_snapshot.get("zeta"), Some(&4));
    tx.add_write(TableWrite::new("b", 1, vec![]));
    tx.add_write(TableWrite::new("a", 1, vec![]));
    assert_eq!(tx.written_tables(), vec!["b".to_string(), "a".to_string()]);
    let w = TableWrite::new("t", 1, vec![]).with_granularity(WriteGranularity::Partitions(vec!["p".to_string()]));
    assert!(matches!(w.granularity, WriteGranularity::Partitions(_)));
    assert_eq!(w.schema_hash, None);
    assert_eq!(w.branch, None);
}
