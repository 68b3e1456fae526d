use rhizo_core::transaction::TransactionError;

#[test]
fn error_test_error_display() {
    let err = TransactionError::TransactionNotFound(42);
    assert_eq!(err.to_string(), "Transaction not found: 42");

    let err = TransactionError::WriteConflict(vec!["users".to_string(), "orders".to_string()]);
    assert!(err.to_string().contains("users"));
    assert!(err.to_string().contains("orders"));
}

#[test]
fn test_snapshot_conflict_display() {
    let err = TransactionError::snapshot_conflict("users", 5, 7);
    let msg = err.to_string();
    assert!(msg.contains("users"));
    assert!(msg.contains("5"));
    assert!(msg.contains("7"));
}

#[test]
fn test_is_conflict() {
    assert!(TransactionError::WriteConflict(vec!["users".to_string()]).is_conflict());
    assert!(TransactionError::snapshot_conflict("users", 1, 2).is_conflict());
    assert!(!TransactionError::TransactionNotFound(1).is_conflict());
}

#[test]
fn test_is_retryable() {
    assert!(TransactionError::WriteConflict(vec!["users".to_string()]).is_retryable());
    assert!(TransactionError::snapshot_conflict("users", 1, 2).is_retryable());
    assert!(TransactionError::Timeout(1, 5000).is_retryable());
    assert!(!TransactionError::TransactionNotFound(1).is_retryable());
    assert!(!TransactionError::AlreadyCommitted(1).is_retryable());
}

#[test]
fn test_error_constructors() {
    let err = TransactionError::catalog_error("Table not found");
    assert!(matches!(err, TransactionError::CatalogError(_)));

    let err = TransactionError::branch_error("Branch not found");
    assert!(matches!(err, TransactionError::BranchError(_)));

    let err = TransactionError::recovery_error("Corrupted log");
    assert!(matches!(err, TransactionError::RecoveryError(_)));
}

#[test]
fn every_transaction_error_has_its_message() {
    let cases: Vec<(TransactionError, &str)> = vec![
        (TransactionError::Io("disk".to_string()), "IO error: disk"),
        (TransactionError::Json("bad".to_string()), "JSON error: bad"),
        (TransactionError::TransactionNotFound(7), "Transaction not found: 7"),
        (TransactionError::TransactionNotActive(7), "Transaction 7 is not active"),
        (TransactionError::AlreadyCommitted(7), "Transaction 7 already committed"),
        (TransactionError::AlreadyAborted(7), "Transaction 7 already aborted"),
        (
            TransactionError::WriteConflict(vec!["a".to_string(), "b".to_string()]),
            "Write-write conflict on tables: [\"a\", \"b\"]",
        ),
        (
            TransactionError::snapshot_conflict("users", 5, 7),
            "Snapshot conflict: table users was modified (read v5, now v7)",
        ),
        (TransactionError::EpochNotActive(3), "Epoch 3 is not active"),
        (TransactionError::EpochNotFound(3), "Epoch 3 not found"),
        (TransactionError::EpochFull(3, 1000), "Epoch 3 is full (max 1000 transactions)"),
        (
            TransactionError::InvalidState { expected: "Active".to_string(), actual: "Committed".to_string() },
            "Invalid transaction state: expected Active, got Committed",
        ),
        (TransactionError::catalog_error("c"), "Catalog error: c"),
        (TransactionError::branch_error("b"), "Branch error: b"),
        (TransactionError::recovery_error("r"), "Recovery error: r"),
        (TransactionError::Timeout(1, 5000), "Transaction 1 timed out after 5000ms"),
        (TransactionError::NestedTransaction, "Nested transactions not supported"),
        (TransactionError::InvalidConfig("x".to_string()), "Invalid configuration: x"),
        (TransactionError::LockError("l".to_string()), "Failed to acquire lock: l"),
        (TransactionError::IntegrityError("i".to_string()), "Integrity error: i"),
    ];
    for (err, text) in cases {
        assert_eq!(err.to_string(), text);
    }
    assert_eq!(
        TransactionError::write_conflict(vec!["t".to_string()]),
        TransactionError::WriteConflict(vec!["t".to_string()])
    );
    assert!(!TransactionError::LockError("l".to_string()).is_conflict());
    assert!(TransactionError::LockError("l".to_string()).is_retryable());
    assert!(!TransactionError::NestedTransaction.is_retryable());
}
