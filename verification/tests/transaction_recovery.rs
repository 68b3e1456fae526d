use rhizo_core::transaction::recovery::verify_consistency;
use rhizo_core::transaction::{
    RecoveryDecision, RecoveryManager, RecoveryReport, TransactionLog, TransactionRecord,
    TransactionStatus,
};

fn create_test_log() -> TransactionLog {
    TransactionLog::new("transactions")
}

#[test]
fn test_recovery_empty() {
    let mut log = create_test_log();
    let recovery = RecoveryManager::new(&log);

    let report = recovery.recover().unwrap();

    assert!(report.is_clean());
    assert_eq!(report.epochs_scanned, 0);
    assert_eq!(report.transactions_scanned, 0);
}

#[test]
fn test_recovery_with_committed_transactions() {
    let mut log = create_test_log();

    // Create epoch and committed transaction
    log.create_epoch(1).unwrap();
    let mut tx = TransactionRecord::new(1, 1, "main".to_string());
    tx.mark_committed();
    log.write_transaction(&tx).unwrap();
    log.mark_epoch_committed(1).unwrap();

    let recovery = RecoveryManager::new(&log);
    let report = recovery.recover().unwrap();

    assert!(report.is_clean());
    assert_eq!(report.last_committed_epoch, Some(1));
    assert_eq!(report.already_committed, vec![1]);
}

#[test]
fn test_recovery_with_pending_transactions() {
    let mut log = create_test_log();

    // Create epoch with pending transaction
    log.create_epoch(1).unwrap();
    let tx = TransactionRecord::new(1, 1, "main".to_string());
    log.write_transaction(&tx).unwrap();

    let recovery = RecoveryManager::new(&log);
    let report = recovery.recover().unwrap();

    assert!(report.is_clean());
    assert_eq!(report.rolled_back, vec![1]);
}

#[test]
fn test_recovery_with_aborted_transactions() {
    let mut log = create_test_log();

    // Create epoch with aborted transaction
    log.create_epoch(1).unwrap();
    let mut tx = TransactionRecord::new(1, 1, "main".to_string());
    tx.mark_aborted("Test abort");
    log.write_transaction(&tx).unwrap();

    let recovery = RecoveryManager::new(&log);
    let report = recovery.recover().unwrap();

    assert!(report.is_clean());
    assert_eq!(report.already_aborted, vec![1]);
}

#[test]
fn test_recovery_decision() {
    let mut log = create_test_log();
    let recovery = RecoveryManager::new(&log);

    // Active transaction
    let tx1 = TransactionRecord::new(1, 1, "main".to_string());
    assert_eq!(recovery.decide(&tx1), RecoveryDecision::Rollback);

    // Committed transaction
    let mut tx2 = TransactionRecord::new(2, 1, "main".to_string());
    tx2.mark_committed();
    assert_eq!(recovery.decide(&tx2), RecoveryDecision::Keep);

    // Aborted transaction
    let mut tx3 = TransactionRecord::new(3, 1, "main".to_string());
    tx3.mark_aborted("Test");
    assert_eq!(recovery.decide(&tx3), RecoveryDecision::AlreadyAborted);

    // Preparing transaction
    let mut tx4 = TransactionRecord::new(4, 1, "main".to_string());
    tx4.mark_preparing();
    assert_eq!(recovery.decide(&tx4), RecoveryDecision::Rollback);
}

#[test]
fn test_recovery_and_apply() {
    let mut log = create_test_log();

    // Create epoch with pending transaction
    log.create_epoch(1).unwrap();
    let tx = TransactionRecord::new(1, 1, "main".to_string());
    log.write_transaction(&tx).unwrap();

    let report = RecoveryManager::recover_and_apply(&mut log).unwrap();

    assert!(report.is_clean());
    assert_eq!(report.rolled_back, vec![1]);

    // Verify transaction is now aborted
    let tx = log.read_transaction(1).unwrap();
    assert!(tx.is_aborted());
}

#[test]
fn test_verify_consistency_clean() {
    let mut log = create_test_log();

    // Create consistent state
    let mut meta = log.create_epoch(1).unwrap();
    meta.add_transaction(1);
    log.write_epoch_metadata(&meta).unwrap();

    let tx = TransactionRecord::new(1, 1, "main".to_string());
    log.write_transaction(&tx).unwrap();

    let issues = verify_consistency(&log).unwrap();
    assert!(issues.is_empty());
}

#[test]
fn test_verify_consistency_mismatch() {
    let mut log = create_test_log();

    // Create inconsistent state (meta has tx, but file doesn't exist for another)
    let mut meta = log.create_epoch(1).unwrap();
    meta.add_transaction(1);
    meta.add_transaction(2); // Claim tx 2 exists but don't create file
    log.write_epoch_metadata(&meta).unwrap();

    let tx = TransactionRecord::new(1, 1, "main".to_string());
    log.write_transaction(&tx).unwrap();

    let issues = verify_consistency(&log).unwrap();
    assert!(!issues.is_empty());
    assert!(issues[0].contains("mismatch"));
}

#[test]
fn test_recovery_report() {
    let mut report = RecoveryReport::new();

    assert!(report.is_clean());
    assert!(!report.has_warnings());
    assert_eq!(report.total_affected(), 0);

    report.warn("Test warning");
    assert!(report.has_warnings());

    report.error("Test error");
    assert!(!report.is_clean());

    report.replayed.push(1);
    report.rolled_back.push(2);
    assert_eq!(report.total_affected(), 2);
}

#[test]
fn test_multiple_epochs() {
    let mut log = create_test_log();

    // Create multiple epochs
    log.create_epoch(1).unwrap();
    let mut tx1 = TransactionRecord::new(1, 1, "main".to_string());
    tx1.mark_committed();
    log.write_transaction(&tx1).unwrap();
    log.mark_epoch_committed(1).unwrap();

    log.create_epoch(2).unwrap();
    let tx2 = TransactionRecord::new(2, 2, "main".to_string());
    log.write_transaction(&tx2).unwrap();
    // Epoch 2 not committed

    let recovery = RecoveryManager::new(&log);
    let report = recovery.recover().unwrap();

    assert_eq!(report.last_committed_epoch, Some(1));
    assert_eq!(report.already_committed, vec![1]);
    assert_eq!(report.rolled_back, vec![2]);
}

#[test]
fn recovery_report_counts_every_list() {
    let mut log = create_test_log();
    log.create_epoch(1).unwrap();
    log.create_epoch(2).unwrap();
    let mut committed = TransactionRecord::new(1, 1, "main".to_string());
    committed.mark_committed();
    log.write_transaction(&committed).unwrap();
    let mut preparing = TransactionRecord::new(2, 1, "main".to_string());
    preparing.mark_preparing();
    log.write_transaction(&preparing).unwrap();
    let mut aborted = TransactionRecord::new(3, 2, "main".to_string());
    aborted.mark_aborted("no");
    log.write_transaction(&aborted).unwrap();
    log.mark_epoch_committed(2).unwrap();

    let report = RecoveryManager::new(&log).recover().unwrap();
    assert_eq!(report.epochs_scanned, 2);
    assert_eq!(report.transactions_scanned, 3);
    assert_eq!(report.already_committed, vec![1]);
    assert_eq!(report.rolled_back, vec![2]);
    assert_eq!(report.already_aborted, vec![3]);
    assert!(report.replayed.is_empty());
    assert_eq!(report.last_committed_epoch, Some(2));
    assert_eq!(report.total_affected(), 1);
}

#[test]
fn recovery_and_apply_twice_rolls_back_once() {
    let mut log = create_test_log();
    log.create_epoch(1).unwrap();
    log.write_transaction(&TransactionRecord::new(1, 1, "main".to_string())).unwrap();
    let mut done = TransactionRecord::new(2, 1, "main".to_string());
    done.mark_committed();
    log.write_transaction(&done).unwrap();

    let first = RecoveryManager::recover_and_apply(&mut log).unwrap();
    assert_eq!(first.rolled_back, vec![1]);
    let record = log.read_transaction(1).unwrap();
    assert!(record.is_aborted());
    assert_eq!(
        record.status,
        TransactionStatus::Aborted { reason: "Recovery: pending transaction rolled back".to_string() }
    );
    assert!(log.read_transaction(2).unwrap().is_committed());

    let second = RecoveryManager::recover_and_apply(&mut log).unwrap();
    assert!(second.rolled_back.is_empty());
    assert_eq!(second.already_aborted, vec![1]);
    assert_eq!(second.already_committed, vec![2]);
    assert!(log.read_transaction(1).unwrap().is_aborted());
}

#[test]
fn verify_consistency_reports_each_kind_of_issue() {
    let mut log = create_test_log();
    let mut meta = log.create_epoch(1).unwrap();
    meta.add_transaction(1);
    meta.add_transaction(2);
    log.write_epoch_metadata(&meta).unwrap();
    log.write_transaction(&TransactionRecord::new(1, 1, "main".to_string())).unwrap();
    log.write_transaction(&TransactionRecord::new(5, 9, "main".to_string())).unwrap();

    let issues = verify_consistency(&log).unwrap();
    assert_eq!(
        issues,
        vec![
            "Epoch 1: transaction count mismatch (files: 1, metadata: 2)".to_string(),
            "Cannot read epoch 9 metadata: Epoch 9 not found".to_string(),
        ]
    );
}

#[test]
fn verify_consistency_reports_a_list_that_names_other_transactions() {
    let mut log = create_test_log();
    let mut meta = log.create_epoch(1).unwrap();
    meta.add_transaction(1);
    meta.add_transaction(2);
    log.write_epoch_metadata(&meta).unwrap();
    log.write_transaction(&TransactionRecord::new(1, 1, "main".to_string())).unwrap();
    log.write_transaction(&TransactionRecord::new(3, 1, "main".to_string())).unwrap();

    let issues = verify_consistency(&log).unwrap();
    assert_eq!(
        issues,
        vec!["Epoch 1: transaction list mismatch at position 1 (files: 3, metadata: 2)".to_string()]
    );
    assert_eq!(log.get_epoch(1).unwrap().transactions, vec![1, 2]);
    assert_eq!(log.list_transactions_in_epoch(1).unwrap(), vec![1, 3]);
}

#[test]
fn a_second_recovery_leaves_every_record_as_it_is() {
    let mut log = create_test_log();
    log.create_epoch(1).unwrap();
    log.create_epoch(2).unwrap();
    for (tx_id, epoch_id) in [(1u64, 1u64), (2, 1), (3, 2)] {
        let mut tx = TransactionRecord::new(tx_id, epoch_id, "main".to_string());
        if tx_id == 2 {
            tx.mark_preparing();
        }
        log.write_transaction(&tx).unwrap();
    }
    RecoveryManager::recover_and_apply(&mut log).unwrap();
    let after_first: Vec<TransactionStatus> =
        [1u64, 2, 3].iter().map(|id| log.read_transaction(*id).unwrap().status).collect();
    let second = RecoveryManager::recover_and_apply(&mut log).unwrap();
    let third = RecoveryManager::recover_and_apply(&mut log).unwrap();
    let after_third: Vec<TransactionStatus> =
        [1u64, 2, 3].iter().map(|id| log.read_transaction(*id).unwrap().status).collect();
    assert_eq!(after_first, after_third);
    assert!(second.rolled_back.is_empty());
    assert_eq!(second.already_aborted, third.already_aborted);
    assert_eq!(second.rolled_back, third.rolled_back);
    assert_eq!(second.errors, third.errors);
}
