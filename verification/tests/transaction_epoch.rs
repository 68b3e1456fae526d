use rhizo_core::transaction::{EpochConfig, EpochMetadata, EpochStatus};

#[test]
fn test_epoch_config_default() {
    let config = EpochConfig::default();
    assert_eq!(config.duration_ms, 100);
    assert_eq!(config.max_transactions, 1000);
    assert!(config.batching_enabled);
    assert!(!config.is_immediate());
}

#[test]
fn test_epoch_config_single_node() {
    let config = EpochConfig::single_node();
    assert_eq!(config.duration_ms, 0);
    assert_eq!(config.max_transactions, 1);
    assert!(!config.batching_enabled);
    assert!(config.is_immediate());
}

#[test]
fn test_epoch_config_high_throughput() {
    let config = EpochConfig::high_throughput();
    assert_eq!(config.duration_ms, 50);
    assert_eq!(config.max_transactions, 10000);
    assert!(config.batching_enabled);
}

#[test]
fn test_epoch_metadata_new() {
    let meta = EpochMetadata::new(1);
    assert_eq!(meta.epoch_id, 1);
    assert!(meta.is_active());
    assert!(meta.transactions.is_empty());
    assert!(meta.first_tx_id.is_none());
    assert!(meta.last_tx_id.is_none());
}

#[test]
fn test_epoch_add_transactions() {
    let mut meta = EpochMetadata::new(1);

    meta.add_transaction(1);
    assert_eq!(meta.first_tx_id, Some(1));
    assert_eq!(meta.last_tx_id, Some(1));
    assert_eq!(meta.transaction_count(), 1);

    meta.add_transaction(2);
    meta.add_transaction(3);

    assert_eq!(meta.first_tx_id, Some(1));
    assert_eq!(meta.last_tx_id, Some(3));
    assert_eq!(meta.transaction_count(), 3);
    assert_eq!(meta.transactions, vec![1, 2, 3]);
}

#[test]
fn test_epoch_status_transitions() {
    let mut meta = EpochMetadata::new(1);

    assert!(meta.is_active());

    meta.mark_committing();
    assert_eq!(meta.status, EpochStatus::Committing);

    meta.mark_committed();
    assert!(meta.is_committed());
    assert!(meta.ended_at.is_some());
}

#[test]
fn test_epoch_commit_abort_counts() {
    let mut meta = EpochMetadata::new(1);

    meta.record_commit();
    meta.record_commit();
    meta.record_abort();

    assert_eq!(meta.committed_count, 2);
    assert_eq!(meta.aborted_count, 1);
}

#[test]
fn test_epoch_rollback() {
    let mut meta = EpochMetadata::new(1);

    meta.mark_rolled_back();
    assert_eq!(meta.status, EpochStatus::RolledBack);
    assert!(meta.ended_at.is_some());
}

#[test]
fn epoch_config_low_latency() {
    let config = EpochConfig::low_latency();
    assert_eq!(config.duration_ms, 10);
    assert_eq!(config.max_transactions, 100);
    assert!(config.batching_enabled);
    assert!(!config.is_immediate());
}

#[test]
fn epoch_duration_needs_an_end() {
    let mut meta = EpochMetadata::new(4);
    assert_eq!(meta.duration_ms(), None);
    assert_eq!(meta.format_version, 1);
    meta.started_at = 1;
    meta.ended_at = Some(3);
    assert_eq!(meta.duration_ms(), Some(2000));
    meta.ended_at = Some(0);
    assert_eq!(meta.duration_ms(), Some(0));
}

#[test]
fn epoch_status_texts() {
    assert_eq!(EpochStatus::Active.to_string(), "Active");
    assert_eq!(EpochStatus::Committing.to_string(), "Committing");
    assert_eq!(EpochStatus::Committed.to_string(), "Committed");
    assert_eq!(EpochStatus::RolledBack.to_string(), "RolledBack");
}

#[test]
fn epoch_counts_stop_at_the_limit() {
    let mut meta = EpochMetadata::new(1);
    meta.committed_count = u64::MAX;
    meta.record_commit();
    assert_eq!(meta.committed_count, u64::MAX);
}
