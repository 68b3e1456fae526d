use rhizo_core::transaction::log::{
    epoch_dir_name, index_line, pad6, parse_index_line, parse_number, tx_file_name,
};
use rhizo_core::transaction::{
    EpochConfig, StorageConfig, TransactionError, TransactionLog, TransactionRecord,
};

fn create_test_log() -> TransactionLog {
    TransactionLog::new("transactions")
}

#[test]
fn log_test_transaction_log_new() {
    let mut log = create_test_log();
    assert_eq!(log.base_path(), "transactions");
    assert!(log.list_epochs().unwrap().is_empty());
}

#[test]
fn log_test_tx_id_sequence() {
    let mut log = create_test_log();

    assert_eq!(log.current_tx_id().unwrap(), 0);

    let id1 = log.next_tx_id().unwrap();
    assert_eq!(id1, 1);

    let id2 = log.next_tx_id().unwrap();
    assert_eq!(id2, 2);

    let id3 = log.next_tx_id().unwrap();
    assert_eq!(id3, 3);

    assert_eq!(log.current_tx_id().unwrap(), 3);
}

#[test]
fn log_test_epoch_creation() {
    let mut log = create_test_log();

    let epoch = log.create_epoch(1).unwrap();
    assert_eq!(epoch.epoch_id, 1);
    assert!(epoch.is_active());

    let loaded = log.get_epoch(1).unwrap();
    assert_eq!(loaded.epoch_id, 1);
}

#[test]
fn log_test_current_epoch_creates_first() {
    let mut log = create_test_log();

    let epoch_id = log.current_epoch_id().unwrap();
    assert_eq!(epoch_id, 1);

    // Should have created epoch 1
    assert!(log.get_epoch(1).is_ok());
}

#[test]
fn log_test_list_epochs() {
    let mut log = create_test_log();

    log.create_epoch(1).unwrap();
    log.create_epoch(2).unwrap();
    log.create_epoch(3).unwrap();

    let epochs = log.list_epochs().unwrap();
    assert_eq!(epochs, vec![1, 2, 3]);
}

#[test]
fn log_test_write_read_transaction() {
    let mut log = create_test_log();

    log.create_epoch(1).unwrap();

    let mut tx = TransactionRecord::new(1, 1, "main".to_string());
    tx.record_read("users", 5);

    log.write_transaction(&tx).unwrap();

    let loaded = log.read_transaction(1).unwrap();
    assert_eq!(loaded.tx_id, 1);
    assert_eq!(loaded.epoch_id, 1);
    assert_eq!(loaded.branch, "main");
    assert_eq!(loaded.read_snapshot.get("users"), Some(&5));
}

#[test]
fn log_test_transaction_not_found() {
    let mut log = create_test_log();

    let result = log.read_transaction(999);
    assert!(matches!(result, Err(TransactionError::TransactionNotFound(999))));
}

#[test]
fn log_test_epoch_not_found() {
    let mut log = create_test_log();

    let result = log.get_epoch(999);
    assert!(matches!(result, Err(TransactionError::EpochNotFound(999))));
}

#[test]
fn log_test_list_transactions_in_epoch() {
    let mut log = create_test_log();

    log.create_epoch(1).unwrap();

    let tx1 = TransactionRecord::new(1, 1, "main".to_string());
    let tx2 = TransactionRecord::new(2, 1, "main".to_string());
    let tx3 = TransactionRecord::new(3, 1, "main".to_string());

    log.write_transaction(&tx1).unwrap();
    log.write_transaction(&tx2).unwrap();
    log.write_transaction(&tx3).unwrap();

    let tx_ids = log.list_transactions_in_epoch(1).unwrap();
    assert_eq!(tx_ids, vec![1, 2, 3]);
}

#[test]
fn log_test_epoch_committed_marker() {
    let mut log = create_test_log();

    log.create_epoch(1).unwrap();

    assert!(!log.is_epoch_committed(1).unwrap());

    log.mark_epoch_committed(1).unwrap();

    assert!(log.is_epoch_committed(1).unwrap());
}

#[test]
fn log_test_storage_config() {
    let mut log = create_test_log();

    // Initially no config
    assert!(log.load_config().unwrap().is_none());

    // Save config
    let config = StorageConfig::new(EpochConfig::high_throughput());
    log.save_config(&config).unwrap();

    // Load config
    let loaded = log.load_config().unwrap().unwrap();
    assert_eq!(loaded.epoch_config.duration_ms, 50);
    assert_eq!(loaded.epoch_config.max_transactions, 10000);
}

#[test]
fn log_test_initialize_if_needed() {
    let mut log = create_test_log();

    // First call creates config
    let config = log.initialize_if_needed().unwrap();
    assert!(config.epoch_config.is_immediate()); // single_node mode

    // Second call returns existing
    let config2 = log.initialize_if_needed().unwrap();
    assert_eq!(config.created_at, config2.created_at);
}

#[test]
fn log_test_update_epoch_metadata() {
    let mut log = create_test_log();

    let mut meta = log.create_epoch(1).unwrap();

    meta.add_transaction(1);
    meta.add_transaction(2);
    meta.record_commit();

    log.write_epoch_metadata(&meta).unwrap();

    let loaded = log.get_epoch(1).unwrap();
    assert_eq!(loaded.transactions, vec![1, 2]);
    assert_eq!(loaded.committed_count, 1);
}

#[test]
fn log_file_names_are_padded_to_six_digits() {
    assert_eq!(pad6(0), "000000");
    assert_eq!(pad6(42), "000042");
    assert_eq!(pad6(999999), "999999");
    assert_eq!(pad6(1234567), "1234567");
    assert_eq!(epoch_dir_name(7), "000007");
    assert_eq!(tx_file_name(12), "tx_000012.json");
}

#[test]
fn log_numbers_parse_as_unsigned_decimals() {
    assert_eq!(parse_number("+7"), Some(7));
    assert_eq!(parse_number("+"), None);
    assert_eq!(parse_number("++7"), None);
    assert_eq!(parse_number("7+"), None);
    assert_eq!(parse_number(" 7"), None);
    assert_eq!(parse_index_line("+3:+4"), Some((3, 4)));
    assert_eq!(parse_number("000042"), Some(42));
    assert_eq!(parse_number("0"), Some(0));
    assert_eq!(parse_number("18446744073709551615"), Some(u64::MAX));
    assert_eq!(parse_number("18446744073709551616"), None);
    assert_eq!(parse_number(""), None);
    assert_eq!(parse_number("12a"), None);
    assert_eq!(parse_number("-1"), None);
}

#[test]
fn log_index_lines_round_trip() {
    assert_eq!(index_line(3, 17), "3:17");
    assert_eq!(parse_index_line("3:17"), Some((3, 17)));
    assert_eq!(parse_index_line(&index_line(u64::MAX, 0)), Some((u64::MAX, 0)));
    assert_eq!(parse_index_line("3"), None);
    assert_eq!(parse_index_line("3:"), None);
    assert_eq!(parse_index_line(":3"), None);
    assert_eq!(parse_index_line("a:3"), None);
}

#[test]
fn log_creating_an_epoch_twice_keeps_the_first() {
    let mut log = create_test_log();
    let mut meta = log.create_epoch(1).unwrap();
    meta.add_transaction(5);
    log.write_epoch_metadata(&meta).unwrap();
    log.create_epoch(1).unwrap();
    assert_eq!(log.list_epochs().unwrap(), vec![1]);
}

#[test]
fn log_committed_transactions_are_listed_in_order() {
    let mut log = create_test_log();
    log.create_epoch(1).unwrap();
    log.create_epoch(2).unwrap();
    for (tx_id, epoch_id, committed) in [(1u64, 1u64, true), (2, 1, false), (3, 2, true), (4, 2, true)] {
        let mut tx = TransactionRecord::new(tx_id, epoch_id, "main".to_string());
        if committed {
            tx.mark_committed();
        }
        log.write_transaction(&tx).unwrap();
    }
    assert_eq!(log.latest_committed_tx_id().unwrap(), Some(4));
    let all: Vec<u64> = log.list_committed_transactions().unwrap().iter().map(|t| t.tx_id).collect();
    assert_eq!(all, vec![1, 3, 4]);
    let since: Vec<u64> = log.list_committed_since(1).unwrap().iter().map(|t| t.tx_id).collect();
    assert_eq!(since, vec![3, 4]);
    assert!(log.list_committed_since(4).unwrap().is_empty());
    assert_eq!(log.rebuild_committed_index(), vec![(1, 1), (2, 3), (2, 4)]);
}

#[test]
fn log_reads_a_transaction_from_its_epoch_only() {
    let mut log = create_test_log();
    log.create_epoch(1).unwrap();
    log.create_epoch(2).unwrap();
    log.write_transaction(&TransactionRecord::new(1, 2, "main".to_string())).unwrap();
    assert!(log.read_transaction_from_epoch(1, 2).is_ok());
    assert!(matches!(
        log.read_transaction_from_epoch(1, 1),
        Err(TransactionError::TransactionNotFound(1))
    ));
    assert_eq!(log.read_transaction(1).unwrap().epoch_id, 2);
    assert_eq!(log.list_transactions_in_epoch(1).unwrap(), Vec::<u64>::new());
    assert!(matches!(
        log.list_transactions_in_epoch(9),
        Err(TransactionError::EpochNotFound(9))
    ));
}

#[test]
fn log_epoch_ids_follow_each_other() {
    let mut log = create_test_log();
    assert_eq!(log.next_epoch_id().unwrap(), 2);
    assert_eq!(log.next_epoch_id().unwrap(), 3);
    assert_eq!(log.current_epoch_id().unwrap(), 3);
    assert_eq!(log.list_epochs().unwrap(), vec![1]);
}
