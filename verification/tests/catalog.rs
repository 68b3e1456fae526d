use rhizo_core::catalog::{CatalogError, FileCatalog, PendingCommit, TableVersion};

#[test]
fn test_commit_and_get() {
    let mut catalog = FileCatalog::new();

    let version = TableVersion::new("test_table", 1, vec!["hash1".to_string(), "hash2".to_string()]);
    let v = catalog.commit(version).unwrap();
    assert_eq!(v, 1);

    let retrieved = catalog.get_version("test_table", Some(1)).unwrap();
    assert_eq!(retrieved.table_name, "test_table");
    assert_eq!(retrieved.version, 1);
    assert_eq!(retrieved.chunk_hashes, vec!["hash1", "hash2"]);
}

#[test]
fn test_get_latest() {
    let mut catalog = FileCatalog::new();

    catalog.commit(TableVersion::new("test_table", 1, vec!["v1".to_string()])).unwrap();
    catalog.commit(TableVersion::new("test_table", 2, vec!["v2".to_string()])).unwrap();
    catalog.commit(TableVersion::new("test_table", 3, vec!["v3".to_string()])).unwrap();

    let latest = catalog.get_version("test_table", None).unwrap();
    assert_eq!(latest.version, 3);
}

#[test]
fn test_version_sequence_enforced() {
    let mut catalog = FileCatalog::new();

    catalog.commit(TableVersion::new("test_table", 1, vec![])).unwrap();
    
    // Trying to skip version 2
    let result = catalog.commit(TableVersion::new("test_table", 3, vec![]));
    assert!(matches!(result, Err(CatalogError::InvalidVersion { .. })));
}

#[test]
fn test_list_versions() {
    let mut catalog = FileCatalog::new();

    catalog.commit(TableVersion::new("test_table", 1, vec![])).unwrap();
    catalog.commit(TableVersion::new("test_table", 2, vec![])).unwrap();
    catalog.commit(TableVersion::new("test_table", 3, vec![])).unwrap();

    let versions = catalog.list_versions("test_table").unwrap();
    assert_eq!(versions, vec![1, 2, 3]);
}

#[test]
fn test_list_tables() {
    let mut catalog = FileCatalog::new();

    catalog.commit(TableVersion::new("alpha", 1, vec![])).unwrap();
    catalog.commit(TableVersion::new("beta", 1, vec![])).unwrap();
    catalog.commit(TableVersion::new("gamma", 1, vec![])).unwrap();

    let tables = catalog.list_tables().unwrap();
    assert_eq!(tables, vec!["alpha", "beta", "gamma"]);
}

#[test]
fn test_time_travel() {
    let mut catalog = FileCatalog::new();

    catalog.commit(TableVersion::new("data", 1, vec!["old".to_string()])).unwrap();
    catalog.commit(TableVersion::new("data", 2, vec!["new".to_string()])).unwrap();

    let v1 = catalog.get_version("data", Some(1)).unwrap();
    let v2 = catalog.get_version("data", Some(2)).unwrap();

    assert_eq!(v1.chunk_hashes, vec!["old"]);
    assert_eq!(v2.chunk_hashes, vec!["new"]);
}

#[test]
fn test_table_not_found() {
    let mut catalog = FileCatalog::new();

    let result = catalog.get_version("nonexistent", None);
    assert!(matches!(result, Err(CatalogError::TableNotFound(_))));

    let result = catalog.list_versions("nonexistent");
    assert!(matches!(result, Err(CatalogError::TableNotFound(_))));
}

#[test]
fn test_version_not_found() {
    let mut catalog = FileCatalog::new();

    catalog.commit(TableVersion::new("test_table", 1, vec![])).unwrap();

    let result = catalog.get_version("test_table", Some(999));
    assert!(matches!(result, Err(CatalogError::VersionNotFound(_, _))));
}

#[test]
fn test_no_pending_intents_after_successful_commit() {
    let mut catalog = FileCatalog::new();

    catalog.commit_next_version("test_table", vec!["h1".to_string()]).unwrap();
    catalog.commit_next_version("test_table", vec!["h2".to_string()]).unwrap();

    // No pending intents should remain after successful commits
    let pending = catalog.recover_pending_commits().unwrap();
    assert!(pending.is_empty());
}

#[test]
fn test_recover_orphaned_intent() {
    let mut catalog = FileCatalog::new();

    // Simulate a crash: write an intent file manually without committing
    let intent = PendingCommit {
        intent_id: "crash-sim-001".to_string(),
        table_name: "orphaned_table".to_string(),
        chunk_hashes: vec!["orphan_chunk_1".to_string(), "orphan_chunk_2".to_string()],
        created_at: 1234567890,
    };
    catalog.restore_pending_intent(intent);

    // Recovery should find the orphaned intent
    let orphaned = catalog.recover_pending_commits().unwrap();
    assert_eq!(orphaned.len(), 1);
    assert_eq!(orphaned[0].table_name, "orphaned_table");
    assert_eq!(orphaned[0].chunk_hashes, vec!["orphan_chunk_1", "orphan_chunk_2"]);

    // The intent should be gone after recovery
    assert!(catalog.recover_pending_commits().unwrap().is_empty());
}

#[test]
fn test_recover_stale_intent_after_completed_commit() {
    let mut catalog = FileCatalog::new();

    // Commit a version normally
    let hashes = vec!["chunk_a".to_string(), "chunk_b".to_string()];
    catalog.commit_next_version("my_table", hashes.clone()).unwrap();

    // Simulate a crash between step 2 (commit succeeded) and step 3 (intent removal)
    // by manually placing an intent that matches the committed version
    let intent = PendingCommit {
        intent_id: "stale-intent-001".to_string(),
        table_name: "my_table".to_string(),
        chunk_hashes: hashes,
        created_at: 1234567890,
    };
    catalog.restore_pending_intent(intent);

    // Recovery should detect this is already committed and return empty
    let orphaned = catalog.recover_pending_commits().unwrap();
    assert!(orphaned.is_empty());

    // The stale intent should be gone
    assert!(catalog.recover_pending_commits().unwrap().is_empty());
}

#[test]
fn test_list_tables_excludes_pending_dir() {
    let mut catalog = FileCatalog::new();

    catalog.commit(TableVersion::new("alpha", 1, vec![])).unwrap();
    catalog.commit(TableVersion::new("beta", 1, vec![])).unwrap();

    // .pending dir should not appear in table listing
    let tables = catalog.list_tables().unwrap();
    assert_eq!(tables, vec!["alpha", "beta"]);
    assert!(!tables.contains(&".pending".to_string()));
}

#[test]
fn commit_next_version_numbers_commits_in_sequence() {
    let mut catalog = FileCatalog::new();
    let mut versions: Vec<u64> = Vec::new();
    for i in 0..10 {
        versions.push(catalog.commit_next_version("sequential_table", vec![format!("hash_{}", i)]).unwrap());
    }
    assert_eq!(versions, (1..=10).collect::<Vec<u64>>());
    let latest = catalog.get_version("sequential_table", None).unwrap();
    assert_eq!(latest.version, 10);
    assert_eq!(latest.chunk_hashes, vec!["hash_9".to_string()]);
    assert_eq!(catalog.list_versions("sequential_table").unwrap(), (1..=10).collect::<Vec<u64>>());
}

#[test]
fn commit_reports_the_expected_version() {
    let mut catalog = FileCatalog::new();
    assert_eq!(
        catalog.commit(TableVersion::new("t", 2, vec![])).unwrap_err(),
        CatalogError::InvalidVersion { expected: 1, got: 2 }
    );
    assert_eq!(
        catalog.commit(TableVersion::new("t", 0, vec![])).unwrap_err(),
        CatalogError::InvalidVersion { expected: 1, got: 0 }
    );
    assert!(matches!(catalog.get_version("t", None), Err(CatalogError::TableNotFound(_))));
    catalog.commit(TableVersion::new("t", 1, vec![])).unwrap();
    assert_eq!(
        catalog.commit(TableVersion::new("t", 1, vec![])).unwrap_err(),
        CatalogError::InvalidVersion { expected: 2, got: 1 }
    );
    assert_eq!(
        catalog.get_version("t", Some(5)).unwrap_err(),
        CatalogError::VersionNotFound("t".to_string(), 5)
    );
    assert_eq!(catalog.get_latest_version_num("t"), 1);
    assert_eq!(catalog.get_latest_version_num("other"), 0);
}

#[test]
fn committed_versions_link_to_their_parents() {
    let mut catalog = FileCatalog::new();
    catalog.commit_next_version("t", vec!["a".to_string()]).unwrap();
    catalog.commit_next_version("t", vec!["b".to_string()]).unwrap();
    assert_eq!(catalog.get_version("t", Some(1)).unwrap().parent_version, None);
    assert_eq!(catalog.get_version("t", Some(2)).unwrap().parent_version, Some(1));
    assert!(catalog.is_committed("t", &vec!["b".to_string()]));
    assert!(!catalog.is_committed("t", &vec!["a".to_string()]));
    assert!(!catalog.is_committed("none", &vec![]));
}

#[test]
fn pending_intents_get_distinct_ids() {
    let mut catalog = FileCatalog::new();
    let first = catalog.write_pending_intent("t", &vec!["a".to_string()]);
    let second = catalog.write_pending_intent("t", &vec!["a".to_string()]);
    assert_ne!(first, second);
    assert_eq!(first.len(), 36);
    catalog.remove_pending_intent(&first);
    let orphaned = catalog.recover_pending_commits().unwrap();
    assert_eq!(orphaned.len(), 1);
    assert_eq!(orphaned[0].intent_id, second);
    assert_eq!(orphaned[0].table_name, "t");
}

#[test]
fn table_version_builders() {
    let v = TableVersion::new("t", 3, vec!["h".to_string()])
        .with_metadata("author", "me")
        .with_schema_hash("s");
    assert_eq!(v.parent_version, Some(2));
    assert_eq!(v.metadata.get("author"), Some(&"me".to_string()));
    assert_eq!(v.schema_hash, Some("s".to_string()));
    assert_eq!(TableVersion::new("t", 1, vec![]).parent_version, None);
    assert_eq!(TableVersion::new("t", 0, vec![]).parent_version, None);
}

#[test]
fn catalog_error_messages() {
    let cases: Vec<(CatalogError, &str)> = vec![
        (CatalogError::TableNotFound("t".to_string()), "Table not found: t"),
        (CatalogError::VersionNotFound("t".to_string(), 3), "Version not found: t v3"),
        (CatalogError::InvalidVersion { expected: 2, got: 5 }, "Invalid version: expected 2, got 5"),
        (CatalogError::LatestPointerCorrupted("t".to_string()), "Latest pointer corrupted for table: t"),
        (CatalogError::LockError("t".to_string()), "Failed to acquire file lock for table: t"),
        (CatalogError::CannotDeleteLatest("t".to_string(), 3), "Cannot delete latest version: t v3"),
        (CatalogError::Io("io".to_string()), "IO error: io"),
        (CatalogError::Json("js".to_string()), "JSON error: js"),
    ];
    for (err, text) in cases {
        assert_eq!(err.to_string(), text);
    }
}

#[test]
fn restore_table_takes_versions_numbered_from_one() {
    let mut catalog = FileCatalog::new();
    catalog
        .restore_table(
            "t",
            vec![
                TableVersion::new("t", 1, vec!["a".to_string()]),
                TableVersion::new("t", 2, vec!["b".to_string()]),
            ],
        )
        .unwrap();
    assert_eq!(catalog.list_versions("t").unwrap(), vec![1, 2]);
    assert_eq!(catalog.commit_next_version("t", vec![]).unwrap(), 3);

    let result = catalog.restore_table(
        "u",
        vec![TableVersion::new("u", 1, vec![]), TableVersion::new("u", 3, vec![])],
    );
    assert_eq!(result.unwrap_err(), CatalogError::InvalidVersion { expected: 2, got: 3 });
    assert!(matches!(catalog.list_versions("u"), Err(CatalogError::TableNotFound(_))));
    assert_eq!(catalog.list_tables().unwrap(), vec!["t".to_string()]);
}
