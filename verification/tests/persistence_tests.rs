use nano_wal::{Directory, Wal, WalOptions};

#[test]
fn test_persistence_across_restarts() {
    let dir;

    {
        let mut wal = Wal::new(Directory::new(), WalOptions::default()).unwrap();
        let _ref1 = wal
            .append_entry("persistent_key1", None, b"value1".to_vec(), true)
            .unwrap();
        let _ref2 = wal
            .append_entry("persistent_key2", None, b"value2".to_vec(), true)
            .unwrap();
        let _ref3 = wal
            .append_entry("persistent_key1", None, b"value1_updated".to_vec(), true)
            .unwrap();
        dir = wal.into_directory();
    }

    {
        let wal = Wal::new(dir, WalOptions::default()).unwrap();

        let records1: Vec<Vec<u8>> = wal.enumerate_records("persistent_key1");
        assert_eq!(records1.len(), 2);
        assert_eq!(records1[0], b"value1".to_vec());
        assert_eq!(records1[1], b"value1_updated".to_vec());

        let records2: Vec<Vec<u8>> = wal.enumerate_records("persistent_key2");
        assert_eq!(records2.len(), 1);
        assert_eq!(records2[0], b"value2".to_vec());

        let keys: Vec<String> = wal.enumerate_keys();
        assert_eq!(keys.len(), 2);
        assert!(keys.contains(&"persistent_key1".to_string()));
        assert!(keys.contains(&"persistent_key2".to_string()));
    }
}

#[test]
fn test_simulated_process_kill_persistence() {
    let dir;

    {
        let mut wal = Wal::new(Directory::new(), WalOptions::default()).unwrap();

        let _ref1 = wal
            .append_entry("critical_key1", None, b"important_data_1".to_vec(), true)
            .unwrap();
        let _ref2 = wal
            .append_entry("critical_key2", None, b"important_data_2".to_vec(), true)
            .unwrap();
        let _ref3 = wal
            .append_entry(
                "critical_key1",
                None,
                b"updated_important_data".to_vec(),
                true,
            )
            .unwrap();

        let _ref4 = wal
            .append_entry("temp_key", None, b"temp_data".to_vec(), false)
            .unwrap();

        wal.sync().unwrap();

        // hand the directory over without a shutdown, as an abrupt
        // process end leaves it
        dir = wal.into_directory();
    }

    {
        let wal = Wal::new(dir, WalOptions::default()).unwrap();

        let records1: Vec<Vec<u8>> = wal.enumerate_records("critical_key1");
        assert_eq!(records1.len(), 2, "Should have 2 records for critical_key1");
        assert_eq!(records1[0], b"important_data_1".to_vec());
        assert_eq!(records1[1], b"updated_important_data".to_vec());

        let records2: Vec<Vec<u8>> = wal.enumerate_records("critical_key2");
        assert_eq!(records2.len(), 1, "Should have 1 record for critical_key2");
        assert_eq!(records2[0], b"important_data_2".to_vec());

        let temp_records: Vec<Vec<u8>> = wal.enumerate_records("temp_key");
        assert_eq!(temp_records.len(), 1, "Should have 1 record for temp_key");
        assert_eq!(temp_records[0], b"temp_data".to_vec());

        let keys: Vec<String> = wal.enumerate_keys();
        assert_eq!(keys.len(), 3, "Should have 3 unique keys");
        assert!(keys.contains(&"critical_key1".to_string()));
        assert!(keys.contains(&"critical_key2".to_string()));
        assert!(keys.contains(&"temp_key".to_string()));

        let keys: Vec<String> = wal.enumerate_keys();
        assert_eq!(keys.len(), 3, "Should have 3 unique keys");
    }
}

#[test]
fn test_multiple_restart_cycles() {
    let dir1;
    let dir2;

    {
        let mut wal = Wal::new(Directory::new(), WalOptions::default()).unwrap();
        let _ref1 = wal
            .append_entry("session1", None, b"data1".to_vec(), true)
            .unwrap();
        dir1 = wal.into_directory();
    }

    {
        let mut wal = Wal::new(dir1, WalOptions::default()).unwrap();
        let _ref2 = wal
            .append_entry("session2", None, b"data2".to_vec(), true)
            .unwrap();

        let session1_records: Vec<Vec<u8>> = wal.enumerate_records("session1");
        assert_eq!(session1_records.len(), 1);
        dir2 = wal.into_directory();
    }

    {
        let mut wal = Wal::new(dir2, WalOptions::default()).unwrap();
        let _ref3 = wal
            .append_entry("session1", None, b"data1_updated".to_vec(), true)
            .unwrap();
        let _ref4 = wal
            .append_entry("session3", None, b"data3".to_vec(), true)
            .unwrap();

        let session1_records: Vec<Vec<u8>> = wal.enumerate_records("session1");
        assert_eq!(session1_records.len(), 2);

        let session2_records: Vec<Vec<u8>> = wal.enumerate_records("session2");
        assert_eq!(session2_records.len(), 1);

        let session3_records: Vec<Vec<u8>> = wal.enumerate_records("session3");
        assert_eq!(session3_records.len(), 1);

        let keys: Vec<String> = wal.enumerate_keys();
        assert_eq!(keys.len(), 3, "Should have 3 unique keys");
    }
}

#[test]
fn test_crash_recovery_with_partial_writes() {
    let dir;

    {
        let mut wal = Wal::new(Directory::new(), WalOptions::default()).unwrap();

        let _ref1 = wal
            .append_entry("complete1", None, b"complete_data_1".to_vec(), true)
            .unwrap();
        let _ref2 = wal
            .append_entry("complete2", None, b"complete_data_2".to_vec(), true)
            .unwrap();

        let _ref3 = wal
            .append_entry("maybe_lost", None, b"might_be_lost".to_vec(), false)
            .unwrap();

        let _ref4 = wal
            .append_entry("complete3", None, b"complete_data_3".to_vec(), true)
            .unwrap();

        // a crash keeps only what reached stable storage
        dir = wal.simulate_crash();
    }

    {
        let wal = Wal::new(dir, WalOptions::default()).unwrap();

        let complete1_records: Vec<Vec<u8>> = wal.enumerate_records("complete1");
        assert_eq!(complete1_records.len(), 1);
        assert_eq!(complete1_records[0], b"complete_data_1".to_vec());

        let complete2_records: Vec<Vec<u8>> = wal.enumerate_records("complete2");
        assert_eq!(complete2_records.len(), 1);
        assert_eq!(complete2_records[0], b"complete_data_2".to_vec());

        let complete3_records: Vec<Vec<u8>> = wal.enumerate_records("complete3");
        assert_eq!(complete3_records.len(), 1);
        assert_eq!(complete3_records[0], b"complete_data_3".to_vec());

        let _maybe_lost_records: Vec<Vec<u8>> = wal.enumerate_records("maybe_lost");
        // no assertion on the unsynced record: a crash may lose it

        let keys: Vec<String> = wal.enumerate_keys();
        assert!(keys.len() >= 3, "Should have at least 3 keys available");
    }
}
