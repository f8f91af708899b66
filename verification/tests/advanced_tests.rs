use nano_wal::{Directory, Wal, WalOptions};

fn log_file_count(dir: &Directory) -> usize {
    let mut count = 0;
    for i in 0..dir.file_count() {
        if dir.name_at(i).ends_with(b".log") {
            count += 1;
        }
    }
    count
}

#[test]
fn test_segment_rotation_time_based() {
    let mut wal = Wal::new(
        Directory::new(),
        WalOptions {
            entry_retention: 10,
            segments_per_retention_period: 10,
        },
    )
    .unwrap();

    let _ref1 = wal
        .append_entry(
            "key1",
            None,
            b"data1 with enough content to trigger rotation when combined".to_vec(),
            false,
        )
        .unwrap();

    let _ref2 = wal
        .append_entry("key2", None, b"data2".to_vec(), false)
        .unwrap();

    let dir = wal.into_directory();
    assert!(log_file_count(&dir) > 0, "Should have at least one .log file");
}

#[test]
fn test_compaction() {
    let mut wal = Wal::new(
        Directory::new(),
        WalOptions {
            entry_retention: 5,
            segments_per_retention_period: 10,
        },
    )
    .unwrap();

    // segment duration is one second; the second append comes after the
    // first segment has expired
    let _ref1 = wal
        .append_entry_at("key1", None, b"data1".to_vec(), true, 1000)
        .unwrap();
    let _ref2 = wal
        .append_entry_at("key2", None, b"data2".to_vec(), true, 1003)
        .unwrap();

    wal.compact_at(1003).unwrap();

    let dir = wal.into_directory();
    assert!(log_file_count(&dir) < 100);
}

#[test]
fn test_large_number_of_entries() {
    let mut wal = Wal::new(Directory::new(), WalOptions::default()).unwrap();

    for i in 0..1000 {
        let key = format!("key_{}", i % 10);
        let content = format!("data_{}", i).into_bytes();
        let _ref = wal.append_entry(&key, None, content, i % 100 == 0).unwrap();
    }

    let records: Vec<Vec<u8>> = wal.enumerate_records("key_0");
    assert_eq!(records.len(), 100);

    let keys: Vec<String> = wal.enumerate_keys();
    assert_eq!(keys.len(), 10);

    assert_eq!(wal.active_segment_count(), 10);

    wal.shutdown().unwrap();
}

#[test]
fn test_concurrent_like_operations() {
    let mut wal = Wal::new(Directory::new(), WalOptions::default()).unwrap();

    for batch in 0..10 {
        for i in 0..50 {
            let key = format!("batch_{}", batch);
            let content = format!("batch {} item {} data", batch, i).into_bytes();
            let _ref = wal.append_entry(&key, None, content, false).unwrap();
        }
        wal.sync().unwrap();
    }

    assert_eq!(wal.active_segment_count(), 10);

    let records: Vec<Vec<u8>> = wal.enumerate_records("batch_0");
    assert_eq!(records.len(), 50);
    assert_eq!(records[0], b"batch 0 item 0 data".to_vec());

    let records: Vec<Vec<u8>> = wal.enumerate_records("batch_9");
    assert_eq!(records.len(), 50);
    assert_eq!(records[49], b"batch 9 item 49 data".to_vec());

    wal.shutdown().unwrap();
}

#[test]
fn test_error_handling_invalid_config() {
    let result = Wal::new(
        Directory::new(),
        WalOptions {
            entry_retention: 0,
            segments_per_retention_period: 10,
        },
    );
    assert!(result.is_err());

    let result = Wal::new(
        Directory::new(),
        WalOptions {
            entry_retention: 60 * 60 * 24,
            segments_per_retention_period: 0,
        },
    );
    assert!(result.is_err());
}

#[test]
fn test_special_characters_in_keys() {
    let mut wal = Wal::new(Directory::new(), WalOptions::default()).unwrap();

    let test_keys = vec![
        "simple_key",
        "key-with-dashes",
        "key.with.dots",
        "key_with_underscores",
        "KeyWithCaps",
        "key123with456numbers",
        "verylongkeyname_that_should_be_truncated_in_filename_but_still_work_correctly",
    ];

    for (i, key) in test_keys.iter().enumerate() {
        let content = format!("content_{}", i).into_bytes();
        let _ref = wal.append_entry(*key, None, content.clone(), true).unwrap();

        let records: Vec<Vec<u8>> = wal.enumerate_records(*key);
        assert_eq!(records.len(), 1);
        assert_eq!(records[0], content);
    }

    let keys: Vec<String> = wal.enumerate_keys();
    assert_eq!(keys.len(), test_keys.len());

    wal.shutdown().unwrap();
}

#[test]
fn test_empty_and_large_content() {
    let mut wal = Wal::new(Directory::new(), WalOptions::default()).unwrap();

    let _ref1 = wal
        .append_entry("empty_key", None, Vec::new(), true)
        .unwrap();

    let large_content = vec![42u8; 1024 * 100];
    let _ref2 = wal
        .append_entry("large_key", None, large_content.clone(), true)
        .unwrap();

    let records: Vec<Vec<u8>> = wal.enumerate_records("empty_key");
    assert_eq!(records.len(), 1);
    assert!(records[0].is_empty());

    let records: Vec<Vec<u8>> = wal.enumerate_records("large_key");
    assert_eq!(records.len(), 1);
    assert_eq!(records[0], large_content);

    wal.shutdown().unwrap();
}

#[test]
fn test_wal_options_builder_methods() {
    let options = WalOptions::with_retention(3600);
    assert_eq!(options.entry_retention, 3600);
    assert_eq!(options.segments_per_retention_period, 10);

    let wal = Wal::new(Directory::new(), options).unwrap();
    assert_eq!(wal.active_segment_count(), 0);
    drop(wal);

    let options = WalOptions::with_segments_per_retention_period(20);
    assert_eq!(options.segments_per_retention_period, 20);
    assert_eq!(options.entry_retention, 60 * 60 * 24 * 7);

    let mut wal = Wal::new(Directory::new(), options).unwrap();
    wal.shutdown().unwrap();
}

#[test]
fn test_segment_id_progression() {
    let mut wal = Wal::new(
        Directory::new(),
        WalOptions {
            entry_retention: 6,
            segments_per_retention_period: 10,
        },
    )
    .unwrap();

    let initial_count = wal.active_segment_count();

    wal.append_entry("test1", None, b"data1".to_vec(), true)
        .unwrap();

    wal.append_entry("test2", None, b"data2".to_vec(), true)
        .unwrap();

    let final_count = wal.active_segment_count();

    let dir = wal.into_directory();
    assert!(final_count > initial_count || log_file_count(&dir) > 0);
}
