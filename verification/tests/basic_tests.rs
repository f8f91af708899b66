use nano_wal::{Directory, Wal, WalError, WalOptions};

#[test]
fn test_new_and_shutdown() {
    let mut wal = Wal::new(Directory::new(), WalOptions::default()).unwrap();
    wal.shutdown().unwrap();
    let dir = wal.into_directory();
    assert!(dir.file_count() == 0);
}

#[test]
fn test_append_and_log() {
    let mut wal = Wal::new(Directory::new(), WalOptions::default()).unwrap();
    let content1 = b"hello".to_vec();
    let _ref1 = wal.append_entry("key1", None, content1, false).unwrap();

    let content2 = b"world".to_vec();
    let _ref2 = wal.log_entry("key2", None, content2).unwrap();

    wal.shutdown().unwrap();
}

#[test]
fn test_append_and_enumerate() {
    let mut wal = Wal::new(Directory::new(), WalOptions::default()).unwrap();
    let content1 = b"hello".to_vec();
    let content2 = b"world".to_vec();

    let _ref1 = wal
        .append_entry("key1", None, content1.clone(), false)
        .unwrap();
    let _ref2 = wal
        .append_entry("key2", None, content2.clone(), false)
        .unwrap();

    let records: Vec<Vec<u8>> = wal.enumerate_records("key1");
    assert_eq!(records.len(), 1);
    assert_eq!(records[0], content1);

    wal.shutdown().unwrap();
}

#[test]
fn test_enumerate_keys() {
    let mut wal = Wal::new(Directory::new(), WalOptions::default()).unwrap();

    let _ref1 = wal
        .append_entry("key1", None, b"1".to_vec(), false)
        .unwrap();
    let _ref2 = wal
        .append_entry("key2", None, b"2".to_vec(), false)
        .unwrap();
    let _ref3 = wal
        .append_entry("key1", None, b"3".to_vec(), false)
        .unwrap();

    let keys: Vec<String> = wal.enumerate_keys();
    assert_eq!(keys.len(), 2);
    assert!(keys.contains(&"key1".to_string()));
    assert!(keys.contains(&"key2".to_string()));

    wal.shutdown().unwrap();
}

#[test]
fn test_multiple_records_same_key() {
    let mut wal = Wal::new(Directory::new(), WalOptions::default()).unwrap();

    let _ref1 = wal
        .append_entry("key1", None, b"value1".to_vec(), false)
        .unwrap();
    let _ref2 = wal
        .append_entry("key1", None, b"value2".to_vec(), false)
        .unwrap();
    let _ref3 = wal
        .append_entry("key1", None, b"value3".to_vec(), false)
        .unwrap();

    let records: Vec<Vec<u8>> = wal.enumerate_records("key1");
    assert_eq!(records.len(), 3);

    wal.shutdown().unwrap();
}

#[test]
fn test_entry_count() {
    let mut wal = Wal::new(Directory::new(), WalOptions::default()).unwrap();

    assert_eq!(wal.active_segment_count(), 0);

    let _ref1 = wal
        .append_entry("key1", None, b"value1".to_vec(), false)
        .unwrap();
    assert_eq!(wal.active_segment_count(), 1);

    let _ref2 = wal
        .append_entry("key2", None, b"value2".to_vec(), false)
        .unwrap();
    assert_eq!(wal.active_segment_count(), 2);

    let _ref3 = wal
        .append_entry("key1", None, b"value1_updated".to_vec(), false)
        .unwrap();
    assert_eq!(wal.active_segment_count(), 2);

    wal.shutdown().unwrap();
}

#[test]
fn test_sync() {
    let mut wal = Wal::new(Directory::new(), WalOptions::default()).unwrap();

    let _ref1 = wal
        .append_entry("key1", None, b"value1".to_vec(), false)
        .unwrap();
    wal.sync().unwrap();

    wal.shutdown().unwrap();
}

#[test]
fn test_empty_wal_operations() {
    let wal = Wal::new(Directory::new(), WalOptions::default()).unwrap();

    let records: Vec<Vec<u8>> = wal.enumerate_records("nonexistent");
    assert_eq!(records.len(), 0);

    let keys: Vec<String> = wal.enumerate_keys();
    assert_eq!(keys.len(), 0);

    assert_eq!(wal.active_segment_count(), 0);

    drop(wal);
}

#[test]
fn test_log_file_extension() {
    let mut wal = Wal::new(Directory::new(), WalOptions::default()).unwrap();
    let _ref1 = wal
        .append_entry("test_key", None, b"test_data".to_vec(), true)
        .unwrap();

    let dir = wal.into_directory();
    let mut found_log_file = false;
    for i in 0..dir.file_count() {
        let name = dir.name_at(i);
        if name.ends_with(b".log") {
            found_log_file = true;
            break;
        }
    }
    assert!(found_log_file, "Should create .log files");
}

#[test]
fn test_key_in_filename() {
    let mut wal = Wal::new(Directory::new(), WalOptions::default()).unwrap();

    let _ref1 = wal
        .append_entry("user123", None, b"user_data".to_vec(), true)
        .unwrap();
    let _ref2 = wal
        .append_entry("order456", None, b"order_data".to_vec(), true)
        .unwrap();

    let dir = wal.into_directory();
    let mut found_meaningful_name = false;
    for i in 0..dir.file_count() {
        let name = String::from_utf8(dir.name_at(i).clone()).unwrap();
        if name.contains("user123") || name.contains("order456") || name.ends_with(".log") {
            found_meaningful_name = true;
            break;
        }
    }
    assert!(
        found_meaningful_name,
        "Should create files with meaningful names"
    );
}

#[test]
fn test_header_functionality() {
    let mut wal = Wal::new(Directory::new(), WalOptions::default()).unwrap();

    let header_data = b"metadata:important".to_vec();
    let content_data = b"actual content".to_vec();
    let _ref1 = wal
        .append_entry(
            "test_key",
            Some(header_data.clone()),
            content_data.clone(),
            true,
        )
        .unwrap();

    let _ref2 = wal
        .append_entry("test_key2", None, content_data.clone(), true)
        .unwrap();

    let large_header = vec![1u8; 1000];
    let _ref3 = wal
        .append_entry("test_key3", Some(large_header), content_data.clone(), true)
        .unwrap();

    let max_header = vec![2u8; 65535];
    let _ref4 = wal
        .append_entry("test_key4", Some(max_header), content_data.clone(), true)
        .unwrap();

    let oversized_header = vec![3u8; 65536];
    let result = wal.append_entry(
        "test_key5",
        Some(oversized_header),
        content_data.clone(),
        true,
    );
    assert!(result.is_err());
    assert!(matches!(
        result.unwrap_err(),
        WalError::HeaderTooLarge {
            size: 65536,
            max: 65535
        }
    ));

    let records: Vec<Vec<u8>> = wal.enumerate_records("test_key");
    assert_eq!(records.len(), 1);
    assert_eq!(records[0], content_data);

    wal.shutdown().unwrap();
}
