use nano_wal::{Directory, EntryRef, Wal, WalError, WalOptions};

#[test]
fn test_append_returns_entry_ref() {
    let mut wal = Wal::new(Directory::new(), WalOptions::default()).unwrap();

    let entry_ref = wal
        .append_entry("test_key", None, b"test_value".to_vec(), true)
        .unwrap();

    assert!(entry_ref.key_hash > 0);
    assert_eq!(entry_ref.sequence_number, 1);

    wal.shutdown().unwrap();
}

#[test]
fn test_log_entry_returns_entry_ref() {
    let mut wal = Wal::new(Directory::new(), WalOptions::default()).unwrap();

    let entry_ref = wal
        .log_entry("test_key", None, b"test_value".to_vec())
        .unwrap();

    assert!(entry_ref.key_hash > 0);
    assert_eq!(entry_ref.sequence_number, 1);

    wal.shutdown().unwrap();
}

#[test]
fn test_read_entry_at_valid_reference() {
    let mut wal = Wal::new(Directory::new(), WalOptions::default()).unwrap();

    let test_data = b"hello world".to_vec();
    let entry_ref = wal
        .append_entry("test_key", None, test_data.clone(), true)
        .unwrap();

    let retrieved_data = wal.read_entry_at(entry_ref).unwrap();
    assert_eq!(retrieved_data, test_data);

    wal.shutdown().unwrap();
}

#[test]
fn test_read_entry_at_multiple_entries() {
    let mut wal = Wal::new(Directory::new(), WalOptions::default()).unwrap();

    let data1 = b"first entry".to_vec();
    let data2 = b"second entry".to_vec();
    let data3 = b"third entry".to_vec();

    let ref1 = wal.append_entry("key1", None, data1.clone(), true).unwrap();
    let ref2 = wal.append_entry("key2", None, data2.clone(), true).unwrap();
    let ref3 = wal.append_entry("key3", None, data3.clone(), true).unwrap();

    assert_eq!(wal.read_entry_at(ref3).unwrap(), data3);
    assert_eq!(wal.read_entry_at(ref1).unwrap(), data1);
    assert_eq!(wal.read_entry_at(ref2).unwrap(), data2);

    wal.shutdown().unwrap();
}

#[test]
fn test_read_entry_at_after_restart() {
    let entry_ref;
    let test_data = b"persistent data".to_vec();
    let dir;

    {
        let mut wal = Wal::new(Directory::new(), WalOptions::default()).unwrap();
        entry_ref = wal
            .append_entry("persistent_key", None, test_data.clone(), true)
            .unwrap();
        dir = wal.into_directory();
    }

    {
        let wal = Wal::new(dir, WalOptions::default()).unwrap();
        let retrieved_data = wal.read_entry_at(entry_ref).unwrap();
        assert_eq!(retrieved_data, test_data);
    }
}

#[test]
fn test_read_entry_at_invalid_signature() {
    let mut wal = Wal::new(Directory::new(), WalOptions::default()).unwrap();

    let _entry_ref = wal
        .append_entry("test_key", None, b"test_data".to_vec(), true)
        .unwrap();

    let invalid_ref = EntryRef {
        key_hash: 99999,
        sequence_number: 99999,
        offset: 0,
    };

    let result = wal.read_entry_at(invalid_ref);
    assert!(result.is_err());
    assert!(matches!(result.unwrap_err(), WalError::EntryNotFound(_)));

    wal.shutdown().unwrap();
}

#[test]
fn test_read_entry_at_nonexistent_segment() {
    let wal = Wal::new(Directory::new(), WalOptions::default()).unwrap();

    let invalid_ref = EntryRef {
        key_hash: 999999,
        sequence_number: 999999,
        offset: 0,
    };

    let result = wal.read_entry_at(invalid_ref);
    assert!(result.is_err());
    assert!(matches!(result.unwrap_err(), WalError::EntryNotFound(_)));

    drop(wal);
}

#[test]
fn test_read_entry_at_with_different_key_types() {
    let mut wal = Wal::new(Directory::new(), WalOptions::default()).unwrap();

    let string_data = b"string key data".to_vec();
    let number_data = b"number key data".to_vec();

    let string_ref = wal
        .append_entry("string_key", None, string_data.clone(), true)
        .unwrap();
    let number_ref = wal
        .append_entry("12345", None, number_data.clone(), true)
        .unwrap();

    assert_eq!(wal.read_entry_at(string_ref).unwrap(), string_data);
    assert_eq!(wal.read_entry_at(number_ref).unwrap(), number_data);

    wal.shutdown().unwrap();
}

#[test]
fn test_read_entry_at_large_content() {
    let mut wal = Wal::new(Directory::new(), WalOptions::default()).unwrap();

    let large_data = vec![42u8; 1024 * 100];
    let entry_ref = wal
        .append_entry("large_key", None, large_data.clone(), true)
        .unwrap();

    let retrieved_data = wal.read_entry_at(entry_ref).unwrap();
    assert_eq!(retrieved_data, large_data);

    wal.shutdown().unwrap();
}

#[test]
fn test_read_entry_at_empty_content() {
    let mut wal = Wal::new(Directory::new(), WalOptions::default()).unwrap();

    let empty_data: Vec<u8> = Vec::new();
    let entry_ref = wal
        .append_entry("empty_key", None, empty_data.clone(), true)
        .unwrap();

    let retrieved_data = wal.read_entry_at(entry_ref).unwrap();
    assert_eq!(retrieved_data, empty_data);

    wal.shutdown().unwrap();
}

#[test]
fn test_entry_ref_across_segment_rotation() {
    let mut wal = Wal::new(
        Directory::new(),
        WalOptions::default().retention(10).segments_per_retention_period(10),
    )
    .unwrap();

    let data1 = b"data in first segment that is long enough to trigger rotation".to_vec();
    let ref1 = wal
        .append_entry_at("key1", None, data1.clone(), true, 1000)
        .unwrap();

    // a later append, past the first segment's expiration, rotates
    let _extra_data = wal
        .append_entry_at(
            "key1",
            None,
            b"extra data to trigger rotation".to_vec(),
            true,
            1002,
        )
        .unwrap();

    let data2 = b"data in second segment".to_vec();
    let ref2 = wal
        .append_entry_at("key2", None, data2.clone(), true, 1002)
        .unwrap();

    assert_eq!(wal.read_entry_at(ref1).unwrap(), data1);
    assert_eq!(wal.read_entry_at(ref2).unwrap(), data2);

    assert_ne!(ref1.key_hash, ref2.key_hash);

    wal.shutdown().unwrap();
}

#[test]
fn test_entry_ref_serialization_compatibility() {
    let mut wal = Wal::new(Directory::new(), WalOptions::default()).unwrap();

    let test_data = b"serialization test".to_vec();
    let entry_ref = wal
        .append_entry("serial_key", None, test_data.clone(), true)
        .unwrap();

    let copied_ref = entry_ref;
    assert_eq!(entry_ref, copied_ref);
    assert_eq!(entry_ref.key_hash, copied_ref.key_hash);
    assert_eq!(entry_ref.sequence_number, copied_ref.sequence_number);
    assert_eq!(entry_ref.offset, copied_ref.offset);

    assert_eq!(wal.read_entry_at(copied_ref).unwrap(), test_data);

    wal.shutdown().unwrap();
}

#[test]
fn test_random_access_performance_characteristics() {
    let mut wal = Wal::new(Directory::new(), WalOptions::default()).unwrap();

    let mut refs = Vec::new();
    for i in 0..100 {
        let data = format!("entry_{}", i).into_bytes();
        let entry_ref = wal
            .append_entry(&format!("key_{}", i), None, data, false)
            .unwrap();
        refs.push(entry_ref);
    }

    wal.sync().unwrap();

    for &entry_ref in refs.iter().rev() {
        let data = wal.read_entry_at(entry_ref).unwrap();
        assert!(String::from_utf8_lossy(&data).starts_with("entry_"));
    }

    wal.shutdown().unwrap();
}
