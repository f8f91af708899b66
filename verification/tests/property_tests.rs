//! Scenario and boundary tests: round trips, rotation, compaction,
//! the documented key hash, and each error kind.

use nano_wal::{Directory, EntryRef, Wal, WalError, WalOptions};

#[test]
fn test_basic_round_trip() {
    let mut wal = Wal::new(Directory::new(), WalOptions::default()).unwrap();
    let r = wal.append_entry("k", None, b"hello".to_vec(), true).unwrap();
    assert_eq!(wal.read_entry_at(r).unwrap(), b"hello".to_vec());
    let records = wal.enumerate_records("k");
    assert_eq!(records, vec![b"hello".to_vec()]);
    let keys = wal.enumerate_keys();
    assert_eq!(keys, vec!["k".to_string()]);
}

#[test]
fn test_three_records_one_segment() {
    let mut wal = Wal::new(Directory::new(), WalOptions::default()).unwrap();
    wal.append_entry("k", None, b"1".to_vec(), false).unwrap();
    wal.append_entry("k", None, b"2".to_vec(), false).unwrap();
    wal.append_entry("k", None, b"3".to_vec(), false).unwrap();
    let records = wal.enumerate_records("k");
    assert_eq!(records, vec![b"1".to_vec(), b"2".to_vec(), b"3".to_vec()]);
    assert_eq!(wal.active_segment_count(), 1);
}

#[test]
fn test_rotation_two_segments_in_order() {
    // retention 2 s over 2 segments: each segment lives one second
    let mut wal = Wal::new(
        Directory::new(),
        WalOptions::default().retention(2).segments_per_retention_period(2),
    )
    .unwrap();
    wal.append_entry_at("k", None, b"a".to_vec(), true, 100).unwrap();
    // past the first segment's expiration: a new segment is opened
    wal.append_entry_at("k", None, b"b".to_vec(), true, 102).unwrap();

    let records = wal.enumerate_records("k");
    assert_eq!(records, vec![b"a".to_vec(), b"b".to_vec()]);

    let dir = wal.into_directory();
    assert_eq!(dir.file_count(), 2);
}

#[test]
fn test_reopen_returns_same_records() {
    let mut wal = Wal::new(Directory::new(), WalOptions::default()).unwrap();
    wal.append_entry("k1", None, b"v1".to_vec(), true).unwrap();
    // dropped without a shutdown
    let dir = wal.into_directory();

    let wal2 = Wal::new(dir, WalOptions::default()).unwrap();
    assert_eq!(wal2.enumerate_records("k1"), vec![b"v1".to_vec()]);
}

#[test]
fn test_sequence_continues_after_reopen() {
    let mut wal = Wal::new(Directory::new(), WalOptions::default()).unwrap();
    let r1 = wal.append_entry("k", None, b"x".to_vec(), true).unwrap();
    assert_eq!(r1.sequence_number, 1);
    let dir = wal.into_directory();

    // force a new segment on reopen: the counter must move past 1
    let mut wal2 = Wal::new(dir, WalOptions::default().retention(2).segments_per_retention_period(2)).unwrap();
    let r2 = wal2.append_entry("k", None, b"y".to_vec(), true).unwrap();
    assert_eq!(r2.sequence_number, 2);
    assert_eq!(wal2.read_entry_at(r1).unwrap(), b"x".to_vec());
    assert_eq!(wal2.read_entry_at(r2).unwrap(), b"y".to_vec());
}

#[test]
fn test_compaction_removes_expired_segments() {
    let mut wal = Wal::new(
        Directory::new(),
        WalOptions::default().retention(2).segments_per_retention_period(2),
    )
    .unwrap();
    wal.append_entry_at("k", None, b"old".to_vec(), true, 100).unwrap();
    // three seconds later everything for k has expired
    wal.compact_at(103).unwrap();
    assert_eq!(wal.enumerate_records("k").len(), 0);
    let dir = wal.into_directory();
    assert_eq!(dir.file_count(), 0);
}

#[test]
fn test_compaction_twice_is_no_op() {
    let mut wal = Wal::new(
        Directory::new(),
        WalOptions::default().retention(2).segments_per_retention_period(2),
    )
    .unwrap();
    wal.append_entry_at("old", None, b"gone".to_vec(), true, 100).unwrap();
    wal.append_entry_at("new", None, b"kept".to_vec(), true, 103).unwrap();

    wal.compact_at(103).unwrap();
    let files_after_first = wal.into_directory();
    let count_first = files_after_first.file_count();

    let mut wal = Wal::new(files_after_first, WalOptions::default()).unwrap();
    wal.compact_at(103).unwrap();
    let files_after_second = wal.into_directory();
    assert_eq!(files_after_second.file_count(), count_first);
}

#[test]
fn test_compaction_keeps_unexpired_segments() {
    let mut wal = Wal::new(
        Directory::new(),
        WalOptions::default().retention(1000).segments_per_retention_period(2),
    )
    .unwrap();
    wal.append_entry_at("k", None, b"fresh".to_vec(), true, 100).unwrap();
    wal.compact_at(101).unwrap();
    assert_eq!(wal.enumerate_records("k"), vec![b"fresh".to_vec()]);
}

#[test]
fn test_empty_content_round_trips() {
    let mut wal = Wal::new(Directory::new(), WalOptions::default()).unwrap();
    let r = wal.append_entry("k", None, Vec::new(), true).unwrap();
    assert_eq!(wal.read_entry_at(r).unwrap(), Vec::<u8>::new());
    let dir = wal.into_directory();
    let wal2 = Wal::new(dir, WalOptions::default()).unwrap();
    assert_eq!(wal2.enumerate_records("k"), vec![Vec::<u8>::new()]);
}

#[test]
fn test_header_boundary() {
    let mut wal = Wal::new(Directory::new(), WalOptions::default()).unwrap();
    // the largest accepted header
    let r = wal
        .append_entry("k", Some(vec![7u8; 65535]), b"c".to_vec(), true)
        .unwrap();
    assert_eq!(wal.read_entry_at(r).unwrap(), b"c".to_vec());

    // one byte more is rejected before anything is written
    let dir_before = wal.simulate_crash();
    let count_before = dir_before.file_count();
    let err = wal
        .append_entry("fresh_key", Some(vec![7u8; 65536]), b"c".to_vec(), true)
        .unwrap_err();
    assert!(matches!(
        err,
        WalError::HeaderTooLarge {
            size: 65536,
            max: 65535
        }
    ));
    let dir_after = wal.into_directory();
    assert_eq!(dir_after.file_count(), count_before);
}

#[test]
fn test_zero_options_rejected() {
    assert!(matches!(
        Wal::new(Directory::new(), WalOptions::default().retention(0)),
        Err(WalError::InvalidConfig(_))
    ));
    assert!(matches!(
        Wal::new(
            Directory::new(),
            WalOptions::default().segments_per_retention_period(0)
        ),
        Err(WalError::InvalidConfig(_))
    ));
    assert!(WalOptions::default().validate().is_ok());
    assert!(WalOptions::with_retention(0).validate().is_err());
    assert!(WalOptions::with_segments_per_retention_period(0).validate().is_err());
}

#[test]
fn test_key_hash_is_stable_fnv1a() {
    // FNV-1a with the standard 64-bit offset basis and prime
    let mut wal = Wal::new(Directory::new(), WalOptions::default()).unwrap();
    let r = wal.append_entry("k", None, b"x".to_vec(), true).unwrap();
    assert_eq!(r.key_hash, 12638198195671924106u64);
}

#[test]
fn test_segment_file_name_shape() {
    let mut wal = Wal::new(Directory::new(), WalOptions::default()).unwrap();
    wal.append_entry("k", None, b"x".to_vec(), true).unwrap();
    let dir = wal.into_directory();
    assert_eq!(dir.file_count(), 1);
    let name = String::from_utf8(dir.name_at(0).clone()).unwrap();
    assert_eq!(name, "k-12638198195671924106-0001.log");
}

#[test]
fn test_corrupted_record_signature() {
    let mut wal = Wal::new(Directory::new(), WalOptions::default()).unwrap();
    let r = wal.append_entry("k", None, b"payload".to_vec(), true).unwrap();
    let dir = wal.into_directory();

    // overwrite the record signature inside the segment file
    let name = dir.name_at(0).clone();
    let mut data = dir.data_at(0).clone();
    let header_len = 32 + "k".len();
    for b in data.iter_mut().skip(header_len).take(6) {
        *b = 0;
    }
    let mut tampered = Directory::new();
    tampered.add_file_bytes(name, data);

    let wal2 = Wal::new(tampered, WalOptions::default()).unwrap();
    assert!(matches!(
        wal2.read_entry_at(r),
        Err(WalError::CorruptedData(_))
    ));
    // the tolerant enumeration stops cleanly instead
    assert_eq!(wal2.enumerate_records("k").len(), 0);
}

#[test]
fn test_truncated_record_read_fails() {
    let mut wal = Wal::new(Directory::new(), WalOptions::default()).unwrap();
    let r = wal.append_entry("k", None, b"payload".to_vec(), true).unwrap();

    // a reference past the end of the file reads short
    let past_end = EntryRef {
        key_hash: r.key_hash,
        sequence_number: r.sequence_number,
        offset: 1_000_000,
    };
    assert!(matches!(wal.read_entry_at(past_end), Err(WalError::Io(_))));
}

#[test]
fn test_read_is_repeatable() {
    let mut wal = Wal::new(Directory::new(), WalOptions::default()).unwrap();
    let r = wal.append_entry("k", None, b"same".to_vec(), true).unwrap();
    let first = wal.read_entry_at(r).unwrap();
    let second = wal.read_entry_at(r).unwrap();
    assert_eq!(first, second);
    assert_eq!(wal.enumerate_records("k"), vec![b"same".to_vec()]);
}

#[test]
fn test_append_batch_reads_back() {
    let mut wal = Wal::new(Directory::new(), WalOptions::default()).unwrap();
    let entries = vec![
        ("key1", None, b"data1".to_vec()),
        ("key2", Some(b"meta".to_vec()), b"data2".to_vec()),
        ("key1", None, b"data3".to_vec()),
    ];
    let refs = wal.append_batch(entries, true).unwrap();
    assert_eq!(refs.len(), 3);
    assert_eq!(wal.read_entry_at(refs[0]).unwrap(), b"data1".to_vec());
    assert_eq!(wal.read_entry_at(refs[1]).unwrap(), b"data2".to_vec());
    assert_eq!(wal.read_entry_at(refs[2]).unwrap(), b"data3".to_vec());
    assert_eq!(
        wal.enumerate_records("key1"),
        vec![b"data1".to_vec(), b"data3".to_vec()]
    );

    // a durable batch survives a crash
    let dir = wal.simulate_crash();
    let wal2 = Wal::new(dir, WalOptions::default()).unwrap();
    assert_eq!(
        wal2.enumerate_records("key1"),
        vec![b"data1".to_vec(), b"data3".to_vec()]
    );
    assert_eq!(wal2.enumerate_records("key2"), vec![b"data2".to_vec()]);
}

#[test]
fn test_unsynced_tail_lost_in_crash() {
    let mut wal = Wal::new(Directory::new(), WalOptions::default()).unwrap();
    wal.append_entry("k", None, b"durable".to_vec(), true).unwrap();
    wal.append_entry("k", None, b"buffered".to_vec(), false).unwrap();

    let dir = wal.simulate_crash();
    let wal2 = Wal::new(dir, WalOptions::default()).unwrap();
    // the durable record survives; the buffered tail is gone
    assert_eq!(wal2.enumerate_records("k"), vec![b"durable".to_vec()]);
}

#[test]
fn test_shutdown_discards_store() {
    let mut wal = Wal::new(Directory::new(), WalOptions::default()).unwrap();
    wal.append_entry("k", None, b"x".to_vec(), true).unwrap();
    wal.shutdown().unwrap();
    assert_eq!(wal.active_segment_count(), 0);
    assert_eq!(wal.enumerate_records("k").len(), 0);
    assert_eq!(wal.enumerate_keys().len(), 0);
}

#[test]
fn test_files_ignored_by_recovery() {
    // names that do not parse are ignored by the scan and enumeration
    let mut dir = Directory::new();
    dir.add_file("notes.txt", b"not a segment".to_vec());
    dir.add_file("strange.log", b"no dashes here".to_vec());

    let mut wal = Wal::new(dir, WalOptions::default()).unwrap();
    assert_eq!(wal.enumerate_records("k").len(), 0);
    let r = wal.append_entry("k", None, b"v".to_vec(), true).unwrap();
    assert_eq!(r.sequence_number, 1);
    assert_eq!(wal.enumerate_records("k"), vec![b"v".to_vec()]);
}
