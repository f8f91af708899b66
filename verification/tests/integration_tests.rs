use nano_wal::{Directory, Wal, WalOptions};

#[test]
fn test_real_world_event_sourcing_scenario() {
    let mut wal = Wal::new(Directory::new(), WalOptions::default()).unwrap();

    let user_id = "user_12345";

    let _ref1 = wal.append_entry(
        &format!("{}:created", user_id),
        None,
        br#"{"event":"UserCreated","user_id":"user_12345","email":"user@example.com","timestamp":"2024-01-01T00:00:00Z"}"#.to_vec(),
        true,
    ).unwrap();

    let _ref2 = wal.append_entry(
        &format!("{}:profile_updated", user_id),
        None,
        br#"{"event":"ProfileUpdated","user_id":"user_12345","new_name":"John Doe","timestamp":"2024-01-01T01:00:00Z"}"#.to_vec(),
        true,
    ).unwrap();

    let _ref3 = wal.append_entry(
        &format!("{}:purchase", user_id),
        None,
        br#"{"event":"PurchaseMade","amount":99.99,"item":"Premium Plan","timestamp":"2024-01-01T02:00:00Z"}"#.to_vec(),
        true,
    ).unwrap();

    let _ref4 = wal.append_entry(
        &format!("{}:purchase", user_id),
        None,
        br#"{"event":"PurchaseMade","amount":49.99,"item":"Add-on Feature","timestamp":"2024-01-01T03:00:00Z"}"#.to_vec(),
        true,
    ).unwrap();

    let user_events: Vec<Vec<u8>> = wal.enumerate_records(&format!("{}:created", user_id));
    assert_eq!(user_events.len(), 1);

    let profile_events: Vec<Vec<u8>> =
        wal.enumerate_records(&format!("{}:profile_updated", user_id));
    assert_eq!(profile_events.len(), 1);

    let purchase_events: Vec<Vec<u8>> = wal.enumerate_records(&format!("{}:purchase", user_id));
    assert_eq!(purchase_events.len(), 2);

    let all_keys: Vec<String> = wal.enumerate_keys();
    assert_eq!(all_keys.len(), 3);
    assert!(all_keys.contains(&format!("{}:created", user_id)));
    assert!(all_keys.contains(&format!("{}:profile_updated", user_id)));
    assert!(all_keys.contains(&format!("{}:purchase", user_id)));

    wal.shutdown().unwrap();
}

#[test]
fn test_database_wal_simulation() {
    let mut wal = Wal::new(Directory::new(), WalOptions::default()).unwrap();

    let operations = vec![
        (
            "txn_001",
            "INSERT INTO users (id, name) VALUES (1, 'Alice')",
        ),
        (
            "txn_002",
            "UPDATE users SET name = 'Alice Smith' WHERE id = 1",
        ),
        (
            "txn_003",
            "INSERT INTO orders (id, user_id, amount) VALUES (1, 1, 100.0)",
        ),
        ("txn_004", "DELETE FROM users WHERE id = 1"),
        ("txn_005", "INSERT INTO users (id, name) VALUES (2, 'Bob')"),
    ];

    for (txn_id, sql) in operations {
        let _ref = wal.log_entry(txn_id, None, sql.as_bytes().to_vec()).unwrap();
    }

    assert_eq!(wal.active_segment_count(), 5);

    let txn_001: Vec<Vec<u8>> = wal.enumerate_records("txn_001");
    assert_eq!(txn_001.len(), 1);
    assert_eq!(
        String::from_utf8_lossy(&txn_001[0]),
        "INSERT INTO users (id, name) VALUES (1, 'Alice')"
    );

    let txn_004: Vec<Vec<u8>> = wal.enumerate_records("txn_004");
    assert_eq!(txn_004.len(), 1);
    assert_eq!(
        String::from_utf8_lossy(&txn_004[0]),
        "DELETE FROM users WHERE id = 1"
    );

    wal.shutdown().unwrap();
}

#[test]
fn test_message_queue_persistence() {
    let mut wal = Wal::new(Directory::new(), WalOptions::default()).unwrap();

    let topics = vec!["orders", "payments", "notifications", "analytics"];

    for topic in &topics {
        for i in 0..10 {
            let message = format!(
                r#"{{"topic":"{}","message_id":{},"payload":"data_{}_{}"}}"#,
                topic, i, topic, i
            );
            let _ref = wal
                .append_entry(*topic, None, message.into_bytes(), i % 3 == 0)
                .unwrap();
        }
    }

    for topic in &topics {
        let messages: Vec<Vec<u8>> = wal.enumerate_records(*topic);
        assert_eq!(
            messages.len(),
            10,
            "Topic {} should have 10 messages",
            topic
        );
    }

    assert_eq!(wal.active_segment_count(), 4);

    let all_topics: Vec<String> = wal.enumerate_keys();
    assert_eq!(all_topics.len(), 4);
    for topic in &topics {
        assert!(all_topics.contains(&topic.to_string()));
    }

    wal.shutdown().unwrap();
}

#[test]
fn test_audit_log_with_timestamps() {
    let mut wal = Wal::new(Directory::new(), WalOptions::default()).unwrap();

    let events = vec![
        (
            "login_success",
            r#"{"user":"alice","action":"login","success":true,"ip":"192.168.1.1"}"#,
        ),
        (
            "login_failure",
            r#"{"user":"bob","action":"login","success":false,"ip":"192.168.1.2"}"#,
        ),
        (
            "data_access",
            r#"{"user":"alice","action":"data_access","resource":"/api/sensitive","method":"GET"}"#,
        ),
        (
            "privilege_escalation",
            r#"{"user":"admin","action":"privilege_grant","target":"alice","role":"moderator"}"#,
        ),
        (
            "data_modification",
            r#"{"user":"alice","action":"data_update","resource":"/api/users/123","changes":["email"]}"#,
        ),
    ];

    for (event_type, event_data) in events {
        let _ref = wal
            .log_entry(event_type, None, event_data.as_bytes().to_vec())
            .unwrap();
    }

    let login_failures: Vec<Vec<u8>> = wal.enumerate_records("login_failure");
    assert_eq!(login_failures.len(), 1);

    let data_accesses: Vec<Vec<u8>> = wal.enumerate_records("data_access");
    assert_eq!(data_accesses.len(), 1);

    let event_types: Vec<String> = wal.enumerate_keys();
    assert_eq!(event_types.len(), 5);

    wal.shutdown().unwrap();
}

#[test]
fn test_cache_warming_scenario() {
    let mut wal = Wal::new(Directory::new(), WalOptions::default()).unwrap();

    let cache_entries = vec![
        (
            "user:123",
            r#"{"id":123,"name":"Alice","email":"alice@example.com"}"#,
        ),
        (
            "user:456",
            r#"{"id":456,"name":"Bob","email":"bob@example.com"}"#,
        ),
        (
            "session:abc123",
            r#"{"session_id":"abc123","user_id":123,"expires_at":"2024-12-31T23:59:59Z"}"#,
        ),
        (
            "config:feature_flags",
            r#"{"dark_mode":true,"new_ui":false,"beta_features":true}"#,
        ),
        (
            "metrics:daily",
            r#"{"date":"2024-01-01","active_users":1500,"revenue":25000}"#,
        ),
    ];

    for (cache_key, cache_value) in cache_entries {
        let _ref = wal
            .append_entry(cache_key, None, cache_value.as_bytes().to_vec(), true)
            .unwrap();
    }

    let _ref1 = wal
        .append_entry(
            "user:123",
            None,
            br#"{"id":123,"name":"Alice Smith","email":"alice.smith@example.com"}"#.to_vec(),
            true,
        )
        .unwrap();
    let _ref2 = wal
        .append_entry(
            "config:feature_flags",
            None,
            br#"{"dark_mode":true,"new_ui":true,"beta_features":true}"#.to_vec(),
            true,
        )
        .unwrap();

    let user_123_entries: Vec<Vec<u8>> = wal.enumerate_records("user:123");
    assert_eq!(user_123_entries.len(), 2);

    let config_entries: Vec<Vec<u8>> = wal.enumerate_records("config:feature_flags");
    assert_eq!(config_entries.len(), 2);

    let cache_keys: Vec<String> = wal.enumerate_keys();
    assert_eq!(cache_keys.len(), 5);

    wal.shutdown().unwrap();
}

#[test]
fn test_high_frequency_trading_logs() {
    let mut wal = Wal::new(Directory::new(), WalOptions::default()).unwrap();

    let symbols = vec!["AAPL", "GOOGL", "MSFT", "AMZN", "TSLA"];

    for round in 0..5 {
        for (i, symbol) in symbols.iter().enumerate() {
            let price = 100.0 + (round as f64 * 10.0) + (i as f64 * 5.0);
            let trade_data = format!(
                r#"{{"symbol":"{}","price":{},"volume":{},"timestamp":"2024-01-01T09:{}:00Z"}}"#,
                symbol,
                price,
                (i + 1) * 100,
                round * 10 + i
            );

            let _ref = wal
                .append_entry(
                    &format!("trades:{}", symbol),
                    None,
                    trade_data.into_bytes(),
                    round == 4,
                )
                .unwrap();
        }
    }

    for symbol in &symbols {
        let trades: Vec<Vec<u8>> = wal.enumerate_records(&format!("trades:{}", symbol));
        assert_eq!(trades.len(), 5, "Symbol {} should have 5 trades", symbol);
    }

    assert_eq!(wal.active_segment_count(), 5);

    let aapl_trades: Vec<Vec<u8>> = wal.enumerate_records("trades:AAPL");
    assert_eq!(aapl_trades.len(), 5);

    let first_trade = String::from_utf8_lossy(&aapl_trades[0]);
    assert!(first_trade.contains("AAPL"));
    assert!(first_trade.contains("100"));

    wal.shutdown().unwrap();
}

#[test]
fn test_log_file_naming_with_meaningful_keys() {
    let mut wal = Wal::new(
        Directory::new(),
        WalOptions {
            entry_retention: 20,
            segments_per_retention_period: 10,
        },
    )
    .unwrap();

    let _ref1 = wal
        .append_entry("user_events", None, b"user event data".to_vec(), true)
        .unwrap();

    let _ref2 = wal
        .append_entry("order_processing", None, b"order data".to_vec(), true)
        .unwrap();

    let _ref3 = wal
        .append_entry("payment_logs", None, b"payment data".to_vec(), true)
        .unwrap();

    let dir = wal.into_directory();
    let mut log_files: Vec<String> = Vec::new();
    for i in 0..dir.file_count() {
        let name = String::from_utf8(dir.name_at(i).clone()).unwrap();
        if name.ends_with(".log") {
            log_files.push(name);
        }
    }

    assert!(!log_files.is_empty(), "Should have .log files");

    let has_meaningful_names = log_files.iter().any(|name| {
        name.contains("user_events")
            || name.contains("order_processing")
            || name.contains("payment_logs")
            || name.matches(char::is_numeric).count() > 0
    });

    assert!(
        has_meaningful_names,
        "Log files should have meaningful names or numeric IDs"
    );
}
