use hbbs::CacheError;
use hbbs::CustomKey;
use hbbs::CustomKeyConfig;
use hbbs::CustomKeyManager;

/// 2023-11-14T22:13:20Z, comfortably before the test expiries of 2025.
const NOW: i64 = 1_700_000_000;

/// 2020-01-01T00:00:00Z as Unix-epoch seconds.
const EPOCH_2020: i64 = 1_577_836_800;

fn config_json(entries: &[(&str, &str)]) -> String {
    let items: Vec<String> = entries
        .iter()
        .map(|(k, e)| format!("{{\"key\":\"{}\",\"expiry\":\"{}\"}}", k, e))
        .collect();
    format!("{{\"keys\":[{}]}}", items.join(","))
}

#[test]
fn test_custom_key_manager() {
    let content = config_json(&[
        ("test123", "2025-12-31T23:59:59Z"),
        ("expired123", "2020-01-01T00:00:00Z"),
    ]);
    let mut manager = CustomKeyManager::new();
    manager.load_keys(&content, NOW).unwrap();

    // Valid key.
    assert!(manager.is_valid_key("test123", NOW));
    // Expired key.
    assert!(!manager.is_valid_key("expired123", NOW));
    // Non-existent key.
    assert!(!manager.is_valid_key("nonexistent", NOW));
}

#[test]
fn expired_entry_is_dropped_at_load() {
    // Source contains only an entry that expired long ago: after the load
    // it is invalid and absent from the snapshot, not merely flagged.
    let content = config_json(&[("ext1", "2020-01-01T00:00:00Z")]);
    let mut manager = CustomKeyManager::new();
    manager.load_keys(&content, NOW).unwrap();
    assert!(!manager.is_valid_key("ext1", NOW));
    assert!(manager.get_all_keys().is_empty());
}

#[test]
fn malformed_source_keeps_previous_snapshot() {
    let good = config_json(&[("alpha", "2025-06-30T12:00:00Z")]);
    let mut manager = CustomKeyManager::new();
    manager.load_keys(&good, NOW).unwrap();
    assert!(manager.is_valid_key("alpha", NOW));

    for bad in [
        "{ not json at all",
        "[1, 2, 3]",
        "{\"keys\": 17}",
        "{\"keys\": [{\"key\": \"x\"}]}",
        "{\"keys\": [{\"key\": 5, \"expiry\": \"2025-06-30T12:00:00Z\"}]}",
    ] {
        assert_eq!(manager.load_keys(bad, NOW), Err(CacheError::SourceMalformed));
        // The earlier snapshot answers exactly as before.
        assert!(manager.is_valid_key("alpha", NOW));
        assert_eq!(manager.get_all_keys(), ["alpha"]);
    }
}

#[test]
fn unparsable_expiry_is_skipped_not_fatal() {
    let content = config_json(&[
        ("good", "2025-06-30T12:00:00Z"),
        ("bad-date", "tomorrow-ish"),
        ("also-bad", "2025-06-30"),
    ]);
    let mut manager = CustomKeyManager::new();
    manager.load_keys(&content, NOW).unwrap();
    assert!(manager.is_valid_key("good", NOW));
    assert!(!manager.is_valid_key("bad-date", NOW));
    assert!(!manager.is_valid_key("also-bad", NOW));
    assert_eq!(manager.get_all_keys(), ["good"]);
}

#[test]
fn later_entry_for_same_key_wins() {
    let content = config_json(&[
        ("dup", "2025-01-01T00:00:00Z"),
        ("dup", "2026-01-01T00:00:00Z"),
    ]);
    let mut manager = CustomKeyManager::new();
    manager.load_keys(&content, NOW).unwrap();
    assert_eq!(manager.get_all_keys(), ["dup"]);
    // 2026-01-01T00:00:00Z is 1767225600; the first entry's 2025 expiry
    // (1735689600) would already be stale at a time between the two.
    assert!(manager.is_valid_key("dup", 1_750_000_000));
}

#[test]
fn reload_replaces_the_whole_snapshot() {
    let mut manager = CustomKeyManager::new();
    manager
        .load_keys(&config_json(&[("one", "2025-06-30T12:00:00Z")]), NOW)
        .unwrap();
    assert!(manager.is_valid_key("one", NOW));
    manager
        .load_keys(&config_json(&[("two", "2025-06-30T12:00:00Z")]), NOW)
        .unwrap();
    // Fully replaced, never merged.
    assert!(!manager.is_valid_key("one", NOW));
    assert!(manager.is_valid_key("two", NOW));
    assert_eq!(manager.get_all_keys(), ["two"]);
}

#[test]
fn read_time_expiry_is_strict() {
    // Load early enough that the 2020 entry is still alive, then probe the
    // exact boundary: valid one second before, invalid at the instant.
    let content = config_json(&[("ext", "2020-01-01T00:00:00Z")]);
    let mut manager = CustomKeyManager::new();
    manager.load_keys(&content, EPOCH_2020 - 100).unwrap();
    assert!(manager.is_valid_key("ext", EPOCH_2020 - 1));
    assert!(!manager.is_valid_key("ext", EPOCH_2020));
}

#[test]
fn cleanup_sweeps_entries_expired_since_load() {
    let content = config_json(&[
        ("soon", "2020-01-01T00:00:00Z"),
        ("later", "2030-01-01T00:00:00Z"),
    ]);
    let mut manager = CustomKeyManager::new();
    manager.load_keys(&content, EPOCH_2020 - 100).unwrap();
    let mut keys = manager.get_all_keys();
    keys.sort();
    assert_eq!(keys, ["later", "soon"]);

    // Time passes beyond the first expiry; the sweep drops exactly it.
    manager.cleanup_expired_keys(EPOCH_2020 + 100);
    assert_eq!(manager.get_all_keys(), ["later"]);
    assert!(!manager.is_valid_key("soon", EPOCH_2020 + 100));
    assert!(manager.is_valid_key("later", EPOCH_2020 + 100));
}

#[test]
fn key_validation_scenario() {
    // A mixed source probed at a time between the 2020 and 2025 expiries.
    let content = config_json(&[
        ("test-key-123", "2025-12-31T23:59:59Z"),
        ("expired-key-456", "2020-01-01T00:00:00Z"),
        ("valid-key-789", "2025-06-30T12:00:00Z"),
    ]);
    let mut manager = CustomKeyManager::new();
    // 2024-01-01T00:00:00Z.
    let now: i64 = 1_704_067_200;
    manager.load_keys(&content, now).unwrap();
    assert!(manager.is_valid_key("test-key-123", now));
    assert!(!manager.is_valid_key("expired-key-456", now));
    assert!(manager.is_valid_key("valid-key-789", now));
    assert!(!manager.is_valid_key("non-existent", now));
    // The sweep after cleanup still rejects the expired key.
    manager.cleanup_expired_keys(now);
    assert!(!manager.is_valid_key("expired-key-456", now));
}

#[test]
fn empty_source_loads_an_empty_snapshot() {
    let mut manager = CustomKeyManager::new();
    manager.load_keys("{\"keys\":[]}", NOW).unwrap();
    assert!(manager.get_all_keys().is_empty());
}

#[test]
fn default_config_holds_the_illustrative_entry() {
    let cfg = CustomKeyConfig::default();
    assert_eq!(cfg.keys.len(), 1);
    assert_eq!(cfg.keys[0].key, "123");
    assert_eq!(cfg.keys[0].expiry, "2025-10-19");
}

#[test]
fn config_types_roundtrip_through_load() {
    // Building the source from the config types and loading it yields the
    // same keys back.
    let cfg = CustomKeyConfig {
        keys: vec![
            CustomKey { key: "a-key".to_string(), expiry: "2030-01-01T00:00:00Z".to_string() },
            CustomKey { key: "b-key".to_string(), expiry: "2030-06-01T00:00:00+02:00".to_string() },
        ],
    };
    let entries: Vec<(&str, &str)> =
        cfg.keys.iter().map(|k| (k.key.as_str(), k.expiry.as_str())).collect();
    let content = config_json(&entries);
    let mut manager = CustomKeyManager::new();
    manager.load_keys(&content, NOW).unwrap();
    let mut keys = manager.get_all_keys();
    keys.sort();
    assert_eq!(keys, ["a-key", "b-key"]);
    assert!(manager.is_valid_key("b-key", NOW));
}
