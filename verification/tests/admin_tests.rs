use hbbs::BindOutcome;
use hbbs::CreateKeyError;
use hbbs::Database;
use hbbs::LicenceError;
use hbbs::admin;

const NOW: i64 = 1_700_000_000;

#[test]
fn ttl_options_cover_the_units() {
    assert_eq!(admin::ttl_seconds_for_option("1d"), Some(86_400));
    assert_eq!(admin::ttl_seconds_for_option("7d"), Some(604_800));
    assert_eq!(admin::ttl_seconds_for_option("2w"), Some(1_209_600));
    assert_eq!(admin::ttl_seconds_for_option("3m"), Some(7_776_000));
    assert_eq!(admin::ttl_seconds_for_option("1y"), Some(31_536_000));
    assert_eq!(admin::ttl_seconds_for_option("10d"), Some(864_000));
}

#[test]
fn ttl_permanent_words_give_none() {
    assert_eq!(admin::ttl_seconds_for_option("permanent"), None);
    assert_eq!(admin::ttl_seconds_for_option("forever"), None);
    assert_eq!(admin::ttl_seconds_for_option("永久"), None);
    assert_eq!(admin::ttl_seconds_for_option("  PERMANENT  "), None);
}

#[test]
fn ttl_is_trimmed_and_lowercased() {
    assert_eq!(admin::ttl_seconds_for_option("  10D "), Some(864_000));
    assert_eq!(admin::ttl_seconds_for_option("1Y"), Some(31_536_000));
}

#[test]
fn ttl_odd_inputs_count_zero() {
    assert_eq!(admin::ttl_seconds_for_option(""), Some(0));
    assert_eq!(admin::ttl_seconds_for_option("x"), Some(0));
    assert_eq!(admin::ttl_seconds_for_option("10q"), Some(0));
    assert_eq!(admin::ttl_seconds_for_option("-5d"), Some(0));
    assert_eq!(admin::ttl_seconds_for_option("d"), Some(0));
}

#[test]
fn ttl_saturates_on_huge_counts() {
    assert_eq!(
        admin::ttl_seconds_for_option("999999999999999999d"),
        Some(i64::MAX)
    );
}

#[test]
fn parse_i64_matches_standard_parsing() {
    assert_eq!(admin::parse_i64("123"), Some(123));
    assert_eq!(admin::parse_i64("+42"), Some(42));
    assert_eq!(admin::parse_i64("-7"), Some(-7));
    assert_eq!(admin::parse_i64("0"), Some(0));
    assert_eq!(admin::parse_i64("9223372036854775807"), Some(i64::MAX));
    assert_eq!(admin::parse_i64("-9223372036854775808"), Some(i64::MIN));
    assert_eq!(admin::parse_i64(""), None);
    assert_eq!(admin::parse_i64("+"), None);
    assert_eq!(admin::parse_i64("-"), None);
    assert_eq!(admin::parse_i64("12a"), None);
    assert_eq!(admin::parse_i64(" 12"), None);
    assert_eq!(admin::parse_i64("9223372036854775808"), None);
    assert_eq!(admin::parse_i64("-9223372036854775809"), None);
    assert_eq!(admin::parse_i64("99999999999999999999999"), None);
}

#[test]
fn key_format_is_32_hex_digits() {
    assert!(admin::is_valid_key_format("0123456789abcdef0123456789ABCDEF"));
    assert!(!admin::is_valid_key_format("0123456789abcdef0123456789ABCDE"));
    assert!(!admin::is_valid_key_format("0123456789abcdef0123456789ABCDEF0"));
    assert!(!admin::is_valid_key_format("0123456789abcdef0123456789ABCDEg"));
    assert!(!admin::is_valid_key_format(""));
}

#[test]
fn create_key_with_explicit_key_and_duration() {
    let mut db = Database::new();
    let key = "00112233445566778899aabbccddeeff";
    let got = admin::create_key(
        &mut db,
        Some(key.to_string()),
        Some("1d"),
        Some("the note"),
        Some(2),
        NOW,
    )
    .unwrap();
    assert_eq!(got, key);
    let rec = db.get_key(key).unwrap();
    assert_eq!(rec.registered_at, NOW);
    assert_eq!(rec.expired_at, NOW + 86_400);
    assert_eq!(rec.active, 1);
    assert_eq!(rec.note.as_deref(), Some("the note"));
    assert_eq!(rec.max_bind_ids, 2);
}

#[test]
fn create_key_defaults_and_clamps() {
    let mut db = Database::new();
    let key = "00112233445566778899aabbccddeeff";
    admin::create_key(&mut db, Some(key.to_string()), None, None, Some(5000), NOW).unwrap();
    let rec = db.get_key(key).unwrap();
    // No duration option: thirty days.
    assert_eq!(rec.expired_at, NOW + 30 * 86_400);
    assert_eq!(rec.max_bind_ids, 1000);
    assert!(rec.note.is_none());
}

#[test]
fn create_key_permanent_duration() {
    let mut db = Database::new();
    let key = "00112233445566778899aabbccddeeff";
    admin::create_key(&mut db, Some(key.to_string()), Some("permanent"), None, None, NOW)
        .unwrap();
    let rec = db.get_key(key).unwrap();
    assert_eq!(rec.expired_at, i64::MAX / 2);
    assert_eq!(rec.max_bind_ids, 3);
}

#[test]
fn create_key_rejections() {
    let mut db = Database::new();
    assert_eq!(
        admin::create_key(&mut db, Some("   ".to_string()), None, None, None, NOW),
        Err(CreateKeyError::EmptyKey)
    );
    assert_eq!(
        admin::create_key(&mut db, Some("short".to_string()), None, None, None, NOW),
        Err(CreateKeyError::InvalidFormat)
    );
    let key = "00112233445566778899aabbccddeeff";
    admin::create_key(&mut db, Some(key.to_string()), None, None, None, NOW).unwrap();
    assert_eq!(
        admin::create_key(&mut db, Some(key.to_string()), None, None, None, NOW),
        Err(CreateKeyError::DuplicateKey)
    );
}

#[test]
fn create_key_generates_a_well_formed_key() {
    let mut db = Database::new();
    let key = admin::create_key(&mut db, None, Some("1y"), None, None, NOW).unwrap();
    assert!(admin::is_valid_key_format(&key));
    assert!(db.key_exists(&key));
    assert!(db.is_key_valid(&key, NOW));
    // A second generated key differs and coexists.
    let key2 = admin::create_key(&mut db, None, Some("1y"), None, None, NOW).unwrap();
    assert_ne!(key, key2);
    assert_eq!(db.count_keys(), 2);
}

#[test]
fn created_keys_admit_bindings() {
    let mut db = Database::new();
    let key = admin::create_key(&mut db, None, Some("1d"), None, Some(1), NOW).unwrap();
    assert_eq!(db.try_bind(&key, "a", NOW), BindOutcome::Admitted);
}

#[test]
fn extend_key_by_option() {
    let mut db = Database::new();
    let key = "00112233445566778899aabbccddeeff";
    db.insert_key(key, NOW + 100, true, None, 3, NOW).unwrap();
    admin::extend_key(&mut db, key, "1d", NOW).unwrap();
    assert_eq!(db.get_key(key).unwrap().expired_at, NOW + 100 + 86_400);
    assert_eq!(
        admin::extend_key(&mut db, "missing", "1d", NOW),
        Err(LicenceError::NotFound)
    );
}

#[test]
fn extend_key_permanent_lands_near_half_range() {
    let mut db = Database::new();
    let key = "00112233445566778899aabbccddeeff";
    db.insert_key(key, NOW + 100, true, None, 3, NOW).unwrap();
    admin::extend_key(&mut db, key, "permanent", NOW).unwrap();
    // The old expiry plus what is missing from `now` to half the range.
    assert_eq!(
        db.get_key(key).unwrap().expired_at,
        NOW + 100 + (i64::MAX / 2 - NOW)
    );
}

#[test]
fn admin_listing_searches_and_pages() {
    let mut db = Database::new();
    db.insert_key("aaa00000000000000000000000000000", 10_000, true, None, 3, 100).unwrap();
    db.insert_key("bbb00000000000000000000000000000", 10_000, true, None, 3, 200).unwrap();
    db.insert_key("ccc00000000000000000000000000000", 10_000, true, None, 3, 300).unwrap();

    // Search by exact key, trimmed.
    let (total, items) =
        admin::list_keys(&db, None, None, Some("  bbb00000000000000000000000000000 "));
    assert_eq!(total, 1);
    assert_eq!(items.len(), 1);
    assert_eq!(items[0].licence_key, "bbb00000000000000000000000000000");

    let (total, items) = admin::list_keys(&db, None, None, Some("zzz"));
    assert_eq!(total, 0);
    assert!(items.is_empty());

    // A blank search key falls back to paging.
    let (total, items) = admin::list_keys(&db, Some(1), Some(1), Some("  "));
    assert_eq!(total, 3);
    assert_eq!(items.len(), 1);
    assert_eq!(items[0].licence_key, "bbb00000000000000000000000000000");

    // Defaults: offset 0, limit 20.
    let (total, items) = admin::list_keys(&db, None, None, None);
    assert_eq!(total, 3);
    assert_eq!(items.len(), 3);
    assert_eq!(items[0].licence_key, "ccc00000000000000000000000000000");

    // The limit is clamped up to 1.
    let (_, items) = admin::list_keys(&db, Some(0), Some(0), None);
    assert_eq!(items.len(), 1);
}
