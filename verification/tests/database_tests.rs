use hbbs::BindOutcome;
use hbbs::Database;
use hbbs::LicenceError;
use hbbs::PeerError;
use hbbs::RejectReason;

const NOW: i64 = 1_700_000_000;

fn fresh_db_with(key: &str, expired_at: i64, active: bool, max_bind: i32) -> Database {
    let mut db = Database::new();
    db.insert_key(key, expired_at, active, None, max_bind, NOW).unwrap();
    db
}

#[test]
fn quota_scenario_two_slots() {
    // Issue K1 with max_bind_ids = 2, then bind a, b, c, a.
    let mut db = fresh_db_with("K1", NOW + 1000, true, 2);
    assert_eq!(db.try_bind("K1", "a", NOW), BindOutcome::Admitted);
    assert_eq!(db.try_bind("K1", "b", NOW), BindOutcome::Admitted);
    assert_eq!(
        db.try_bind("K1", "c", NOW),
        BindOutcome::Rejected(RejectReason::QuotaExceeded)
    );
    assert_eq!(db.try_bind("K1", "a", NOW), BindOutcome::AlreadyBound);
}

#[test]
fn quota_exact_counts_any_order() {
    // max = 3, five distinct peers: exactly 3 admissions, 2 quota
    // rejections, in either arrival order.
    for order in [
        ["p1", "p2", "p3", "p4", "p5"],
        ["p5", "p3", "p1", "p4", "p2"],
    ] {
        let mut db = fresh_db_with("K", NOW + 1000, true, 3);
        let mut admitted = 0;
        let mut rejected = 0;
        for p in order {
            match db.try_bind("K", p, NOW) {
                BindOutcome::Admitted => admitted += 1,
                BindOutcome::Rejected(RejectReason::QuotaExceeded) => rejected += 1,
                other => panic!("unexpected outcome {:?}", other),
            }
        }
        assert_eq!(admitted, 3);
        assert_eq!(rejected, 2);
    }
}

#[test]
fn rebinding_is_idempotent() {
    let mut db = fresh_db_with("K", NOW + 1000, true, 1);
    assert_eq!(db.try_bind("K", "dev", NOW), BindOutcome::Admitted);
    for _ in 0..5 {
        assert_eq!(db.try_bind("K", "dev", NOW + 7), BindOutcome::AlreadyBound);
    }
    // The one slot stays consumed, no extra rows appeared.
    assert_eq!(
        db.try_bind("K", "other", NOW),
        BindOutcome::Rejected(RejectReason::QuotaExceeded)
    );
}

#[test]
fn expiry_boundary_is_strict() {
    let db = fresh_db_with("K", NOW, true, 3);
    assert!(!db.is_key_valid("K", NOW));
    assert!(db.is_key_valid("K", NOW - 1));
    let mut db2 = fresh_db_with("K", NOW, true, 3);
    assert_eq!(
        db2.try_bind("K", "a", NOW),
        BindOutcome::Rejected(RejectReason::KeyInvalid)
    );
}

#[test]
fn inactive_key_is_invalid() {
    let db = fresh_db_with("K", NOW + 1000, false, 3);
    assert!(!db.is_key_valid("K", NOW));
}

#[test]
fn unknown_key_is_invalid() {
    let db = Database::new();
    assert!(!db.is_key_valid("nope", NOW));
    assert_eq!(
        Database::new().try_bind("nope", "a", NOW),
        BindOutcome::Rejected(RejectReason::KeyInvalid)
    );
}

#[test]
fn deactivation_blocks_new_peers_only() {
    let mut db = fresh_db_with("K", NOW + 1000, true, 5);
    assert_eq!(db.try_bind("K", "early", NOW), BindOutcome::Admitted);
    db.set_key_active("K", false).unwrap();
    assert_eq!(
        db.try_bind("K", "late", NOW),
        BindOutcome::Rejected(RejectReason::KeyInvalid)
    );
    // The earlier binding still stands.
    assert_eq!(db.try_bind("K", "early", NOW), BindOutcome::AlreadyBound);
    let (_valid, already, _overuse) = db.check_binding_state("K", "early", NOW);
    assert!(already);
    // Reactivating restores admission for new peers.
    db.set_key_active("K", true).unwrap();
    assert_eq!(db.try_bind("K", "late", NOW), BindOutcome::Admitted);
}

#[test]
fn duplicate_key_is_rejected() {
    let mut db = fresh_db_with("K", NOW + 1000, true, 3);
    assert_eq!(
        db.insert_key("K", NOW + 5000, true, None, 3, NOW),
        Err(LicenceError::DuplicateKey)
    );
    // The existing record is untouched.
    assert_eq!(db.get_key("K").unwrap().expired_at, NOW + 1000);
}

#[test]
fn extend_requires_existing_key() {
    let mut db = Database::new();
    assert_eq!(db.extend_key_by("ghost", 3600), Err(LicenceError::NotFound));
    db.insert_key("K", NOW + 100, true, None, 3, NOW).unwrap();
    db.extend_key_by("K", 3600).unwrap();
    assert_eq!(db.get_key("K").unwrap().expired_at, NOW + 3700);
    // A negative delta shortens the key.
    db.extend_key_by("K", -700).unwrap();
    assert_eq!(db.get_key("K").unwrap().expired_at, NOW + 3000);
}

#[test]
fn extend_saturates_at_the_top() {
    let mut db = Database::new();
    db.insert_key("K", i64::MAX - 5, true, None, 3, NOW).unwrap();
    db.extend_key_by("K", 100).unwrap();
    assert_eq!(db.get_key("K").unwrap().expired_at, i64::MAX);
}

#[test]
fn max_bind_is_clamped() {
    let mut db = fresh_db_with("K", NOW + 1000, true, 3);
    assert_eq!(db.set_key_max_bind("ghost", 5), Err(LicenceError::NotFound));
    db.set_key_max_bind("K", 0).unwrap();
    assert_eq!(db.get_key("K").unwrap().max_bind_ids, 1);
    db.set_key_max_bind("K", 5000).unwrap();
    assert_eq!(db.get_key("K").unwrap().max_bind_ids, 1000);
    db.set_key_max_bind("K", 7).unwrap();
    assert_eq!(db.get_key("K").unwrap().max_bind_ids, 7);
}

#[test]
fn raising_the_quota_reopens_admission() {
    let mut db = fresh_db_with("K", NOW + 1000, true, 1);
    assert_eq!(db.try_bind("K", "a", NOW), BindOutcome::Admitted);
    assert_eq!(
        db.try_bind("K", "b", NOW),
        BindOutcome::Rejected(RejectReason::QuotaExceeded)
    );
    db.set_key_max_bind("K", 2).unwrap();
    assert_eq!(db.try_bind("K", "b", NOW), BindOutcome::Admitted);
}

#[test]
fn check_binding_state_reports_without_mutating() {
    let mut db = fresh_db_with("K", NOW + 1000, true, 1);
    assert_eq!(db.check_binding_state("K", "a", NOW), (true, false, false));
    // The check admitted nothing: the slot is still free.
    assert_eq!(db.try_bind("K", "a", NOW), BindOutcome::Admitted);
    assert_eq!(db.check_binding_state("K", "a", NOW), (true, true, false));
    assert_eq!(db.check_binding_state("K", "b", NOW), (true, false, true));
    assert_eq!(db.check_binding_state("ghost", "a", NOW), (false, false, false));
    db.set_key_active("K", false).unwrap();
    assert_eq!(db.check_binding_state("K", "a", NOW), (false, true, false));
}

#[test]
fn listing_is_newest_first_with_paging() {
    let mut db = Database::new();
    db.insert_key("old", 10_000, true, None, 3, 100).unwrap();
    db.insert_key("mid", 10_000, true, None, 3, 200).unwrap();
    db.insert_key("new", 10_000, true, Some("hi"), 3, 300).unwrap();
    assert_eq!(db.count_keys(), 3);
    assert!(db.key_exists("mid"));
    assert!(!db.key_exists("missing"));

    let all = db.list_keys(0, 10);
    let names: Vec<&str> = all.iter().map(|k| k.licence_key.as_str()).collect();
    assert_eq!(names, ["new", "mid", "old"]);
    assert_eq!(all[0].note.as_deref(), Some("hi"));
    assert_eq!(all[0].registered_at, 300);

    let page = db.list_keys(1, 1);
    assert_eq!(page.len(), 1);
    assert_eq!(page[0].licence_key, "mid");

    assert_eq!(db.list_keys(3, 5).len(), 0);
    assert_eq!(db.list_keys(-2, 2).len(), 2);
    assert_eq!(db.list_keys(0, -1).len(), 0);
}

#[test]
fn get_key_returns_the_whole_record() {
    let mut db = Database::new();
    db.insert_key("K", 4242, false, Some("note text"), 9, 1111).unwrap();
    let rec = db.get_key("K").unwrap();
    assert_eq!(rec.licence_key, "K");
    assert_eq!(rec.registered_at, 1111);
    assert_eq!(rec.expired_at, 4242);
    assert_eq!(rec.active, 0);
    assert_eq!(rec.note.as_deref(), Some("note text"));
    assert_eq!(rec.max_bind_ids, 9);
    assert!(db.get_key("other").is_none());
}

#[test]
fn peer_registration_roundtrip() {
    let mut db = Database::new();
    let guid = db.insert_peer("dev-1", b"uuid-1", b"pk-1", "info-1").unwrap();
    assert_eq!(guid.len(), 16);
    let p = db.get_peer("dev-1").unwrap();
    assert_eq!(p.guid, guid);
    assert_eq!(p.id, "dev-1");
    assert_eq!(p.uuid, b"uuid-1");
    assert_eq!(p.pk, b"pk-1");
    assert_eq!(p.info, "info-1");
    assert!(p.user.is_none());
    assert!(p.status.is_none());
    assert!(db.get_peer("dev-2").is_none());

    assert_eq!(
        db.insert_peer("dev-1", b"x", b"y", "z"),
        Err(PeerError::DuplicateId)
    );
}

#[test]
fn update_pk_renames_and_guards_ids() {
    let mut db = Database::new();
    let g1 = db.insert_peer("dev-1", b"u1", b"p1", "i1").unwrap();
    let _g2 = db.insert_peer("dev-2", b"u2", b"p2", "i2").unwrap();

    // Renaming onto another row's id is refused.
    assert_eq!(
        db.update_pk(&g1, "dev-2", b"p9", "i9"),
        Err(PeerError::DuplicateId)
    );
    // A guid nobody holds is a silent no-op.
    db.update_pk(&vec![0u8; 16], "dev-9", b"p9", "i9").unwrap();
    assert!(db.get_peer("dev-9").is_none());

    db.update_pk(&g1, "dev-3", b"p3", "i3").unwrap();
    assert!(db.get_peer("dev-1").is_none());
    let p = db.get_peer("dev-3").unwrap();
    assert_eq!(p.pk, b"p3");
    assert_eq!(p.info, "i3");
    assert_eq!(p.uuid, b"u1");
    assert_eq!(p.guid, g1);
}

#[test]
fn test_insert() {
    let mut db = Database::new();
    for i in 0..10000 {
        let id = i.to_string();
        let empty_vec = Vec::new();
        db.insert_peer(&id, &empty_vec, &empty_vec, "").unwrap();
    }
    for i in 0..10000 {
        let id = i.to_string();
        let _ = db.get_peer(&id);
    }
}
