//! The history store: dedup insert, lookup, pinning, deletion, edits,
//! retention cleanup, and the auxiliary collections.

use clipstream::classify::ContentKind;
use clipstream::store::{Database, StoreError};

#[test]
fn insert_round_trip() {
    let mut db = Database::new();
    let id = db.insert("some words", Some("Editor"), None, 100).unwrap();
    let e = db.get_by_id(id).unwrap();
    assert_eq!(e.id, id);
    assert_eq!(e.content, "some words");
    assert_eq!(e.source_app, Some("Editor".to_string()));
    assert_eq!(e.content_type, ContentKind::Text);
    assert_eq!(e.created_at, 100);
    assert!(!e.is_pinned);
    assert_eq!(e.image_data, None);
}

#[test]
fn insert_assigns_fresh_increasing_ids() {
    let mut db = Database::new();
    let a = db.insert("one", None, None, 1).unwrap();
    let b = db.insert("two", None, None, 2).unwrap();
    assert_eq!(a, 1);
    assert_eq!(b, 2);
}

#[test]
fn duplicate_insert_keeps_one_row() {
    // Insert "hello world" with no source, then again from "Notepad":
    // exactly one row remains, under the first id, with the new source and
    // the second insertion's timestamp.
    let mut db = Database::new();
    let first = db.insert("hello world", None, None, 10).unwrap();
    let second = db.insert("hello world", Some("Notepad"), None, 20).unwrap();
    assert_eq!(first, second);
    let all = db.search("", 100);
    assert_eq!(all.len(), 1);
    assert_eq!(all[0].content, "hello world");
    assert_eq!(all[0].source_app, Some("Notepad".to_string()));
    assert_eq!(all[0].created_at, 20);
}

#[test]
fn duplicate_insert_without_source_keeps_old_source() {
    let mut db = Database::new();
    db.insert("note", Some("Editor"), None, 1).unwrap();
    db.insert("note", None, None, 2).unwrap();
    let e = db.get_by_id(1).unwrap();
    assert_eq!(e.source_app, Some("Editor".to_string()));
    assert_eq!(e.created_at, 2);
}

#[test]
fn insert_classifies_content() {
    let mut db = Database::new();
    let a = db.insert("https://example.com", None, None, 1).unwrap();
    let b = db.insert("let x = 1;", None, None, 2).unwrap();
    assert_eq!(db.get_by_id(a).unwrap().content_type, ContentKind::Url);
    assert_eq!(db.get_by_id(b).unwrap().content_type, ContentKind::Code);
}

#[test]
fn insert_stores_image_payload() {
    let mut db = Database::new();
    let id = db.insert("[image]", None, Some(vec![1u8, 2, 3]), 1).unwrap();
    let e = db.get_by_id(id).unwrap();
    assert_eq!(e.image_data, Some(vec![1u8, 2, 3]));
}

#[test]
fn get_by_id_absent_is_none() {
    let db = Database::new();
    assert!(db.get_by_id(42).is_none());
}

#[test]
fn toggle_pin_flips_and_reports() {
    let mut db = Database::new();
    let id = db.insert("keep me", None, None, 1).unwrap();
    assert_eq!(db.toggle_pin(id), Ok(true));
    assert!(db.get_by_id(id).unwrap().is_pinned);
    assert_eq!(db.toggle_pin(id), Ok(false));
    assert!(!db.get_by_id(id).unwrap().is_pinned);
}

#[test]
fn toggle_pin_absent_is_not_found() {
    let mut db = Database::new();
    assert_eq!(db.toggle_pin(7), Err(StoreError::NotFound));
}

#[test]
fn delete_removes_and_is_idempotent() {
    let mut db = Database::new();
    let id = db.insert("gone soon", None, None, 1).unwrap();
    db.delete(id);
    assert!(db.get_by_id(id).is_none());
    // Deleting again changes nothing and does not fail.
    db.delete(id);
    assert_eq!(db.search("", 10).len(), 0);
}

#[test]
fn deleted_id_is_never_reused() {
    let mut db = Database::new();
    let a = db.insert("first", None, None, 1).unwrap();
    db.delete(a);
    let b = db.insert("second", None, None, 2).unwrap();
    assert!(b > a);
}

#[test]
fn update_content_edits_and_reclassifies() {
    let mut db = Database::new();
    let id = db.insert("plain words", None, None, 1).unwrap();
    assert_eq!(db.update_content(id, "https://example.com"), Ok(()));
    let e = db.get_by_id(id).unwrap();
    assert_eq!(e.content, "https://example.com");
    assert_eq!(e.content_type, ContentKind::Url);
    // The timestamp is not a capture, so it stays.
    assert_eq!(e.created_at, 1);
}

#[test]
fn update_content_absent_is_not_found() {
    let mut db = Database::new();
    assert_eq!(db.update_content(3, "x"), Err(StoreError::NotFound));
}

#[test]
fn update_content_refuses_duplicate() {
    let mut db = Database::new();
    let a = db.insert("alpha", None, None, 1).unwrap();
    db.insert("beta", None, None, 2).unwrap();
    assert_eq!(db.update_content(a, "beta"), Err(StoreError::DuplicateContent));
    // The row is unchanged.
    assert_eq!(db.get_by_id(a).unwrap().content, "alpha");
    // Writing a row's own content back is no clash.
    assert_eq!(db.update_content(a, "alpha"), Ok(()));
}

#[test]
fn get_last_content_tracks_recency() {
    let mut db = Database::new();
    assert_eq!(db.get_last_content(), None);
    db.insert("older", None, None, 10).unwrap();
    db.insert("newer", None, None, 20).unwrap();
    assert_eq!(db.get_last_content(), Some("newer".to_string()));
    // A dedup refresh makes the refreshed row the most recent one.
    db.insert("older", None, None, 30).unwrap();
    assert_eq!(db.get_last_content(), Some("older".to_string()));
}

#[test]
fn cleanup_zero_removes_all_unpinned_keeps_all_pinned() {
    let mut db = Database::new();
    for i in 0..10i64 {
        let id = db.insert(&format!("entry {}", i), None, None, 100 + i as u64).unwrap();
        if i % 3 == 0 {
            db.toggle_pin(id).unwrap();
        }
    }
    let removed = db.cleanup(0, 0, 1000);
    assert_eq!(removed, 6);
    let left = db.search("", 100);
    assert_eq!(left.len(), 4);
    assert!(left.iter().all(|e| e.is_pinned));
}

#[test]
fn cleanup_age_phase_drops_old_unpinned() {
    let mut db = Database::new();
    let day = 86400u64;
    db.insert("ancient", None, None, 0).unwrap();
    db.insert("recent", None, None, 9 * day).unwrap();
    let pinned = db.insert("ancient but pinned", None, None, 0).unwrap();
    db.toggle_pin(pinned).unwrap();
    let removed = db.cleanup(7, 100, 10 * day);
    assert_eq!(removed, 1);
    assert!(db.get_by_id(1).is_none());
    assert!(db.get_by_id(2).is_some());
    assert!(db.get_by_id(pinned).is_some());
}

#[test]
fn cleanup_count_phase_keeps_most_recent() {
    let mut db = Database::new();
    for i in 0..5i64 {
        db.insert(&format!("c{}", i), None, None, i as u64).unwrap();
    }
    let removed = db.cleanup(9999, 2, 10);
    assert_eq!(removed, 3);
    let left = db.search("", 10);
    assert_eq!(left.len(), 2);
    assert_eq!(left[0].content, "c4");
    assert_eq!(left[1].content, "c3");
}

#[test]
fn cleanup_cap_spares_pinned_and_counts_only_unpinned() {
    // Store 600 unpinned entries, pin the first: a cleanup with a cap of
    // 500 leaves the pinned entry and exactly 500 unpinned entries.
    let mut db = Database::new();
    for i in 0..600i64 {
        db.insert(&format!("item {}", i), None, None, 1000 + i as u64).unwrap();
    }
    db.toggle_pin(1).unwrap();
    let removed = db.cleanup(9999, 500, 5000);
    assert_eq!(removed, 99);
    assert!(db.get_by_id(1).is_some());
    let left = db.search("", 1000);
    assert_eq!(left.len(), 501);
    let unpinned = left.iter().filter(|e| !e.is_pinned).count();
    assert_eq!(unpinned, 500);
    // The survivors of the cap are the most recent unpinned entries.
    assert!(db.get_by_id(100).is_none());
    assert!(db.get_by_id(101).is_some());
}

#[test]
fn settings_roundtrip_and_overwrite() {
    let mut db = Database::new();
    assert_eq!(db.get_setting("theme"), None);
    db.set_setting("theme", "dark");
    assert_eq!(db.get_setting("theme"), Some("dark".to_string()));
    db.set_setting("theme", "light");
    assert_eq!(db.get_setting("theme"), Some("light".to_string()));
    db.set_setting("poll", "300");
    assert_eq!(db.get_setting("poll"), Some("300".to_string()));
}

#[test]
fn ignored_apps_add_remove() {
    let mut db = Database::new();
    assert!(!db.is_app_ignored("keepass.exe"));
    db.add_ignored_app("keepass.exe");
    assert!(db.is_app_ignored("keepass.exe"));
    // Adding again keeps the list without duplicates.
    db.add_ignored_app("keepass.exe");
    assert_eq!(db.get_ignored_apps(), vec!["keepass.exe".to_string()]);
    db.remove_ignored_app("keepass.exe");
    assert!(!db.is_app_ignored("keepass.exe"));
    assert_eq!(db.get_ignored_apps().len(), 0);
    // Removing an absent name changes nothing.
    db.remove_ignored_app("keepass.exe");
    assert_eq!(db.get_ignored_apps().len(), 0);
}

#[test]
fn entry_duplicate_copies_every_field() {
    let mut db = Database::new();
    let id = db.insert("dup me", Some("App"), Some(vec![9u8]), 7).unwrap();
    let e = db.get_by_id(id).unwrap();
    let d = e.duplicate();
    assert_eq!(d.id, e.id);
    assert_eq!(d.content, e.content);
    assert_eq!(d.source_app, e.source_app);
    assert_eq!(d.content_type, e.content_type);
    assert_eq!(d.created_at, e.created_at);
    assert_eq!(d.is_pinned, e.is_pinned);
    assert_eq!(d.image_data, e.image_data);
}
