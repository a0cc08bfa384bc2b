//! Search: token-prefix matching, quote stripping, the pinned-first order,
//! recency order, and the limit.

use clipstream::store::Database;

fn store_with(entries: &[(&str, Option<&str>, u64)]) -> Database {
    let mut db = Database::new();
    for (content, source, at) in entries {
        db.insert(content, *source, None, *at).unwrap();
    }
    db
}

#[test]
fn empty_query_returns_most_recent_first() {
    let db = store_with(&[("a", None, 1), ("b", None, 3), ("c", None, 2)]);
    let r = db.search("", 10);
    let contents: Vec<&str> = r.iter().map(|e| e.content.as_str()).collect();
    assert_eq!(contents, vec!["b", "c", "a"]);
}

#[test]
fn whitespace_query_matches_everything() {
    let db = store_with(&[("a", None, 1), ("b", None, 2)]);
    assert_eq!(db.search("   \t", 10).len(), 2);
}

#[test]
fn limit_caps_the_result() {
    let db = store_with(&[("a", None, 1), ("b", None, 2), ("c", None, 3)]);
    let r = db.search("", 2);
    assert_eq!(r.len(), 2);
    assert_eq!(r[0].content, "c");
    assert_eq!(r[1].content, "b");
}

#[test]
fn term_is_a_prefix_match() {
    let db = store_with(&[
        ("hello world", None, 1),
        ("help me", None, 2),
        ("shell", None, 3),
    ]);
    // "hel" prefix-matches "hello" and "help", but not the inside of
    // "shell".
    let r = db.search("hel", 10);
    let mut contents: Vec<&str> = r.iter().map(|e| e.content.as_str()).collect();
    contents.sort();
    assert_eq!(contents, vec!["hello world", "help me"]);
}

#[test]
fn every_term_must_match() {
    let db = store_with(&[("hello world", None, 1), ("hello there", None, 2)]);
    let r = db.search("hel wor", 10);
    assert_eq!(r.len(), 1);
    assert_eq!(r[0].content, "hello world");
    assert_eq!(db.search("hel xyz", 10).len(), 0);
}

#[test]
fn quotes_are_stripped_from_the_query() {
    let db = store_with(&[("hello world", None, 1)]);
    assert_eq!(db.search("\"hello\"", 10).len(), 1);
    assert_eq!(db.search("\"hello world\"", 10).len(), 1);
}

#[test]
fn source_app_is_searched_too() {
    let db = store_with(&[
        ("alpha", Some("Notepad"), 1),
        ("beta", Some("Browser"), 2),
    ]);
    let r = db.search("Notep", 10);
    assert_eq!(r.len(), 1);
    assert_eq!(r[0].content, "alpha");
}

#[test]
fn pinned_matches_precede_unpinned_regardless_of_recency() {
    let mut db = Database::new();
    for i in 0..6i64 {
        db.insert(&format!("match {}", i), None, None, 10 + i as u64).unwrap();
    }
    // Pin two old entries.
    db.toggle_pin(1).unwrap();
    db.toggle_pin(3).unwrap();
    let r = db.search("match", 10);
    assert_eq!(r.len(), 6);
    assert!(r[0].is_pinned && r[1].is_pinned);
    assert!(r[2..].iter().all(|e| !e.is_pinned));
    // Within each group, most recent first.
    assert_eq!(r[0].content, "match 2");
    assert_eq!(r[1].content, "match 0");
    assert_eq!(r[2].content, "match 5");
    assert_eq!(r[3].content, "match 4");
    assert_eq!(r[4].content, "match 3");
    assert_eq!(r[5].content, "match 1");
}

#[test]
fn pinned_first_in_empty_query_listing() {
    let mut db = Database::new();
    db.insert("old pinned", None, None, 1).unwrap();
    db.insert("newest", None, None, 100).unwrap();
    db.toggle_pin(1).unwrap();
    let r = db.search("", 10);
    assert_eq!(r[0].content, "old pinned");
    assert_eq!(r[1].content, "newest");
}

#[test]
fn no_match_is_empty() {
    let db = store_with(&[("alpha", None, 1)]);
    assert_eq!(db.search("zeta", 10).len(), 0);
    assert_eq!(db.search("alphabet", 10).len(), 0);
}

#[test]
fn search_on_empty_store() {
    let db = Database::new();
    assert_eq!(db.search("", 10).len(), 0);
    assert_eq!(db.search("x", 10).len(), 0);
}
