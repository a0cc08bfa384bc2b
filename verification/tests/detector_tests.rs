//! Change detection: trimming, suppression of repeats and empty snapshots,
//! and the mutual exclusivity of the two fingerprints.

use clipstream::detector::{fingerprint, ClipboardListener};

#[test]
fn text_change_is_reported_trimmed() {
    let mut l = ClipboardListener::new();
    let e = l.observe_text("  hello world  ");
    assert_eq!(e, Some("hello world".to_string()));
}

#[test]
fn empty_after_trim_is_suppressed() {
    let mut l = ClipboardListener::new();
    assert_eq!(l.observe_text("   \n\t "), None);
    assert_eq!(l.observe_text(""), None);
}

#[test]
fn repeated_text_is_suppressed() {
    let mut l = ClipboardListener::new();
    assert_eq!(l.observe_text("hello"), Some("hello".to_string()));
    assert_eq!(l.observe_text("hello"), None);
    // Surrounding whitespace does not make it a new snapshot.
    assert_eq!(l.observe_text("  hello  "), None);
    assert_eq!(l.observe_text("other"), Some("other".to_string()));
}

#[test]
fn repeated_image_is_suppressed() {
    let mut l = ClipboardListener::new();
    let img = vec![1u8, 2, 3, 4];
    assert!(l.observe_image(&img));
    assert!(!l.observe_image(&img));
    let other = vec![9u8, 9];
    assert!(l.observe_image(&other));
}

#[test]
fn image_then_text_switch_always_reports() {
    let mut l = ClipboardListener::new();
    // Text, then an image, then the numerically identical text again:
    // the image observation cleared the stored text, so the text is
    // reported as a change once more.
    assert_eq!(l.observe_text("hello"), Some("hello".to_string()));
    assert!(l.observe_image(&vec![0u8; 16]));
    assert_eq!(l.observe_text("hello"), Some("hello".to_string()));
}

#[test]
fn text_then_image_switch_always_reports() {
    let mut l = ClipboardListener::new();
    let img = vec![7u8, 7, 7];
    assert!(l.observe_image(&img));
    assert_eq!(l.observe_text("between"), Some("between".to_string()));
    // The same image again is a change once more: the text observation
    // cleared the stored image fingerprint.
    assert!(l.observe_image(&img));
}

#[test]
fn start_and_stop_toggle_running() {
    let mut l = ClipboardListener::new();
    assert!(!l.is_running());
    assert!(l.start());
    assert!(l.is_running());
    // Starting again is a no-op and says so.
    assert!(!l.start());
    assert!(l.is_running());
    l.stop();
    assert!(!l.is_running());
}

#[test]
fn fingerprint_depends_on_length_and_prefix() {
    let a = vec![1u8, 2, 3];
    let b = vec![1u8, 2, 4];
    let c = vec![1u8, 2, 3, 0];
    assert_eq!(fingerprint(&a), fingerprint(&vec![1u8, 2, 3]));
    assert_ne!(fingerprint(&a), fingerprint(&b));
    assert_ne!(fingerprint(&a), fingerprint(&c));
}

#[test]
fn fingerprint_ignores_bytes_past_the_prefix() {
    // Two large payloads of equal length differing only after the hashed
    // prefix share a fingerprint: the accepted trade-off of the bounded
    // hash.
    let mut a = vec![5u8; 5000];
    let mut b = vec![5u8; 5000];
    a[4999] = 1;
    b[4999] = 2;
    assert_eq!(fingerprint(&a), fingerprint(&b));
}
