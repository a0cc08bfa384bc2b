//! Classification behavior: URL prefix wins, then code markers, then text.

use clipstream::classify::{classify, ContentKind};

#[test]
fn classify_url() {
    assert_eq!(classify("https://example.com"), ContentKind::Url);
}

#[test]
fn classify_code() {
    assert_eq!(classify("def foo(): pass"), ContentKind::Code);
}

#[test]
fn classify_plain_text() {
    assert_eq!(classify("just a sentence"), ContentKind::Text);
}

#[test]
fn classify_http_scheme() {
    assert_eq!(classify("http://example.com/path?q=1"), ContentKind::Url);
}

#[test]
fn classify_trims_before_deciding() {
    assert_eq!(classify("   https://example.com  \n"), ContentKind::Url);
}

#[test]
fn classify_url_wins_over_code() {
    // The content holds a code marker, but the URL prefix decides first.
    assert_eq!(classify("https://example.com/let there"), ContentKind::Url);
}

#[test]
fn classify_every_code_marker() {
    assert_eq!(classify("fn main() {}"), ContentKind::Code);
    assert_eq!(classify("function f() {}"), ContentKind::Code);
    assert_eq!(classify("def f():"), ContentKind::Code);
    assert_eq!(classify("class Foo:"), ContentKind::Code);
    assert_eq!(classify("const X = 1;"), ContentKind::Code);
    assert_eq!(classify("let x = 1;"), ContentKind::Code);
    assert_eq!(classify("import os"), ContentKind::Code);
    assert_eq!(classify("#include <stdio.h>"), ContentKind::Code);
}

#[test]
fn classify_marker_needs_exact_substring() {
    // "fn" without the trailing space is not a marker.
    assert_eq!(classify("fn"), ContentKind::Text);
    // A URL scheme in the middle of the text is no URL.
    assert_eq!(classify("see https://example.com"), ContentKind::Text);
}

#[test]
fn classify_empty_is_text() {
    assert_eq!(classify(""), ContentKind::Text);
    assert_eq!(classify("   "), ContentKind::Text);
}

#[test]
fn kind_labels() {
    assert_eq!(ContentKind::Text.label(), "text");
    assert_eq!(ContentKind::Url.label(), "url");
    assert_eq!(ContentKind::Code.label(), "code");
}
