//! Content classification: every captured text is labelled as a URL, as
//! code, or as plain text. The rule is a deterministic heuristic over the
//! trimmed content: a URL scheme prefix wins, then a fixed set of
//! language-marker substrings, then plain text.

use vstd::prelude::*;
use crate::chars::{chars_of, contains_chars, spec_contains_sub, spec_starts_with, spec_trim,
    starts_with_chars, trim_str};

verus! {

/// The kind assigned to a stored entry's content.
#[derive(Clone, Copy, Debug, PartialEq, Eq, Structural)]
pub enum ContentKind {
    Text,
    Url,
    Code,
}

impl ContentKind {
    /// A short lower-case label for the kind, as it is written to storage.
    pub fn label(&self) -> (r: &'static str)
        ensures
            *self == ContentKind::Text ==> r@ == "text"@,
            *self == ContentKind::Url ==> r@ == "url"@,
            *self == ContentKind::Code ==> r@ == "code"@,
    {
        match self {
            ContentKind::Text => "text",
            ContentKind::Url => "url",
            ContentKind::Code => "code",
        }
    }
}

/// The trimmed text starts with a web URL scheme.
pub open spec fn is_url_text(t: Seq<char>) -> bool {
    spec_starts_with(t, "http://"@) || spec_starts_with(t, "https://"@)
}

/// The trimmed text contains one of the fixed language-marker substrings.
pub open spec fn is_code_text(t: Seq<char>) -> bool {
    ||| spec_contains_sub(t, "fn "@)
    ||| spec_contains_sub(t, "function "@)
    ||| spec_contains_sub(t, "def "@)
    ||| spec_contains_sub(t, "class "@)
    ||| spec_contains_sub(t, "const "@)
    ||| spec_contains_sub(t, "let "@)
    ||| spec_contains_sub(t, "import "@)
    ||| spec_contains_sub(t, "#include"@)
}

/// The kind assigned to `content`: a URL prefix wins, then a code marker,
/// then plain text. The decision looks at the trimmed content only.
pub open spec fn classify_spec(content: Seq<char>) -> ContentKind {
    let t = spec_trim(content);
    if is_url_text(t) {
        ContentKind::Url
    } else if is_code_text(t) {
        ContentKind::Code
    } else {
        ContentKind::Text
    }
}

/// Classify `content`. Deterministic, no side effects, never fails.
pub fn classify(content: &str) -> (k: ContentKind)
    ensures
        k == classify_spec(content@),
{
    let t = chars_of(trim_str(content));
    if starts_with_chars(&t, &chars_of("http://")) || starts_with_chars(&t, &chars_of("https://")) {
        ContentKind::Url
    } else if contains_chars(&t, &chars_of("fn "))
        || contains_chars(&t, &chars_of("function "))
        || contains_chars(&t, &chars_of("def "))
        || contains_chars(&t, &chars_of("class "))
        || contains_chars(&t, &chars_of("const "))
        || contains_chars(&t, &chars_of("let "))
        || contains_chars(&t, &chars_of("import "))
        || contains_chars(&t, &chars_of("#include")) {
        ContentKind::Code
    } else {
        ContentKind::Text
    }
}

} // verus!
