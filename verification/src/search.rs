//! Search over the history: token-prefix full-text matching and the result
//! order. A query is cleaned of quote characters; every whitespace-separated
//! term of it must then be the prefix of some term of an entry's content or
//! source application name. Results are ordered pinned-first, then most
//! recent first (ties broken by id).

use vstd::prelude::*;
use vstd::string::StrSliceExecFns;
use crate::chars::{chars_of, is_space, is_space_char, match_at, match_at_exec};
use crate::store::{ClipboardEntry, EntryModel};

verus! {

/// A term of `t` begins at `i`: a non-space character at the start of the
/// text or right after a space.
pub open spec fn token_start(t: Seq<char>, i: int) -> bool {
    0 <= i < t.len() && !is_space_char(t[i]) && (i == 0 || is_space_char(t[i - 1]))
}

/// The index just past the term beginning at `i`: the first space or the
/// end of the text.
pub open spec fn token_end_from(t: Seq<char>, i: int) -> int
    decreases t.len() - i when 0 <= i <= t.len()
{
    if i < 0 || i >= t.len() || is_space_char(t[i]) {
        i
    } else {
        token_end_from(t, i + 1)
    }
}

/// The query with quote characters removed, so that a quoted phrase is
/// matched by its words.
pub open spec fn strip_quotes(q: Seq<char>) -> Seq<char> {
    q.filter(|c: char| c != '"')
}

/// `tok` is a prefix of some term of `text`.
pub open spec fn prefix_match_in(text: Seq<char>, tok: Seq<char>) -> bool {
    exists|i: int| token_start(text, i) && match_at(text, tok, i)
}

/// `tok` is a prefix of some term of the entry's content or of its source
/// application name.
pub open spec fn entry_field_match(e: EntryModel, tok: Seq<char>) -> bool {
    prefix_match_in(e.content, tok) || (e.source_app matches Some(s) && prefix_match_in(s, tok))
}

/// Every term of the cleaned query `cq` prefix-matches the entry. A query
/// without terms matches every entry.
pub open spec fn matches_clean(e: EntryModel, cq: Seq<char>) -> bool {
    forall|j: int| token_start(cq, j) ==> entry_field_match(
        e,
        cq.subrange(j, token_end_from(cq, j)),
    )
}

/// The entry matches the raw query.
pub open spec fn entry_matches(e: EntryModel, q: Seq<char>) -> bool {
    matches_clean(e, strip_quotes(q))
}

/// How many rows match the query.
pub open spec fn count_matches(rows: Seq<EntryModel>, q: Seq<char>) -> int {
    rows.filter(|e: EntryModel| entry_matches(e, q)).len() as int
}

/// `a` comes strictly before `b` in a search result: pinned entries first,
/// then most recent first, ties broken by the (unique) id.
pub open spec fn result_before(a: EntryModel, b: EntryModel) -> bool {
    if a.is_pinned != b.is_pinned {
        a.is_pinned
    } else if a.created_at != b.created_at {
        a.created_at > b.created_at
    } else {
        a.id > b.id
    }
}

/// The result order is transitive.
pub proof fn lemma_result_before_trans(a: EntryModel, b: EntryModel, c: EntryModel)
    requires
        result_before(a, b),
        result_before(b, c),
    ensures
        result_before(a, c),
{
}

/// `k` occurs among the collected indices.
pub open spec fn in_idxs(idxs: Seq<usize>, k: int) -> bool {
    exists|t: int| 0 <= t < idxs.len() && idxs[t] as int == k
}

/// Whether `a` comes strictly before `b` in the result order.
pub fn result_before_exec(a: &ClipboardEntry, b: &ClipboardEntry) -> (r: bool)
    ensures
        r == result_before(a@, b@),
{
    if a.is_pinned != b.is_pinned {
        a.is_pinned
    } else if a.created_at != b.created_at {
        a.created_at > b.created_at
    } else {
        a.id > b.id
    }
}

/// The characters of `query` with quote characters removed.
pub fn clean_query(query: &str) -> (cq: Vec<char>)
    ensures
        cq@ == strip_quotes(query@),
{
    let qs = chars_of(query);
    let n = qs.len();
    let mut cq: Vec<char> = Vec::new();
    let mut i: usize = 0;
    while i < n
        invariant
            n == qs@.len(),
            qs@ == query@,
            0 <= i <= n,
            cq@ == qs@.subrange(0, i as int).filter(|c: char| c != '"'),
        decreases n - i,
    {
        let ghost pre = qs@.subrange(0, i as int);
        let ghost pre1 = qs@.subrange(0, i as int + 1);
        proof {
            reveal(Seq::filter);
            assert(pre1.drop_last() =~= pre);
            assert(pre1.last() == qs@[i as int]);
        }
        let c = qs[i];
        if c != '"' {
            cq.push(c);
        }
        i += 1;
    }
    proof {
        assert(qs@.subrange(0, n as int) =~= qs@);
    }
    cq
}

proof fn lemma_token_end_at(t: Seq<char>, j: int, e: int)
    requires
        0 <= j <= e <= t.len(),
        forall|k: int| j <= k < e ==> !is_space_char(t[k]),
        e == t.len() || is_space_char(t[e]),
    ensures
        token_end_from(t, j) == e,
    decreases e - j,
{
    if j < e {
        lemma_token_end_at(t, j + 1, e);
    }
}

/// The index just past the term of `cq` that begins at `j`.
fn token_end_exec(cq: &Vec<char>, j: usize) -> (e: usize)
    requires
        j <= cq@.len(),
    ensures
        j <= e <= cq@.len(),
        e as int == token_end_from(cq@, j as int),
        forall|k: int| j <= k < e ==> !is_space_char(cq@[k]),
    {
    let n = cq.len();
    let mut e = j;
    while e < n && !is_space(cq[e])
        invariant
            n == cq@.len(),
            j <= e <= n,
            forall|k: int| j <= k < e ==> !is_space_char(cq@[k]),
        decreases n - e,
    {
        e += 1;
    }
    proof {
        lemma_token_end_at(cq@, j as int, e as int);
    }
    e
}

/// A copy of `v[from..to]`.
fn copy_range(v: &Vec<char>, from: usize, to: usize) -> (r: Vec<char>)
    requires
        from <= to <= v@.len(),
    ensures
        r@ == v@.subrange(from as int, to as int),
{
    let mut r: Vec<char> = Vec::new();
    let mut i = from;
    while i < to
        invariant
            from <= i <= to <= v@.len(),
            r@ == v@.subrange(from as int, i as int),
        decreases to - i,
    {
        r.push(v[i]);
        proof {
            assert(r@ =~= v@.subrange(from as int, i as int + 1));
        }
        i += 1;
    }
    r
}

/// Whether `tok` is a prefix of some term of `text`.
fn prefix_match_exec(text: &Vec<char>, tok: &Vec<char>) -> (r: bool)
    ensures
        r == prefix_match_in(text@, tok@),
{
    let n = text.len();
    let mut i: usize = 0;
    while i < n
        invariant
            n == text@.len(),
            0 <= i <= n,
            forall|k: int| 0 <= k < i ==> !(token_start(text@, k) && match_at(text@, tok@, k)),
        decreases n - i,
    {
        let starts = !is_space(text[i]) && (i == 0 || is_space(text[i - 1]));
        if starts && tok.len() <= n - i {
            if match_at_exec(text, tok, i) {
                proof {
                    assert(token_start(text@, i as int) && match_at(text@, tok@, i as int));
                }
                return true;
            }
        }
        i += 1;
    }
    proof {
        assert(forall|k: int| !(token_start(text@, k) && match_at(text@, tok@, k)));
    }
    false
}

/// Whether the entry matches every term of the cleaned query.
pub fn entry_matches_exec(e: &ClipboardEntry, cq: &Vec<char>) -> (r: bool)
    ensures
        r == matches_clean(e@, cq@),
{
    let content_chars = chars_of(e.content.as_str());
    let source_chars: Option<Vec<char>> = match &e.source_app {
        Some(s) => Some(chars_of(s.as_str())),
        None => None,
    };
    let n = cq.len();
    let mut j: usize = 0;
    while j < n
        invariant
            n == cq@.len(),
            content_chars@ == e@.content,
            match source_chars {
                Some(sc) => e@.source_app == Some(sc@),
                None => e@.source_app is None,
            },
            0 <= j <= n,
            forall|t: int| 0 <= t < j && token_start(cq@, t) ==> entry_field_match(
                e@,
                cq@.subrange(t, token_end_from(cq@, t)),
            ),
        decreases n - j,
    {
        let starts = !is_space(cq[j]) && (j == 0 || is_space(cq[j - 1]));
        if starts {
            let end = token_end_exec(cq, j);
            let tok = copy_range(cq, j, end);
            let mut found = prefix_match_exec(&content_chars, &tok);
            if !found {
                if let Some(sc) = &source_chars {
                    found = prefix_match_exec(sc, &tok);
                }
            }
            if !found {
                proof {
                    assert(token_start(cq@, j as int));
                    assert(!entry_field_match(e@, cq@.subrange(
                        j as int,
                        token_end_from(cq@, j as int),
                    )));
                }
                return false;
            }
        }
        j += 1;
    }
    true
}

} // verus!
