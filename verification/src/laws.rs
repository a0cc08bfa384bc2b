//! The library's cross-cutting guarantees, stated and proved over the
//! store and monitor models: dedup idempotence, pin exemption from
//! retention, pinned-first search ordering, and the insert/lookup round
//! trip. (The mutual-exclusivity guarantee of the change detector is proved
//! beside the detector itself.)

use vstd::prelude::*;
use crate::search::result_before;
use crate::store::{age_cutoff, cleanup_spec, content_index, has_content, has_id, id_index,
    insert_ok, insert_spec, refreshed, survives_age, survives_count, unpinned_rank, with_entries,
    EntryModel, StoreModel};

verus! {

/// How many rows hold exactly this content.
pub open spec fn count_content(rows: Seq<EntryModel>, c: Seq<char>) -> int {
    rows.filter(|e: EntryModel| e.content == c).len() as int
}

/// Under the uniqueness invariant, a content is held by one row or by none.
proof fn lemma_count_content_unique(rows: Seq<EntryModel>, c: Seq<char>)
    requires
        forall|i: int, j: int| 0 <= i < j < rows.len() ==> rows[i].content != rows[j].content,
    ensures
        count_content(rows, c) == if has_content(rows, c) {
            1int
        } else {
            0int
        },
    decreases rows.len(),
{
    reveal(Seq::filter);
    if rows.len() > 0 {
        let pre = rows.drop_last();
        lemma_count_content_unique(pre, c);
        if rows.last().content == c {
            // No earlier row can hold the same content.
            assert(!has_content(pre, c)) by {
                if has_content(pre, c) {
                    let i = choose|i: int| 0 <= i < pre.len() && pre[i].content == c;
                    assert(rows[i].content == rows[rows.len() - 1].content);
                }
            }
            assert(has_content(rows, c)) by {
                assert(rows[rows.len() - 1].content == c);
            }
        } else {
            assert(has_content(rows, c) == has_content(pre, c)) by {
                if has_content(rows, c) {
                    let i = choose|i: int| 0 <= i < rows.len() && rows[i].content == c;
                    assert(pre[i].content == c);
                }
                if has_content(pre, c) {
                    let i = choose|i: int| 0 <= i < pre.len() && pre[i].content == c;
                    assert(rows[i].content == c);
                }
            }
        }
    }
}

/// A model-level insert keeps the store well formed.
pub proof fn lemma_insert_preserves_inv(
    m: StoreModel,
    c: Seq<char>,
    src: Option<Seq<char>>,
    img: Option<Seq<u8>>,
    now: u64,
)
    requires
        m.inv(),
        insert_ok(m, c),
    ensures
        insert_spec(m, c, src, img, now).0.inv(),
        has_content(insert_spec(m, c, src, img, now).0.entries, c),
{
    let m1 = insert_spec(m, c, src, img, now).0;
    if has_content(m.entries, c) {
        let i = content_index(m.entries, c);
        assert(0 <= i < m.entries.len() && m.entries[i].content == c);
        assert(m1.entries =~= m.entries.update(i, refreshed(m.entries[i], src, now)));
        assert(m1.entries[i].content == c);
    } else {
        assert(m1.entries[m.entries.len() as int].content == c);
    }
}

/// Dedup idempotence: after a successful insert of some content, inserting
/// the same content again adds no row; it refreshes the one existing row,
/// moves its timestamp to the later insertion's time and reports the same
/// id. The row count for that content is one after either insert.
pub proof fn lemma_insert_idempotent(
    m: StoreModel,
    c: Seq<char>,
    src1: Option<Seq<char>>,
    src2: Option<Seq<char>>,
    img1: Option<Seq<u8>>,
    img2: Option<Seq<u8>>,
    t1: u64,
    t2: u64,
)
    requires
        m.inv(),
        insert_ok(m, c),
    ensures
        ({
            let (m1, id1) = insert_spec(m, c, src1, img1, t1);
            let (m2, id2) = insert_spec(m1, c, src2, img2, t2);
            &&& m2.entries.len() == m1.entries.len()
            &&& id2 == id1
            &&& count_content(m1.entries, c) == 1
            &&& count_content(m2.entries, c) == 1
            &&& m2.entries[content_index(m1.entries, c)].created_at == t2
            &&& m2.entries[content_index(m1.entries, c)].content == c
        }),
{
    let (m1, id1) = insert_spec(m, c, src1, img1, t1);
    let (m2, id2) = insert_spec(m1, c, src2, img2, t2);
    lemma_insert_preserves_inv(m, c, src1, img1, t1);
    lemma_count_content_unique(m1.entries, c);
    let i1 = content_index(m1.entries, c);
    assert(0 <= i1 < m1.entries.len() && m1.entries[i1].content == c);

    // Identify the refreshed row of the first insert.
    if has_content(m.entries, c) {
        let i = content_index(m.entries, c);
        assert(0 <= i < m.entries.len() && m.entries[i].content == c);
        assert(m1.entries[i].content == c);
        assert(i1 == i);
        assert(m1.entries[i1].id == id1);
    } else {
        assert(m1.entries[m.entries.len() as int].content == c);
        assert(i1 == m.entries.len());
        assert(m1.entries[i1].id == id1);
    }

    // The second insert takes the dedup path on that row.
    assert(has_content(m1.entries, c));
    assert(m2.entries =~= m1.entries.update(i1, refreshed(m1.entries[i1], src2, t2)));
    assert(id2 == m1.entries[i1].id);
    lemma_insert_preserves_inv(m1, c, src2, img2, t2);
    lemma_count_content_unique(m2.entries, c);
}

/// Round trip: a successful `insert` followed by a lookup of the reported
/// id finds an entry holding the inserted content and the given source
/// application. (When the content was already stored and no source is
/// given, the refreshed row keeps its old source; that case is left out.)
pub proof fn lemma_insert_get_round_trip(
    m: StoreModel,
    c: Seq<char>,
    src: Option<Seq<char>>,
    img: Option<Seq<u8>>,
    now: u64,
)
    requires
        m.inv(),
        insert_ok(m, c),
        src is Some || !has_content(m.entries, c),
    ensures
        ({
            let (m1, id) = insert_spec(m, c, src, img, now);
            &&& has_id(m1.entries, id)
            &&& m1.entries[id_index(m1.entries, id)].content == c
            &&& m1.entries[id_index(m1.entries, id)].source_app == src
            &&& m1.entries[id_index(m1.entries, id)].created_at == now
        }),
{
    let (m1, id) = insert_spec(m, c, src, img, now);
    lemma_insert_preserves_inv(m, c, src, img, now);
    if has_content(m.entries, c) {
        let i = content_index(m.entries, c);
        assert(0 <= i < m.entries.len() && m.entries[i].content == c);
        assert(m1.entries[i].id == id);
        assert(has_id(m1.entries, id));
        let j = id_index(m1.entries, id);
        assert(0 <= j < m1.entries.len() && m1.entries[j].id == id);
        assert(j == i);
    } else {
        let i = m.entries.len() as int;
        assert(m1.entries[i].id == id);
        assert(has_id(m1.entries, id));
        let j = id_index(m1.entries, id);
        assert(0 <= j < m1.entries.len() && m1.entries[j].id == id);
        assert(j == i);
    }
}

/// Filtering by pointwise-equal predicates gives the same sequence.
proof fn lemma_filter_ext(
    s: Seq<EntryModel>,
    p: spec_fn(EntryModel) -> bool,
    q: spec_fn(EntryModel) -> bool,
)
    requires
        forall|e: EntryModel| #[trigger] p(e) == q(e),
    ensures
        s.filter(p) == s.filter(q),
    decreases s.len(),
{
    reveal(Seq::filter);
    if s.len() > 0 {
        lemma_filter_ext(s.drop_last(), p, q);
    }
}

/// Filtering by a finer predicate after a coarser one is filtering by the
/// finer predicate alone.
proof fn lemma_filter_compose(
    s: Seq<EntryModel>,
    p: spec_fn(EntryModel) -> bool,
    q: spec_fn(EntryModel) -> bool,
)
    requires
        forall|e: EntryModel| #[trigger] q(e) ==> p(e),
    ensures
        s.filter(p).filter(q) == s.filter(q),
    decreases s.len(),
{
    reveal(Seq::filter);
    if s.len() > 0 {
        let pre = s.drop_last();
        lemma_filter_compose(pre, p, q);
        let l = s.last();
        if p(l) {
            assert(s.filter(p) == pre.filter(p).push(l));
            assert(pre.filter(p).push(l).drop_last() =~= pre.filter(p));
            assert(pre.filter(p).push(l).last() == l);
        } else {
            assert(s.filter(p) == pre.filter(p));
            assert(!q(l));
        }
    }
}

/// Pin exemption: retention cleanup with a zero age and a zero cap removes
/// every unpinned row and leaves exactly the pinned rows, in their order,
/// for any population of entries.
pub proof fn lemma_cleanup_pin_exemption(m: StoreModel, now: u64)
    requires
        m.inv(),
    ensures
        cleanup_spec(m, 0, 0, now) == with_entries(
            m,
            m.entries.filter(|e: EntryModel| e.is_pinned),
        ),
{
    let cutoff = age_cutoff(now, 0);
    let age_pred = |e: EntryModel| survives_age(e, cutoff);
    let kept1 = m.entries.filter(age_pred);
    let count_pred = |e: EntryModel| survives_count(kept1, e, 0);
    let pinned = |e: EntryModel| e.is_pinned;
    assert forall|e: EntryModel| #[trigger] count_pred(e) == pinned(e) by {
        assert(unpinned_rank(kept1, e) >= 0);
    }
    lemma_filter_ext(kept1, count_pred, pinned);
    assert forall|e: EntryModel| #[trigger] pinned(e) implies age_pred(e) by {}
    lemma_filter_compose(m.entries, age_pred, pinned);
}

/// Search ordering: in any sequence sorted by the result order — as every
/// search result is — every pinned entry precedes every unpinned one,
/// whatever the recency of either.
pub proof fn lemma_search_pinned_first(rv: Seq<EntryModel>)
    requires
        forall|a: int, b: int| 0 <= a < b < rv.len() ==> !result_before(rv[b], rv[a]),
    ensures
        forall|a: int, b: int| 0 <= a < b < rv.len() && rv[b].is_pinned ==> rv[a].is_pinned,
{
    assert forall|a: int, b: int| 0 <= a < b < rv.len() && rv[b].is_pinned implies
        rv[a].is_pinned by {
        if !rv[a].is_pinned {
            assert(result_before(rv[b], rv[a]));
        }
    }
}

} // verus!
