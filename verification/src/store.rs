//! The history store: a queryable record of clipboard entries with
//! dedup-on-insert, pinning, deletion, in-place edits, retention cleanup,
//! and the small auxiliary collections (settings, ignored applications).
//!
//! The store is the in-memory core; a caller that wants durability mirrors
//! every mutation into its own persistence layer.

use vstd::prelude::*;
use crate::classify::{classify, classify_spec, ContentKind};
use crate::search::{clean_query, count_matches, entry_matches, entry_matches_exec, in_idxs,
    lemma_result_before_trans, result_before, result_before_exec, strip_quotes};

verus! {

/// One persisted clipboard entry.
pub struct ClipboardEntry {
    /// Surrogate key: unique, never reused.
    pub id: i64,
    /// The captured text; for images, a textual placeholder.
    pub content: String,
    /// Name of the application that owned focus at capture time, if known.
    pub source_app: Option<String>,
    /// The kind assigned by classification.
    pub content_type: ContentKind,
    /// Capture time in seconds; refreshed when the same content is seen again.
    pub created_at: u64,
    /// Pinned entries are exempt from retention eviction and sort first.
    pub is_pinned: bool,
    /// Encoded image payload, stored beside the placeholder content.
    pub image_data: Option<Vec<u8>>,
}

/// The mathematical value of one entry.
pub struct EntryModel {
    pub id: int,
    pub content: Seq<char>,
    pub source_app: Option<Seq<char>>,
    pub content_type: ContentKind,
    pub created_at: u64,
    pub is_pinned: bool,
    pub image_data: Option<Seq<u8>>,
}

impl View for ClipboardEntry {
    type V = EntryModel;

    open spec fn view(&self) -> EntryModel {
        EntryModel {
            id: self.id as int,
            content: self.content@,
            source_app: match self.source_app {
                Some(s) => Some(s@),
                None => None,
            },
            content_type: self.content_type,
            created_at: self.created_at,
            is_pinned: self.is_pinned,
            image_data: match self.image_data {
                Some(d) => Some(d@),
                None => None,
            },
        }
    }
}

/// The value of an optional borrowed text.
pub open spec fn opt_str_view(s: Option<&str>) -> Option<Seq<char>> {
    match s {
        Some(x) => Some(x@),
        None => None,
    }
}

/// The value of an optional byte payload.
pub open spec fn opt_bytes_view(b: Option<Vec<u8>>) -> Option<Seq<u8>> {
    match b {
        Some(x) => Some(x@),
        None => None,
    }
}

/// A copy of `data` with the same bytes.
fn clone_bytes(data: &Vec<u8>) -> (r: Vec<u8>)
    ensures
        r@ == data@,
{
    let n = data.len();
    let mut r: Vec<u8> = Vec::new();
    let mut i: usize = 0;
    while i < n
        invariant
            n == data@.len(),
            0 <= i <= n,
            r@ == data@.subrange(0, i as int),
        decreases n - i,
    {
        r.push(data[i]);
        proof {
            assert(r@ =~= data@.subrange(0, i as int + 1));
        }
        i += 1;
    }
    proof {
        assert(r@ =~= data@);
    }
    r
}

impl ClipboardEntry {
    /// A field-by-field copy with the same value.
    pub fn duplicate(&self) -> (r: ClipboardEntry)
        ensures
            r@ == self@,
    {
        ClipboardEntry {
            id: self.id,
            content: self.content.clone(),
            source_app: match &self.source_app {
                Some(s) => Some(s.clone()),
                None => None,
            },
            content_type: self.content_type,
            created_at: self.created_at,
            is_pinned: self.is_pinned,
            image_data: match &self.image_data {
                Some(d) => Some(clone_bytes(d)),
                None => None,
            },
        }
    }
}

/// A failure of a store operation.
#[derive(Clone, Copy, Debug, PartialEq, Eq, Structural)]
pub enum StoreError {
    /// The addressed id is not in the store.
    NotFound,
    /// The id space is exhausted; no new entry can be created.
    CapacityExhausted,
    /// The edit would leave two rows with identical content.
    DuplicateContent,
}

/// The history store.
pub struct Database {
    entries: Vec<ClipboardEntry>,
    next_id: i64,
    settings: Vec<(String, String)>,
    ignored_apps: Vec<String>,
}

/// The mathematical value of the store.
pub struct StoreModel {
    pub entries: Seq<EntryModel>,
    pub next_id: int,
    pub settings: Seq<(Seq<char>, Seq<char>)>,
    pub ignored_apps: Seq<Seq<char>>,
}

impl View for Database {
    type V = StoreModel;

    closed spec fn view(&self) -> StoreModel {
        StoreModel {
            entries: self.entries@.map_values(|e: ClipboardEntry| e@),
            next_id: self.next_id as int,
            settings: self.settings@.map_values(|p: (String, String)| (p.0@, p.1@)),
            ignored_apps: self.ignored_apps@.map_values(|s: String| s@),
        }
    }
}

impl StoreModel {
    /// Well-formedness: ids are unique, below the id counter and never zero;
    /// contents are unique (the dedup invariant); setting keys and ignored
    /// application names are unique.
    pub open spec fn inv(self) -> bool {
        &&& 1 <= self.next_id <= i64::MAX
        &&& forall|i: int| 0 <= i < self.entries.len()
            ==> 1 <= (#[trigger] self.entries[i]).id < self.next_id
        &&& forall|i: int, j: int| 0 <= i < j < self.entries.len()
            ==> self.entries[i].id != self.entries[j].id
        &&& forall|i: int, j: int| 0 <= i < j < self.entries.len()
            ==> self.entries[i].content != self.entries[j].content
        &&& forall|i: int, j: int| 0 <= i < j < self.settings.len()
            ==> (#[trigger] self.settings[i]).0 != (#[trigger] self.settings[j]).0
        &&& forall|i: int, j: int| 0 <= i < j < self.ignored_apps.len()
            ==> self.ignored_apps[i] != self.ignored_apps[j]
    }
}

/// Some row holds exactly this content.
pub open spec fn has_content(rows: Seq<EntryModel>, c: Seq<char>) -> bool {
    exists|i: int| 0 <= i < rows.len() && rows[i].content == c
}

/// The index of the row holding this content (unique under the invariant).
pub open spec fn content_index(rows: Seq<EntryModel>, c: Seq<char>) -> int {
    choose|i: int| 0 <= i < rows.len() && rows[i].content == c
}

/// Some row has this id.
pub open spec fn has_id(rows: Seq<EntryModel>, id: int) -> bool {
    exists|i: int| 0 <= i < rows.len() && rows[i].id == id
}

/// The index of the row with this id (unique under the invariant).
pub open spec fn id_index(rows: Seq<EntryModel>, id: int) -> int {
    choose|i: int| 0 <= i < rows.len() && rows[i].id == id
}

/// An existing row refreshed by a repeat capture: the timestamp moves to
/// `now` and the source application is replaced when a new one is known.
pub open spec fn refreshed(e: EntryModel, src: Option<Seq<char>>, now: u64) -> EntryModel {
    EntryModel {
        created_at: now,
        source_app: if src is Some {
            src
        } else {
            e.source_app
        },
        ..e
    }
}

/// A brand-new row as `insert` creates it.
pub open spec fn fresh_entry(
    id: int,
    c: Seq<char>,
    src: Option<Seq<char>>,
    img: Option<Seq<u8>>,
    now: u64,
) -> EntryModel {
    EntryModel {
        id: id,
        content: c,
        source_app: src,
        content_type: classify_spec(c),
        created_at: now,
        is_pinned: false,
        image_data: img,
    }
}

/// The values of a sequence of entries.
pub open spec fn views_of(s: Seq<ClipboardEntry>) -> Seq<EntryModel> {
    s.map_values(|e: ClipboardEntry| e@)
}

/// `m` with its entry sequence replaced and everything else unchanged.
pub open spec fn with_entries(m: StoreModel, rows: Seq<EntryModel>) -> StoreModel {
    StoreModel { entries: rows, ..m }
}

/// `a` was captured more recently than `b` (ties on the timestamp are
/// broken by the id, so the order is strict and total over stored rows).
pub open spec fn more_recent(a: EntryModel, b: EntryModel) -> bool {
    a.created_at > b.created_at || (a.created_at == b.created_at && a.id > b.id)
}

/// Another row than `id` already holds this content.
pub open spec fn content_clash(rows: Seq<EntryModel>, id: int, c: Seq<char>) -> bool {
    exists|j: int| 0 <= j < rows.len() && (#[trigger] rows[j]).content == c && rows[j].id != id
}

/// The index of the most recently captured row (rows must be non-empty).
pub open spec fn latest_index(rows: Seq<EntryModel>) -> int
    decreases rows.len(),
{
    if rows.len() <= 1 {
        0
    } else {
        let j = latest_index(rows.drop_last());
        if more_recent(rows.last(), rows[j]) {
            rows.len() - 1
        } else {
            j
        }
    }
}

/// The most recently captured row is a maximum of the recency order.
pub proof fn lemma_latest_index(rows: Seq<EntryModel>)
    requires
        rows.len() > 0,
    ensures
        0 <= latest_index(rows) < rows.len(),
        forall|k: int| 0 <= k < rows.len() ==> !more_recent(rows[k], rows[latest_index(rows)]),
    decreases rows.len(),
{
    if rows.len() > 1 {
        let pre = rows.drop_last();
        lemma_latest_index(pre);
        let j = latest_index(pre);
        assert forall|k: int| 0 <= k < rows.len() implies !more_recent(
            rows[k],
            rows[latest_index(rows)],
        ) by {
            if k < rows.len() - 1 {
                assert(pre[k] == rows[k]);
                assert(!more_recent(pre[k], pre[j]));
            }
        }
    }
}

/// The oldest capture time that survives the age phase of `cleanup`:
/// `max_age_days` days (of 86400 seconds) before `now`, or the epoch when
/// that would lie before it.
pub open spec fn age_cutoff(now: u64, max_age_days: u64) -> int {
    if now >= max_age_days * 86400 {
        now - max_age_days * 86400
    } else {
        0
    }
}

/// A row survives the age phase: pinned rows unconditionally, others by
/// being new enough.
pub open spec fn survives_age(e: EntryModel, cutoff: int) -> bool {
    e.is_pinned || e.created_at >= cutoff
}

/// How many unpinned rows of `rows` were captured more recently than `e`.
pub open spec fn unpinned_rank(rows: Seq<EntryModel>, e: EntryModel) -> int {
    rows.filter(|x: EntryModel| !x.is_pinned && more_recent(x, e)).len() as int
}

/// A row survives the count phase: pinned rows unconditionally, unpinned
/// rows only when fewer than `max_entries` unpinned rows are more recent.
pub open spec fn survives_count(rows: Seq<EntryModel>, e: EntryModel, max_entries: u64) -> bool {
    e.is_pinned || unpinned_rank(rows, e) < max_entries
}

/// The store after retention cleanup: first the age phase drops unpinned
/// rows older than the cutoff, then the count phase keeps only the
/// `max_entries` most recent unpinned rows. Pinned rows are exempt from
/// both phases; the surviving rows keep their order.
pub open spec fn cleanup_spec(
    m: StoreModel,
    max_age_days: u64,
    max_entries: u64,
    now: u64,
) -> StoreModel {
    let cutoff = age_cutoff(now, max_age_days);
    let kept1 = m.entries.filter(|e: EntryModel| survives_age(e, cutoff));
    let kept2 = kept1.filter(|e: EntryModel| survives_count(kept1, e, max_entries));
    with_entries(m, kept2)
}

/// Filtering keeps every row a row of the source, and keeps ids and
/// contents pairwise distinct.
pub proof fn lemma_filter_keeps_distinct(rows: Seq<EntryModel>, pred: spec_fn(EntryModel) -> bool)
    requires
        forall|i: int, j: int| 0 <= i < j < rows.len() ==> rows[i].id != rows[j].id,
        forall|i: int, j: int| 0 <= i < j < rows.len() ==> rows[i].content != rows[j].content,
    ensures
        forall|a: int| 0 <= a < rows.filter(pred).len() ==> exists|k: int|
            0 <= k < rows.len() && rows[k] == #[trigger] rows.filter(pred)[a],
        forall|a: int, b: int| 0 <= a < b < rows.filter(pred).len() ==> rows.filter(pred)[a].id
            != rows.filter(pred)[b].id,
        forall|a: int, b: int| 0 <= a < b < rows.filter(pred).len() ==> rows.filter(
            pred,
        )[a].content != rows.filter(pred)[b].content,
    decreases rows.len(),
{
    reveal(Seq::filter);
    if rows.len() > 0 {
        let pre = rows.drop_last();
        lemma_filter_keeps_distinct(pre, pred);
        let f = rows.filter(pred);
        let fp = pre.filter(pred);
        assert forall|a: int| 0 <= a < f.len() implies exists|k: int|
            0 <= k < rows.len() && rows[k] == #[trigger] f[a] by {
            if a < fp.len() {
                let k = choose|k: int| 0 <= k < pre.len() && pre[k] == fp[a];
                assert(rows[k] == f[a]);
            } else {
                assert(rows[rows.len() - 1] == f[a]);
            }
        }
        assert forall|a: int, b: int| 0 <= a < b < f.len() implies f[a].id != f[b].id
            && f[a].content != f[b].content by {
            if b < fp.len() {
                assert(fp[a].id != fp[b].id && fp[a].content != fp[b].content);
            } else {
                // b is the appended last row; a's row is some earlier source row
                let k = choose|k: int| 0 <= k < pre.len() && pre[k] == fp[a];
                assert(rows[k] == f[a]);
                assert(f[b] == rows[rows.len() - 1]);
            }
        }
    }
}

/// Some setting is stored under this key.
pub open spec fn has_key(settings: Seq<(Seq<char>, Seq<char>)>, k: Seq<char>) -> bool {
    exists|i: int| 0 <= i < settings.len() && (#[trigger] settings[i]).0 == k
}

/// The index of the setting with this key (unique under the invariant).
pub open spec fn key_index(settings: Seq<(Seq<char>, Seq<char>)>, k: Seq<char>) -> int {
    choose|i: int| 0 <= i < settings.len() && (#[trigger] settings[i]).0 == k
}

/// This application name is on the ignored list.
pub open spec fn has_app(apps: Seq<Seq<char>>, a: Seq<char>) -> bool {
    exists|i: int| 0 <= i < apps.len() && apps[i] == a
}

/// The index of this application name on the ignored list.
pub open spec fn app_index(apps: Seq<Seq<char>>, a: Seq<char>) -> int {
    choose|i: int| 0 <= i < apps.len() && apps[i] == a
}

/// Whether `insert` succeeds: a repeat capture always does, a fresh one
/// needs an unused id.
pub open spec fn insert_ok(m: StoreModel, c: Seq<char>) -> bool {
    has_content(m.entries, c) || m.next_id < i64::MAX
}

/// The store after a successful insert, and the id it reports.
pub open spec fn insert_spec(
    m: StoreModel,
    c: Seq<char>,
    src: Option<Seq<char>>,
    img: Option<Seq<u8>>,
    now: u64,
) -> (StoreModel, int) {
    if has_content(m.entries, c) {
        let i = content_index(m.entries, c);
        (
            StoreModel { entries: m.entries.update(i, refreshed(m.entries[i], src, now)), ..m },
            m.entries[i].id,
        )
    } else {
        (
            StoreModel {
                entries: m.entries.push(fresh_entry(m.next_id, c, src, img, now)),
                next_id: m.next_id + 1,
                ..m
            },
            m.next_id,
        )
    }
}

impl Database {
    /// An empty store; ids start at one.
    pub fn new() -> (db: Database)
        ensures
            db@.inv(),
            db@.entries.len() == 0,
            db@.next_id == 1,
            db@.settings.len() == 0,
            db@.ignored_apps.len() == 0,
    {
        let db = Database {
            entries: Vec::new(),
            next_id: 1,
            settings: Vec::new(),
            ignored_apps: Vec::new(),
        };
        proof {
            assert(db@.entries =~= Seq::<EntryModel>::empty());
            assert(db@.settings =~= Seq::<(Seq<char>, Seq<char>)>::empty());
            assert(db@.ignored_apps =~= Seq::<Seq<char>>::empty());
        }
        db
    }

    /// The index of the row holding exactly `content`, if any.
    fn find_content(&self, content: &String) -> (r: Option<usize>)
        ensures
            match r {
                Some(i) => i < self@.entries.len() && self@.entries[i as int].content == content@
                    && has_content(self@.entries, content@),
                None => !has_content(self@.entries, content@),
            },
    {
        let n = self.entries.len();
        let mut i: usize = 0;
        while i < n
            invariant
                n == self@.entries.len(),
                0 <= i <= n,
                forall|k: int| 0 <= k < i ==> (#[trigger] self@.entries[k]).content != content@,
            decreases n - i,
        {
            if self.entries[i].content == *content {
                return Some(i);
            }
            i += 1;
        }
        None
    }

    /// The index of the row with id `id`, if any.
    fn find_id(&self, id: i64) -> (r: Option<usize>)
        ensures
            match r {
                Some(i) => i < self@.entries.len() && self@.entries[i as int].id == id as int
                    && has_id(self@.entries, id as int),
                None => !has_id(self@.entries, id as int),
            },
    {
        let n = self.entries.len();
        let mut i: usize = 0;
        while i < n
            invariant
                n == self@.entries.len(),
                0 <= i <= n,
                forall|k: int| 0 <= k < i ==> (#[trigger] self@.entries[k]).id != id as int,
            decreases n - i,
        {
            if self.entries[i].id == id {
                return Some(i);
            }
            i += 1;
        }
        None
    }

    /// Record a capture. If a row with identical content exists, refresh its
    /// timestamp (and its source application when one is given) and report
    /// the existing id: never a second row. Otherwise classify the content
    /// and append a new unpinned row under a fresh id.
    pub fn insert(
        &mut self,
        content: &str,
        source_app: Option<&str>,
        image_data: Option<Vec<u8>>,
        now: u64,
    ) -> (r: Result<i64, StoreError>)
        requires
            old(self)@.inv(),
        ensures
            final(self)@.inv(),
            insert_ok(old(self)@, content@) ==> {
                let (m2, id) = insert_spec(
                    old(self)@,
                    content@,
                    opt_str_view(source_app),
                    opt_bytes_view(image_data),
                    now,
                );
                r matches Ok(got) && got as int == id && final(self)@ == m2
            },
            !insert_ok(old(self)@, content@) ==> r == Err::<i64, StoreError>(
                StoreError::CapacityExhausted,
            ) && final(self)@ == old(self)@,
    {
        let owned: String = content.to_owned();
        match self.find_content(&owned) {
            Some(i) => {
                let ghost m = old(self)@;
                let ghost spec_i = content_index(m.entries, content@);
                proof {
                    // The invariant makes the matching row unique, so the
                    // found index is the chosen one.
                    assert(m.entries[spec_i].content == content@);
                    assert(spec_i == i as int);
                }
                let mut e = self.entries.remove(i);
                e.created_at = now;
                if let Some(s) = source_app {
                    e.source_app = Some(s.to_owned());
                }
                let id = e.id;
                self.entries.insert(i, e);
                proof {
                    assert(final(self)@.entries =~= m.entries.update(
                        i as int,
                        refreshed(m.entries[i as int], opt_str_view(source_app), now),
                    ));
                    assert(final(self)@ == insert_spec(
                        m,
                        content@,
                        opt_str_view(source_app),
                        opt_bytes_view(image_data),
                        now,
                    ).0);
                }
                Ok(id)
            },
            None => {
                if self.next_id == i64::MAX {
                    return Err(StoreError::CapacityExhausted);
                }
                let ghost m = old(self)@;
                let id = self.next_id;
                let kind = classify(content);
                let e = ClipboardEntry {
                    id: id,
                    content: owned,
                    source_app: match source_app {
                        Some(s) => Some(s.to_owned()),
                        None => None,
                    },
                    content_type: kind,
                    created_at: now,
                    is_pinned: false,
                    image_data: image_data,
                };
                self.entries.push(e);
                self.next_id = id + 1;
                proof {
                    assert(final(self)@.entries =~= m.entries.push(fresh_entry(
                        m.next_id,
                        content@,
                        opt_str_view(source_app),
                        opt_bytes_view(image_data),
                        now,
                    )));
                    assert(final(self)@ == insert_spec(
                        m,
                        content@,
                        opt_str_view(source_app),
                        opt_bytes_view(image_data),
                        now,
                    ).0);
                }
                Ok(id)
            },
        }
    }

    /// Flip the pinned state of the entry with id `id` and report the new
    /// state; absent ids are reported as such.
    pub fn toggle_pin(&mut self, id: i64) -> (r: Result<bool, StoreError>)
        requires
            old(self)@.inv(),
        ensures
            final(self)@.inv(),
            !has_id(old(self)@.entries, id as int) ==> r == Err::<bool, StoreError>(
                StoreError::NotFound,
            ) && final(self)@ == old(self)@,
            has_id(old(self)@.entries, id as int) ==> ({
                let i = id_index(old(self)@.entries, id as int);
                let e = old(self)@.entries[i];
                r == Ok::<bool, StoreError>(!e.is_pinned) && final(self)@ == with_entries(
                    old(self)@,
                    old(self)@.entries.update(i, EntryModel { is_pinned: !e.is_pinned, ..e }),
                )
            }),
    {
        match self.find_id(id) {
            Some(i) => {
                let ghost m = old(self)@;
                proof {
                    let j = id_index(m.entries, id as int);
                    assert(m.entries[j].id == id as int);
                    assert(j == i as int);
                }
                let mut e = self.entries.remove(i);
                let new_state = !e.is_pinned;
                e.is_pinned = new_state;
                self.entries.insert(i, e);
                proof {
                    let ghost old_e = m.entries[i as int];
                    assert(final(self)@.entries =~= m.entries.update(
                        i as int,
                        EntryModel { is_pinned: !old_e.is_pinned, ..old_e },
                    ));
                    assert(final(self)@ == with_entries(
                        m,
                        m.entries.update(
                            i as int,
                            EntryModel { is_pinned: !old_e.is_pinned, ..old_e },
                        ),
                    ));
                }
                Ok(new_state)
            },
            None => Err(StoreError::NotFound),
        }
    }

    /// Remove the entry with id `id`. Removing an absent id changes nothing:
    /// deletion is idempotent.
    pub fn delete(&mut self, id: i64)
        requires
            old(self)@.inv(),
        ensures
            final(self)@.inv(),
            !has_id(old(self)@.entries, id as int) ==> final(self)@ == old(self)@,
            has_id(old(self)@.entries, id as int) ==> final(self)@ == with_entries(
                old(self)@,
                old(self)@.entries.remove(id_index(old(self)@.entries, id as int)),
            ),
    {
        match self.find_id(id) {
            Some(i) => {
                let ghost m = old(self)@;
                proof {
                    let j = id_index(m.entries, id as int);
                    assert(m.entries[j].id == id as int);
                    assert(j == i as int);
                }
                self.entries.remove(i);
                proof {
                    assert(final(self)@.entries =~= m.entries.remove(i as int));
                    assert(final(self)@ == with_entries(m, m.entries.remove(i as int)));
                }
            },
            None => {},
        }
    }

    /// Replace the content of the entry with id `id` in place and classify
    /// the new content. The edit is refused when the id is absent, and when
    /// another row already holds the new content (content stays unique).
    pub fn update_content(&mut self, id: i64, new_content: &str) -> (r: Result<(), StoreError>)
        requires
            old(self)@.inv(),
        ensures
            final(self)@.inv(),
            !has_id(old(self)@.entries, id as int) ==> r == Err::<(), StoreError>(
                StoreError::NotFound,
            ) && final(self)@ == old(self)@,
            has_id(old(self)@.entries, id as int) && content_clash(
                old(self)@.entries,
                id as int,
                new_content@,
            ) ==> r == Err::<(), StoreError>(StoreError::DuplicateContent) && final(self)@ == old(
                self,
            )@,
            has_id(old(self)@.entries, id as int) && !content_clash(
                old(self)@.entries,
                id as int,
                new_content@,
            ) ==> ({
                let i = id_index(old(self)@.entries, id as int);
                let e = old(self)@.entries[i];
                r == Ok::<(), StoreError>(()) && final(self)@ == with_entries(
                    old(self)@,
                    old(self)@.entries.update(
                        i,
                        EntryModel {
                            content: new_content@,
                            content_type: classify_spec(new_content@),
                            ..e
                        },
                    ),
                )
            }),
    {
        let owned: String = new_content.to_owned();
        match self.find_id(id) {
            Some(i) => {
                let ghost m = old(self)@;
                proof {
                    let j = id_index(m.entries, id as int);
                    assert(m.entries[j].id == id as int);
                    assert(j == i as int);
                }
                match self.find_content(&owned) {
                    Some(j) if self.entries[j].id != id => {
                        proof {
                            assert(content_clash(m.entries, id as int, new_content@));
                        }
                        Err(StoreError::DuplicateContent)
                    },
                    other => {
                        proof {
                            // Any clashing row would hold exactly the new
                            // content, and contents are unique, so the
                            // content scan would have found it.
                            if content_clash(m.entries, id as int, new_content@) {
                                let j = choose|j: int|
                                    0 <= j < m.entries.len() && (#[trigger] m.entries[j]).content
                                        == new_content@ && m.entries[j].id != id as int;
                                assert(has_content(m.entries, new_content@));
                            }
                        }
                        let kind = classify(new_content);
                        let mut e = self.entries.remove(i);
                        e.content = owned;
                        e.content_type = kind;
                        self.entries.insert(i, e);
                        proof {
                            let old_e = m.entries[i as int];
                            assert(final(self)@.entries =~= m.entries.update(
                                i as int,
                                EntryModel {
                                    content: new_content@,
                                    content_type: classify_spec(new_content@),
                                    ..old_e
                                },
                            ));
                            assert(final(self)@ == with_entries(
                                m,
                                m.entries.update(
                                    i as int,
                                    EntryModel {
                                        content: new_content@,
                                        content_type: classify_spec(new_content@),
                                        ..old_e
                                    },
                                ),
                            ));
                        }
                        Ok(())
                    },
                }
            },
            None => Err(StoreError::NotFound),
        }
    }

    /// The content of the most recently captured entry, if any.
    pub fn get_last_content(&self) -> (r: Option<String>)
        requires
            self@.inv(),
        ensures
            (self@.entries.len() == 0) == (r is None),
            r matches Some(s) ==> ({
                let i = latest_index(self@.entries);
                0 <= i < self@.entries.len() && s@ == self@.entries[i].content && forall|k: int|
                    0 <= k < self@.entries.len() ==> !more_recent(
                        self@.entries[k],
                        self@.entries[i],
                    )
            }),
    {
        let n = self.entries.len();
        if n == 0 {
            return None;
        }
        let mut best: usize = 0;
        let mut i: usize = 1;
        while i < n
            invariant
                n == self@.entries.len(),
                1 <= i <= n,
                best < i,
                best as int == latest_index(self@.entries.subrange(0, i as int)),
            decreases n - i,
        {
            let better = self.entries[i].created_at > self.entries[best].created_at
                || (self.entries[i].created_at == self.entries[best].created_at
                    && self.entries[i].id > self.entries[best].id);
            proof {
                let pre = self@.entries.subrange(0, i as int + 1);
                assert(pre.drop_last() =~= self@.entries.subrange(0, i as int));
                assert(pre.last() == self@.entries[i as int]);
                assert(better == more_recent(self@.entries[i as int], self@.entries[best as int]));
            }
            if better {
                best = i;
            }
            i += 1;
        }
        proof {
            assert(self@.entries.subrange(0, n as int) =~= self@.entries);
            lemma_latest_index(self@.entries);
        }
        Some(self.entries[best].content.clone())
    }

    /// Search the history. Every whitespace-separated term of the query
    /// (quote characters are first removed) must prefix-match a term of an
    /// entry's content or source application name; a query without terms
    /// matches every entry. The result holds the first `limit` matches in
    /// the result order: pinned entries first, then most recent first.
    pub fn search(&self, query: &str, limit: usize) -> (r: Vec<ClipboardEntry>)
        requires
            self@.inv(),
        ensures
            ({
                let rows = self@.entries;
                let rv = views_of(r@);
                &&& rv.len() == (if count_matches(rows, query@) <= limit as int {
                    count_matches(rows, query@)
                } else {
                    limit as int
                })
                &&& (forall|j: int| 0 <= j < rv.len() ==> rows.contains(#[trigger] rv[j])
                    && entry_matches(rv[j], query@))
                &&& (forall|a: int, b: int| 0 <= a < b < rv.len() ==> !result_before(rv[b], rv[a]))
                &&& (forall|a: int, b: int| 0 <= a < b < rv.len() ==> rv[a].id != rv[b].id)
                &&& (forall|k: int, a: int| 0 <= k < rows.len() && 0 <= a < rv.len()
                    && entry_matches(#[trigger] rows[k], query@) && !has_id(rv, rows[k].id)
                    ==> !result_before(rows[k], #[trigger] rv[a]))
            }),
    {
        let ghost rows = self@.entries;
        let ghost mpred = |e: EntryModel| entry_matches(e, query@);
        let cq = clean_query(query);

        // Collect the indices of the matching entries, in store order.
        let n = self.entries.len();
        let mut idxs: Vec<usize> = Vec::new();
        let mut i: usize = 0;
        while i < n
            invariant
                self@.inv(),
                rows == self@.entries,
                n == rows.len(),
                cq@ == strip_quotes(query@),
                mpred == (|e: EntryModel| entry_matches(e, query@)),
                0 <= i <= n,
                idxs@.len() == rows.subrange(0, i as int).filter(mpred).len(),
                forall|t: int| 0 <= t < idxs@.len() ==> (#[trigger] idxs@[t]) < i,
                forall|t: int| 0 <= t < idxs@.len() ==> mpred(rows[#[trigger] idxs@[t] as int]),
                forall|a: int, b: int| 0 <= a < b < idxs@.len() ==> idxs@[a] != idxs@[b],
                forall|k: int| 0 <= k < i && mpred(#[trigger] rows[k]) ==> in_idxs(idxs@, k),
            decreases n - i,
        {
            let ghost pre = rows.subrange(0, i as int);
            let ghost pre1 = rows.subrange(0, i as int + 1);
            proof {
                reveal(Seq::filter);
                assert(pre1.drop_last() =~= pre);
                assert(pre1.last() == rows[i as int]);
            }
            let ghost idxs0 = idxs@;
            if entry_matches_exec(&self.entries[i], &cq) {
                proof {
                    assert(mpred(rows[i as int]));
                }
                idxs.push(i);
                proof {
                    assert forall|k: int| 0 <= k < i + 1 && mpred(#[trigger] rows[k]) implies
                        in_idxs(idxs@, k) by {
                        if k == i as int {
                            assert(idxs@[idxs0.len() as int] as int == k);
                        } else {
                            let t = choose|t: int| 0 <= t < idxs0.len() && idxs0[t] as int == k;
                            assert(idxs@[t] as int == k);
                        }
                    }
                }
            } else {
                proof {
                    assert(!mpred(rows[i as int]));
                }
            }
            i += 1;
        }
        proof {
            assert(rows.subrange(0, n as int) =~= rows);
        }

        // Repeatedly take the candidate that comes first in the result
        // order, until the limit is reached or no candidate is left.
        let ghost total = count_matches(rows, query@);
        let mut out: Vec<ClipboardEntry> = Vec::new();
        while out.len() < limit && idxs.len() > 0
            invariant
                self@.inv(),
                rows == self@.entries,
                n == rows.len(),
                mpred == (|e: EntryModel| entry_matches(e, query@)),
                total == count_matches(rows, query@),
                views_of(out@).len() + idxs@.len() == total,
                views_of(out@).len() <= limit,
                forall|t: int| 0 <= t < idxs@.len() ==> (#[trigger] idxs@[t]) < n,
                forall|t: int| 0 <= t < idxs@.len() ==> mpred(rows[#[trigger] idxs@[t] as int]),
                forall|a: int, b: int| 0 <= a < b < idxs@.len() ==> idxs@[a] != idxs@[b],
                forall|t: int| 0 <= t < idxs@.len() ==> !has_id(
                    views_of(out@),
                    rows[#[trigger] idxs@[t] as int].id,
                ),
                forall|a: int| 0 <= a < views_of(out@).len() ==> rows.contains(
                    #[trigger] views_of(out@)[a],
                ) && mpred(views_of(out@)[a]),
                forall|a: int, b: int| 0 <= a < b < views_of(out@).len() ==> views_of(out@)[a].id
                    != views_of(out@)[b].id,
                forall|a: int, b: int| 0 <= a < b < views_of(out@).len() ==> !result_before(
                    views_of(out@)[b],
                    views_of(out@)[a],
                ),
                forall|a: int, t: int| 0 <= a < views_of(out@).len() && 0 <= t < idxs@.len()
                    ==> !result_before(
                    rows[#[trigger] idxs@[t] as int],
                    #[trigger] views_of(out@)[a],
                ),
                forall|k: int| 0 <= k < n && mpred(#[trigger] rows[k]) ==> (in_idxs(idxs@, k)
                    || has_id(views_of(out@), rows[k].id)),
            decreases idxs@.len(),
        {
            // Find the candidate that comes first in the result order.
            let m = idxs.len();
            let mut best: usize = 0;
            let mut t: usize = 1;
            while t < m
                invariant
                    rows == self@.entries,
                    n == rows.len(),
                    m == idxs@.len(),
                    1 <= t <= m,
                    best < t,
                    forall|u: int| 0 <= u < idxs@.len() ==> (#[trigger] idxs@[u]) < n,
                    forall|q: int| 0 <= q < t ==> !result_before(
                        rows[#[trigger] idxs@[q] as int],
                        rows[idxs@[best as int] as int],
                    ),
                decreases m - t,
            {
                let cand_first = result_before_exec(
                    &self.entries[idxs[t]],
                    &self.entries[idxs[best]],
                );
                if cand_first {
                    proof {
                        let new = rows[idxs@[t as int] as int];
                        let old_best = rows[idxs@[best as int] as int];
                        assert forall|q: int| 0 <= q < t + 1 implies !result_before(
                            rows[#[trigger] idxs@[q] as int],
                            new,
                        ) by {
                            if q < t && result_before(rows[idxs@[q] as int], new) {
                                lemma_result_before_trans(rows[idxs@[q] as int], new, old_best);
                            }
                        }
                    }
                    best = t;
                }
                t += 1;
            }

            // Move it from the candidates to the result.
            let ghost idxs0 = idxs@;
            let ghost out0 = out@;
            let bi = idxs.remove(best);
            out.push(self.entries[bi].duplicate());
            proof {
                let ghost bv = rows[bi as int];
                assert(views_of(out@) =~= views_of(out0).push(bv));
                let vo = views_of(out@);
                let vo0 = views_of(out0);
                // Every remaining candidate is a candidate still, with an id
                // not yet in the result.
                assert forall|u: int| 0 <= u < idxs@.len() implies (#[trigger] idxs@[u]) < n
                    && mpred(rows[idxs@[u] as int]) && !has_id(vo, rows[idxs@[u] as int].id) by {
                    if u < best as int {
                        assert(idxs@[u] == idxs0[u]);
                    } else {
                        assert(idxs@[u] == idxs0[u + 1]);
                    }
                    let ki = idxs@[u] as int;
                    // The candidate's id differs from every result id.
                    assert(!has_id(vo0, rows[ki].id));
                    assert(ki != bi as int);
                    if ki < bi as int {
                        assert(rows[ki].id != rows[bi as int].id);
                    } else {
                        assert(rows[bi as int].id != rows[ki].id);
                    }
                    assert forall|a: int| 0 <= a < vo.len() implies vo[a].id != rows[ki].id by {
                        if a < vo0.len() {
                            assert(vo[a] == vo0[a]);
                        }
                    }
                }
                // Candidate indices stay pairwise distinct.
                assert forall|a: int, b: int| 0 <= a < b < idxs@.len() implies idxs@[a]
                    != idxs@[b] by {
                    if b < best as int {
                    } else if a < best as int {
                        assert(idxs@[a] == idxs0[a] && idxs@[b] == idxs0[b + 1]);
                    } else {
                        assert(idxs@[a] == idxs0[a + 1] && idxs@[b] == idxs0[b + 1]);
                    }
                }
                // The new result entry is a matching row.
                assert(rows.contains(bv)) by {
                    assert(rows[bi as int] == bv);
                }
                // The result order and the cross fact are preserved.
                assert forall|a: int, u: int| 0 <= a < vo.len() && 0 <= u < idxs@.len() implies
                    !result_before(rows[#[trigger] idxs@[u] as int], #[trigger] vo[a]) by {
                    let q = if u < best as int {
                        u
                    } else {
                        u + 1
                    };
                    assert(idxs@[u] == idxs0[q]);
                    if a < vo0.len() {
                        assert(vo[a] == vo0[a]);
                        assert(!result_before(rows[idxs0[q] as int], vo0[a]));
                    } else {
                        assert(vo[a] == bv);
                        assert(!result_before(rows[idxs0[q] as int], rows[idxs0[best as int] as int]));
                    }
                }
                assert forall|a: int, b: int| 0 <= a < b < vo.len() implies !result_before(
                    vo[b],
                    vo[a],
                ) by {
                    if b < vo0.len() {
                        assert(vo[a] == vo0[a] && vo[b] == vo0[b]);
                    } else {
                        assert(vo[a] == vo0[a] && vo[b] == bv);
                        assert(!result_before(rows[idxs0[best as int] as int], vo0[a]));
                    }
                }
                assert forall|a: int, b: int| 0 <= a < b < vo.len() implies vo[a].id
                    != vo[b].id by {
                    if b < vo0.len() {
                        assert(vo[a] == vo0[a] && vo[b] == vo0[b]);
                    } else {
                        assert(vo[a] == vo0[a] && vo[b] == bv);
                        assert(!has_id(vo0, rows[idxs0[best as int] as int].id));
                    }
                }
                // Every matching row is still accounted for.
                assert forall|k: int| 0 <= k < n && mpred(#[trigger] rows[k]) implies (in_idxs(
                    idxs@,
                    k,
                ) || has_id(vo, rows[k].id)) by {
                    if in_idxs(idxs0, k) {
                        let q = choose|q: int| 0 <= q < idxs0.len() && idxs0[q] as int == k;
                        if q == best as int {
                            assert(vo[vo.len() - 1].id == rows[k].id);
                            assert(has_id(vo, rows[k].id));
                        } else {
                            let u = if q < best as int {
                                q
                            } else {
                                q - 1
                            };
                            assert(idxs@[u] as int == k);
                            assert(in_idxs(idxs@, k));
                        }
                    } else {
                        assert(has_id(vo0, rows[k].id));
                        let a = choose|a: int| 0 <= a < vo0.len() && vo0[a].id == rows[k].id;
                        assert(vo[a].id == rows[k].id);
                        assert(has_id(vo, rows[k].id));
                    }
                }
            }
        }
        proof {
            let rv = views_of(out@);
            // The result holds the first `limit` matches.
            if idxs@.len() > 0 {
                assert(rv.len() == limit);
            }
            assert forall|k: int, a: int| 0 <= k < n && 0 <= a < rv.len() && mpred(
                #[trigger] rows[k],
            ) && !has_id(rv, rows[k].id) implies !result_before(rows[k], #[trigger] rv[a]) by {
                assert(in_idxs(idxs@, k));
                let t = choose|t: int| 0 <= t < idxs@.len() && idxs@[t] as int == k;
                assert(!result_before(rows[idxs@[t] as int], rv[a]));
            }
        }
        out
    }

    /// Retention cleanup: drop unpinned entries older than `max_age_days`
    /// days before `now`, then keep only the `max_entries` most recent
    /// unpinned entries. Pinned entries are exempt from both phases.
    /// Reports how many entries were removed.
    pub fn cleanup(&mut self, max_age_days: u64, max_entries: u64, now: u64) -> (removed: usize)
        requires
            old(self)@.inv(),
        ensures
            final(self)@.inv(),
            final(self)@ == cleanup_spec(old(self)@, max_age_days, max_entries, now),
            removed == old(self)@.entries.len() - final(self)@.entries.len(),
    {
        broadcast use vstd::seq_lib::group_filter_ensures;

        let ghost m = old(self)@;
        // The age cutoff, saturating at the epoch.
        let cutoff: u64 = match max_age_days.checked_mul(86400) {
            Some(p) => if now >= p {
                now - p
            } else {
                0
            },
            None => 0,
        };
        proof {
            assert(cutoff as int == age_cutoff(now, max_age_days));
        }
        let ghost age_pred = |e: EntryModel| survives_age(e, age_cutoff(now, max_age_days));

        // Age phase: keep pinned entries and entries at or after the cutoff.
        let n = self.entries.len();
        let mut kept: Vec<ClipboardEntry> = Vec::new();
        let mut i: usize = 0;
        while i < n
            invariant
                n == self.entries@.len(),
                self@.entries == m.entries,
                self@ == m,
                0 <= i <= n,
                cutoff as int == age_cutoff(now, max_age_days),
                age_pred == (|e: EntryModel| survives_age(e, age_cutoff(now, max_age_days))),
                kept@.map_values(|e: ClipboardEntry| e@) == m.entries.subrange(0, i as int).filter(
                    age_pred,
                ),
            decreases n - i,
        {
            let ghost pre = m.entries.subrange(0, i as int);
            let ghost pre1 = m.entries.subrange(0, i as int + 1);
            proof {
                reveal(Seq::filter);
                assert(pre1.drop_last() =~= pre);
                assert(pre1.last() == m.entries[i as int]);
            }
            let e = &self.entries[i];
            if e.is_pinned || e.created_at >= cutoff {
                kept.push(e.duplicate());
                proof {
                    assert(kept@.map_values(|e: ClipboardEntry| e@) =~= pre.filter(age_pred).push(
                        m.entries[i as int],
                    ));
                }
            }
            i += 1;
        }
        proof {
            assert(m.entries.subrange(0, n as int) =~= m.entries);
        }
        self.entries = kept;
        let ghost kept1 = m.entries.filter(age_pred);
        proof {
            assert(self@.entries == kept1);
            lemma_filter_keeps_distinct(m.entries, age_pred);
        }

        // Count phase: among the survivors, find for each unpinned entry how
        // many unpinned entries are more recent, and keep the newest
        // `max_entries` of them.
        let ghost count_pred = |e: EntryModel| survives_count(kept1, e, max_entries);
        let k = self.entries.len();
        let mut flags: Vec<bool> = Vec::new();
        let mut a: usize = 0;
        while a < k
            invariant
                k == self.entries@.len(),
                self@.entries == kept1,
                self@.settings == m.settings,
                self@.ignored_apps == m.ignored_apps,
                self@.next_id == m.next_id,
                0 <= a <= k,
                count_pred == (|e: EntryModel| survives_count(kept1, e, max_entries)),
                flags@.len() == a,
                forall|t: int| 0 <= t < a ==> flags@[t] == count_pred(kept1[t]),
            decreases k - a,
        {
            let ea = &self.entries[a];
            if ea.is_pinned {
                flags.push(true);
            } else {
                let mut count: usize = 0;
                let mut b: usize = 0;
                while b < k
                    invariant
                        k == self.entries@.len(),
                        self@.entries == kept1,
                        0 <= b <= k,
                        a < k,
                        ea == &self.entries[a as int],
                        count <= b,
                        count as int == kept1.subrange(0, b as int).filter(
                            |x: EntryModel| !x.is_pinned && more_recent(x, kept1[a as int]),
                        ).len(),
                    decreases k - b,
                {
                    let ghost rpred = |x: EntryModel| !x.is_pinned && more_recent(
                        x,
                        kept1[a as int],
                    );
                    let ghost pre = kept1.subrange(0, b as int);
                    let ghost pre1 = kept1.subrange(0, b as int + 1);
                    proof {
                        reveal(Seq::filter);
                        assert(pre1.drop_last() =~= pre);
                        assert(pre1.last() == kept1[b as int]);
                    }
                    let eb = &self.entries[b];
                    if !eb.is_pinned && (eb.created_at > ea.created_at || (eb.created_at
                        == ea.created_at && eb.id > ea.id)) {
                        count += 1;
                    }
                    b += 1;
                }
                proof {
                    assert(kept1.subrange(0, k as int) =~= kept1);
                    assert(count as int == unpinned_rank(kept1, kept1[a as int]));
                }
                flags.push((count as u64) < max_entries);
            }
            a += 1;
        }

        // Rebuild from the flags.
        let mut kept2: Vec<ClipboardEntry> = Vec::new();
        let mut c: usize = 0;
        while c < k
            invariant
                k == self.entries@.len(),
                self@.entries == kept1,
                self@.settings == m.settings,
                self@.ignored_apps == m.ignored_apps,
                self@.next_id == m.next_id,
                0 <= c <= k,
                count_pred == (|e: EntryModel| survives_count(kept1, e, max_entries)),
                flags@.len() == k,
                forall|t: int| 0 <= t < k ==> flags@[t] == count_pred(kept1[t]),
                kept2@.map_values(|e: ClipboardEntry| e@) == kept1.subrange(0, c as int).filter(
                    count_pred,
                ),
            decreases k - c,
        {
            let ghost pre = kept1.subrange(0, c as int);
            let ghost pre1 = kept1.subrange(0, c as int + 1);
            proof {
                reveal(Seq::filter);
                assert(pre1.drop_last() =~= pre);
                assert(pre1.last() == kept1[c as int]);
            }
            if flags[c] {
                kept2.push(self.entries[c].duplicate());
                proof {
                    assert(kept2@.map_values(|e: ClipboardEntry| e@) =~= pre.filter(
                        count_pred,
                    ).push(kept1[c as int]));
                }
            }
            c += 1;
        }
        proof {
            assert(kept1.subrange(0, k as int) =~= kept1);
        }
        let removed = n - kept2.len();
        self.entries = kept2;
        proof {
            lemma_filter_keeps_distinct(kept1, count_pred);
            let fin = kept1.filter(count_pred);
            // Surviving rows are rows of the original store, so the id
            // bound of the invariant carries over.
            assert forall|t: int| 0 <= t < fin.len() implies 1 <= (#[trigger] fin[t]).id
                < m.next_id by {
                let k1 = choose|k1: int| 0 <= k1 < kept1.len() && kept1[k1] == fin[t];
                let k0 = choose|k0: int| 0 <= k0 < m.entries.len() && m.entries[k0] == kept1[k1];
                assert(1 <= m.entries[k0].id < m.next_id);
            }
            assert(final(self)@ == cleanup_spec(m, max_age_days, max_entries, now));
        }
        removed
    }

    /// The value stored under `key`, if any.
    pub fn get_setting(&self, key: &str) -> (r: Option<String>)
        requires
            self@.inv(),
        ensures
            match r {
                Some(v) => has_key(self@.settings, key@) && v@ == self@.settings[key_index(
                    self@.settings,
                    key@,
                )].1,
                None => !has_key(self@.settings, key@),
            },
    {
        let owned: String = key.to_owned();
        let n = self.settings.len();
        let mut i: usize = 0;
        while i < n
            invariant
                self@.inv(),
                n == self@.settings.len(),
                owned@ == key@,
                self@.settings == self.settings@.map_values(|p: (String, String)| (p.0@, p.1@)),
                0 <= i <= n,
                forall|t: int| 0 <= t < i ==> (#[trigger] self@.settings[t]).0 != key@,
            decreases n - i,
        {
            proof {
                assert(self@.settings[i as int] == (
                    self.settings@[i as int].0@,
                    self.settings@[i as int].1@,
                ));
            }
            if self.settings[i].0 == owned {
                proof {
                    assert(has_key(self@.settings, key@));
                    let j = key_index(self@.settings, key@);
                    assert(self@.settings[j].0 == key@);
                    assert(j == i as int);
                }
                return Some(self.settings[i].1.clone());
            }
            i += 1;
        }
        None
    }

    /// Store `value` under `key`, replacing any previous value.
    pub fn set_setting(&mut self, key: &str, value: &str)
        requires
            old(self)@.inv(),
        ensures
            final(self)@.inv(),
            final(self)@ == (StoreModel {
                settings: if has_key(old(self)@.settings, key@) {
                    old(self)@.settings.update(
                        key_index(old(self)@.settings, key@),
                        (key@, value@),
                    )
                } else {
                    old(self)@.settings.push((key@, value@))
                },
                ..old(self)@
            }),
    {
        let ghost m = old(self)@;
        let owned: String = key.to_owned();
        let n = self.settings.len();
        let mut i: usize = 0;
        while i < n
            invariant
                m == old(self)@,
                m.inv(),
                n == self@.settings.len(),
                owned@ == key@,
                self@ == m,
                self@.settings == self.settings@.map_values(|p: (String, String)| (p.0@, p.1@)),
                0 <= i <= n,
                forall|t: int| 0 <= t < i ==> (#[trigger] self@.settings[t]).0 != key@,
            decreases n - i,
        {
            proof {
                assert(self@.settings[i as int] == (
                    self.settings@[i as int].0@,
                    self.settings@[i as int].1@,
                ));
            }
            if self.settings[i].0 == owned {
                proof {
                    assert(has_key(m.settings, key@));
                    let j = key_index(m.settings, key@);
                    assert(m.settings[j].0 == key@);
                    assert(j == i as int);
                }
                self.settings.remove(i);
                self.settings.insert(i, (owned, value.to_owned()));
                proof {
                    assert(final(self)@.settings =~= m.settings.update(
                        i as int,
                        (key@, value@),
                    ));
                    assert(final(self)@ == StoreModel {
                        settings: m.settings.update(i as int, (key@, value@)),
                        ..m
                    });
                }
                return ;
            }
            i += 1;
        }
        self.settings.push((owned, value.to_owned()));
        proof {
            assert(final(self)@.settings =~= m.settings.push((key@, value@)));
            assert(final(self)@ == StoreModel { settings: m.settings.push((key@, value@)), ..m });
        }
    }

    /// The ignored application names, in list order.
    pub fn get_ignored_apps(&self) -> (r: Vec<String>)
        ensures
            r@.map_values(|s: String| s@) == self@.ignored_apps,
    {
        let n = self.ignored_apps.len();
        let mut r: Vec<String> = Vec::new();
        let mut i: usize = 0;
        while i < n
            invariant
                n == self@.ignored_apps.len(),
                self@.ignored_apps == self.ignored_apps@.map_values(|s: String| s@),
                0 <= i <= n,
                r@.len() == i,
                forall|t: int| 0 <= t < i ==> (#[trigger] r@[t])@ == self@.ignored_apps[t],
            decreases n - i,
        {
            proof {
                assert(self@.ignored_apps[i as int] == self.ignored_apps@[i as int]@);
            }
            r.push(self.ignored_apps[i].clone());
            i += 1;
        }
        proof {
            assert(r@.map_values(|s: String| s@) =~= self@.ignored_apps);
        }
        r
    }

    /// Whether captures from this application are ignored.
    pub fn is_app_ignored(&self, app: &str) -> (r: bool)
        ensures
            r == has_app(self@.ignored_apps, app@),
    {
        let owned: String = app.to_owned();
        let n = self.ignored_apps.len();
        let mut i: usize = 0;
        while i < n
            invariant
                n == self@.ignored_apps.len(),
                owned@ == app@,
                self@.ignored_apps == self.ignored_apps@.map_values(|s: String| s@),
                0 <= i <= n,
                forall|t: int| 0 <= t < i ==> self@.ignored_apps[t] != app@,
            decreases n - i,
        {
            proof {
                assert(self@.ignored_apps[i as int] == self.ignored_apps@[i as int]@);
            }
            if self.ignored_apps[i] == owned {
                proof {
                    assert(has_app(self@.ignored_apps, app@));
                }
                return true;
            }
            i += 1;
        }
        false
    }

    /// Put `app` on the ignored list; present names are left alone.
    pub fn add_ignored_app(&mut self, app: &str)
        requires
            old(self)@.inv(),
        ensures
            final(self)@.inv(),
            has_app(old(self)@.ignored_apps, app@) ==> final(self)@ == old(self)@,
            !has_app(old(self)@.ignored_apps, app@) ==> final(self)@ == (StoreModel {
                ignored_apps: old(self)@.ignored_apps.push(app@),
                ..old(self)@
            }),
    {
        let ghost m = old(self)@;
        if !self.is_app_ignored(app) {
            self.ignored_apps.push(app.to_owned());
            proof {
                assert(final(self)@.ignored_apps =~= m.ignored_apps.push(app@));
                assert(final(self)@ == StoreModel {
                    ignored_apps: m.ignored_apps.push(app@),
                    ..m
                });
            }
        }
    }

    /// Take `app` off the ignored list; absent names are left alone.
    pub fn remove_ignored_app(&mut self, app: &str)
        requires
            old(self)@.inv(),
        ensures
            final(self)@.inv(),
            !has_app(old(self)@.ignored_apps, app@) ==> final(self)@ == old(self)@,
            has_app(old(self)@.ignored_apps, app@) ==> final(self)@ == (StoreModel {
                ignored_apps: old(self)@.ignored_apps.remove(
                    app_index(old(self)@.ignored_apps, app@),
                ),
                ..old(self)@
            }),
    {
        let ghost m = old(self)@;
        let owned: String = app.to_owned();
        let n = self.ignored_apps.len();
        let mut i: usize = 0;
        while i < n
            invariant
                m == old(self)@,
                m.inv(),
                n == self@.ignored_apps.len(),
                owned@ == app@,
                self@ == m,
                self@.ignored_apps == self.ignored_apps@.map_values(|s: String| s@),
                0 <= i <= n,
                forall|t: int| 0 <= t < i ==> self@.ignored_apps[t] != app@,
            decreases n - i,
        {
            proof {
                assert(self@.ignored_apps[i as int] == self.ignored_apps@[i as int]@);
            }
            if self.ignored_apps[i] == owned {
                proof {
                    assert(has_app(m.ignored_apps, app@));
                    let j = app_index(m.ignored_apps, app@);
                    assert(m.ignored_apps[j] == app@);
                    assert(j == i as int);
                }
                self.ignored_apps.remove(i);
                proof {
                    assert(final(self)@.ignored_apps =~= m.ignored_apps.remove(i as int));
                    assert(final(self)@ == StoreModel {
                        ignored_apps: m.ignored_apps.remove(i as int),
                        ..m
                    });
                }
                return ;
            }
            i += 1;
        }
    }

    /// The entry with id `id`, if present.
    pub fn get_by_id(&self, id: i64) -> (r: Option<ClipboardEntry>)
        requires
            self@.inv(),
        ensures
            match r {
                Some(e) => has_id(self@.entries, id as int) && e@ == self@.entries[id_index(
                    self@.entries,
                    id as int,
                )],
                None => !has_id(self@.entries, id as int),
            },
    {
        match self.find_id(id) {
            Some(i) => {
                proof {
                    let j = id_index(self@.entries, id as int);
                    assert(self@.entries[j].id == id as int);
                    assert(j == i as int);
                }
                Some(self.entries[i].duplicate())
            },
            None => None,
        }
    }
}

} // verus!
