//! The clipboard database: history entries and settings.
use vstd::prelude::*;

use crate::entry::{entry_views, ClipboardEntry, EntryKind, EntryView};
use crate::like_match::like_matches;
use crate::model::{
    config_map, entries_valid, entry_matches, has_hash, hash_index, insert_outcome, is_listing,
    keys_unique, lemma_config_absent, lemma_config_lookup, lemma_config_update,
    lemma_select_congruent, lemma_select_step, lemma_select_valid, listed_before,
    listing_indices, newer, newer_unpinned_count, pinned_fn, prune_drop_fn, prune_keep_fn,
    prune_keeps, query_pattern, select, toggle_pin, touch, unpinned_fn, DbError, DbView,
};
use crate::settings::{configured_history_limit, history_limit_setting};
use crate::text::{chars_of, is_blank, trim};

verus! {

/// The clipboard history and the settings, as one database.
pub struct ClipboardDb {
    entries: Vec<ClipboardEntry>,
    last_id: i64,
    config: Vec<(String, String)>,
}

/// The value of an optional string slice.
pub open spec fn opt_str_view(s: Option<&str>) -> Option<Seq<char>> {
    match s {
        Some(t) => Some(t@),
        None => None,
    }
}

/// An insertion result with the id as an integer.
pub open spec fn id_result(r: Result<i64, DbError>) -> Result<int, DbError> {
    match r {
        Ok(id) => Ok(id as int),
        Err(e) => Err(e),
    }
}

/// The settings pairs as values.
pub open spec fn pair_views(config: Seq<(String, String)>) -> Seq<(Seq<char>, Seq<char>)> {
    config.map_values(|p: (String, String)| (p.0@, p.1@))
}

/// The value stored under `key`, if any.
pub open spec fn config_get(config: Map<Seq<char>, Seq<char>>, key: Seq<char>) -> Option<
    Seq<char>,
> {
    if config.contains_key(key) {
        Some(config[key])
    } else {
        None
    }
}

impl ClipboardDb {
    pub closed spec fn spec_view(&self) -> DbView {
        DbView {
            entries: entry_views(self.entries@),
            last_id: self.last_id as int,
            config: config_map(pair_views(self.config@)),
        }
    }

    /// The database's invariant: entries valid, setting keys distinct.
    pub closed spec fn wf(&self) -> bool {
        &&& self.spec_view().valid()
        &&& keys_unique(pair_views(self.config@))
    }
}

impl ClipboardDb {
    /// A well-formed database has a valid view: ids and content hashes
    /// identify entries, and no id is above the last one handed out.
    pub proof fn lemma_wf_valid(&self)
        requires
            self.wf(),
        ensures
            self@.valid(),
    {
    }
}

impl View for ClipboardDb {
    type V = DbView;

    open spec fn view(&self) -> DbView {
        self.spec_view()
    }
}

proof fn lemma_views_push(s: Seq<ClipboardEntry>, e: ClipboardEntry)
    ensures
        entry_views(s.push(e)) == entry_views(s).push(e@),
{
    assert(entry_views(s.push(e)) =~= entry_views(s).push(e@));
}

impl ClipboardDb {
    /// An empty database: no entries, no settings, no id handed out yet.
    pub fn new() -> (res: ClipboardDb)
        ensures
            res.wf(),
            res@.entries == Seq::<EntryView>::empty(),
            res@.last_id == 0,
            res@.config == Map::<Seq<char>, Seq<char>>::empty(),
    {
        let res = ClipboardDb { entries: Vec::new(), last_id: 0, config: Vec::new() };
        assert(entry_views(res.entries@) =~= Seq::<EntryView>::empty());
        assert(pair_views(res.config@) =~= Seq::<(Seq<char>, Seq<char>)>::empty());
        res
    }

    /// The entries, in the order of their last copy (least recent first).
    pub fn entries(&self) -> (res: &Vec<ClipboardEntry>)
        ensures
            entry_views(res@) == self@.entries,
    {
        &self.entries
    }

    /// The last id handed out (0 when none was).
    pub fn last_id(&self) -> (res: i64)
        ensures
            res as int == self@.last_id,
    {
        self.last_id
    }

    /// The settings as key/value pairs.
    pub fn config_pairs(&self) -> (res: &Vec<(String, String)>)
        requires
            self.wf(),
        ensures
            keys_unique(pair_views(res@)),
            config_map(pair_views(res@)) == self@.config,
    {
        &self.config
    }
}

/// Entry `a` was copied no later than entry `b`: an earlier time, or the
/// same time and an id no larger.
pub open spec fn copied_no_later(a: EntryView, b: EntryView) -> bool {
    a.created_at < b.created_at || (a.created_at == b.created_at && a.id <= b.id)
}

/// The entries are in the order in which they were copied.
pub open spec fn in_copy_order(s: Seq<EntryView>) -> bool {
    forall|i: int, j: int|
        0 <= i < j < s.len() ==> copied_no_later(#[trigger] s[i], #[trigger] s[j])
}

proof fn lemma_views_insert(s: Seq<ClipboardEntry>, p: int, e: ClipboardEntry)
    requires
        0 <= p <= s.len(),
    ensures
        entry_views(s.insert(p, e)) == entry_views(s).insert(p, e@),
{
    assert(entry_views(s.insert(p, e)) =~= entry_views(s).insert(p, e@));
}

/// Stored rows put in the order in which they were copied (by time, then by
/// id), as a `ClipboardDb` holds its entries.
pub fn order_by_copy(rows: Vec<ClipboardEntry>) -> (res: Vec<ClipboardEntry>)
    ensures
        entry_views(res@).to_multiset() == entry_views(rows@).to_multiset(),
        in_copy_order(entry_views(res@)),
{
    let ghost all = entry_views(rows@).to_multiset();
    let mut res: Vec<ClipboardEntry> = Vec::new();
    let mut rest = rows;
    proof {
        broadcast use vstd::multiset::group_multiset_axioms;
        assert(entry_views(res@) =~= Seq::<EntryView>::empty());
        entry_views(res@).to_multiset_ensures();
        vstd::multiset::lemma_multiset_empty_len(entry_views(res@).to_multiset());
        assert(entry_views(res@).to_multiset().add(entry_views(rest@).to_multiset()) =~= all);
    }
    while rest.len() > 0
        invariant
            entry_views(res@).to_multiset().add(entry_views(rest@).to_multiset()) == all,
            in_copy_order(entry_views(res@)),
        decreases rest.len(),
    {
        let ghost rest_old = rest@;
        let e = rest.pop().unwrap();
        proof {
            assert(rest_old == rest@.push(e));
            lemma_views_push(rest@, e);
            vstd::seq_lib::to_multiset_build(entry_views(rest@), e@);
        }
        let ghost sv = entry_views(res@);
        let mut p: usize = 0;
        while p < res.len() && !(e.created_at < res[p].created_at || (e.created_at
            == res[p].created_at && e.id < res[p].id))
            invariant
                p <= res.len(),
                sv == entry_views(res@),
                forall|i: int| 0 <= i < p ==> copied_no_later(#[trigger] sv[i], e@),
            decreases res.len() - p,
        {
            p = p + 1;
        }
        let ghost before = res@;
        res.insert(p, e);
        proof {
            lemma_views_insert(before, p as int, e);
            vstd::seq_lib::to_multiset_insert(sv, p as int, e@);
            let nv = entry_views(res@);
            assert(nv == sv.insert(p as int, e@));
            assert forall|i: int, j: int| 0 <= i < j < nv.len() implies copied_no_later(
                #[trigger] nv[i],
                #[trigger] nv[j],
            ) by {
                if j < p {
                    assert(nv[i] == sv[i] && nv[j] == sv[j]);
                } else if j == p {
                    assert(nv[i] == sv[i]);
                } else if i == p {
                    assert(nv[j] == sv[j - 1]);
                    assert(copied_no_later(e@, sv[p as int]));
                    if j - 1 > p {
                        assert(copied_no_later(sv[p as int], sv[j - 1]));
                    }
                } else if i < p {
                    assert(nv[i] == sv[i] && nv[j] == sv[j - 1]);
                } else {
                    assert(nv[i] == sv[i - 1] && nv[j] == sv[j - 1]);
                }
            }
            broadcast use vstd::multiset::group_multiset_axioms;
            assert(nv.to_multiset().add(entry_views(rest@).to_multiset()) =~= all);
        }
    }
    proof {
        broadcast use vstd::multiset::group_multiset_axioms;
        assert(entry_views(rest@) =~= Seq::<EntryView>::empty());
        entry_views(rest@).to_multiset_ensures();
        vstd::multiset::lemma_multiset_empty_len(entry_views(rest@).to_multiset());
        assert(entry_views(res@).to_multiset() =~= all);
    }
    res
}

/// Whether the entries and last id satisfy the database's invariant.
fn entries_ok(entries: &Vec<ClipboardEntry>, last_id: i64) -> (res: bool)
    ensures
        res == entries_valid(entry_views(entries@), last_id as int),
{
    let ghost s = entry_views(entries@);
    if last_id < 0 {
        return false;
    }
    let n = entries.len();
    let mut a: usize = 0;
    while a < n
        invariant
            n == entries.len(),
            s == entry_views(entries@),
            0 <= last_id,
            a <= n,
            forall|k: int| 0 <= k < a ==> 1 <= #[trigger] s[k].id <= last_id,
            forall|x: int, y: int|
                0 <= x < a && 0 <= y < n && x != y ==> #[trigger] s[x].id != #[trigger] s[y].id,
            forall|x: int, y: int|
                0 <= x < a && 0 <= y < n && x != y ==> #[trigger] s[x].content_hash
                    != #[trigger] s[y].content_hash,
        decreases n - a,
    {
        let ea = &entries[a];
        if ea.id < 1 || ea.id > last_id {
            assert(!(1 <= s[a as int].id <= last_id));
            return false;
        }
        let mut b: usize = 0;
        while b < n
            invariant
                n == entries.len(),
                s == entry_views(entries@),
                a < n,
                b <= n,
                ea == entries@[a as int],
                forall|y: int| 0 <= y < b && a != y ==> s[a as int].id != #[trigger] s[y].id,
                forall|y: int|
                    0 <= y < b && a != y ==> s[a as int].content_hash != #[trigger] s[y].content_hash,
            decreases n - b,
        {
            if b != a {
                if entries[b].id == ea.id || entries[b].content_hash == ea.content_hash {
                    assert(s[a as int].id == s[b as int].id || s[a as int].content_hash
                        == s[b as int].content_hash);
                    return false;
                }
            }
            b = b + 1;
        }
        a = a + 1;
    }
    true
}

fn config_keys_ok(config: &Vec<(String, String)>) -> (res: bool)
    ensures
        res == keys_unique(pair_views(config@)),
{
    let ghost s = pair_views(config@);
    let n = config.len();
    let mut a: usize = 0;
    while a < n
        invariant
            n == config.len(),
            s == pair_views(config@),
            a <= n,
            forall|x: int, y: int|
                0 <= x < a && 0 <= y < n && x != y ==> #[trigger] s[x].0 != #[trigger] s[y].0,
        decreases n - a,
    {
        let mut b: usize = 0;
        while b < n
            invariant
                n == config.len(),
                s == pair_views(config@),
                a < n,
                b <= n,
                forall|y: int| 0 <= y < b && a != y ==> s[a as int].0 != #[trigger] s[y].0,
            decreases n - b,
        {
            if b != a && config[b].0 == config[a].0 {
                assert(s[a as int].0 == s[b as int].0);
                return false;
            }
            b = b + 1;
        }
        a = a + 1;
    }
    true
}

impl ClipboardDb {
    /// A database made of stored rows; `None` when they break the invariant
    /// (an id out of range, two entries with one id or one hash, two settings
    /// with one key).
    pub fn from_parts(
        entries: Vec<ClipboardEntry>,
        last_id: i64,
        config: Vec<(String, String)>,
    ) -> (res: Option<ClipboardDb>)
        ensures
            res is Some <==> (entries_valid(entry_views(entries@), last_id as int) && keys_unique(
                pair_views(config@),
            )),
            res matches Some(db) ==> {
                &&& db.wf()
                &&& db@.entries == entry_views(entries@)
                &&& db@.last_id == last_id
                &&& db@.config == config_map(pair_views(config@))
            },
    {
        if entries_ok(&entries, last_id) && config_keys_ok(&config) {
            Some(ClipboardDb { entries, last_id, config })
        } else {
            None
        }
    }
}


fn to_owned_opt(s: Option<&str>) -> (res: Option<String>)
    ensures
        res.deep_view() == opt_str_view(s),
{
    match s {
        Some(t) => Some(t.to_owned()),
        None => None,
    }
}

/// Records a copy made at time `now` (microseconds since the Unix epoch).
///
/// If an entry with the same content hash exists, its time becomes `now`, it
/// becomes the most recently copied entry and its id is returned; its other
/// fields stay as they were. Otherwise a new unpinned entry is added under the
/// next id. `Err(HistoryFull)` when a new entry is needed and no id is left.
pub fn insert_entry(
    db: &mut ClipboardDb,
    kind: EntryKind,
    text_content: Option<&str>,
    image_path: Option<&str>,
    content_hash: &str,
    now: i64,
) -> (res: Result<i64, DbError>)
    requires
        old(db).wf(),
    ensures
        final(db).wf(),
        (final(db)@, id_result(res)) == insert_outcome(
            old(db)@,
            kind,
            opt_str_view(text_content),
            opt_str_view(image_path),
            content_hash@,
            now as int,
        ),
        forall|k: int|
            0 <= k < old(db)@.entries.len() && #[trigger] old(db)@.entries[k].content_hash
                == content_hash@ ==> {
                &&& res == Ok::<i64, DbError>(old(db)@.entries[k].id as i64)
                &&& final(db)@.entries.len() == old(db)@.entries.len()
                &&& final(db)@.entries.last() == (EntryView {
                    created_at: now as int,
                    ..old(db)@.entries[k]
                })
            },
{
    proof {
        db.lemma_wf_valid();
        assert forall|k: int|
            0 <= k < old(db)@.entries.len() && #[trigger] old(db)@.entries[k].content_hash
                == content_hash@ implies ({
            let (d2, r) = insert_outcome(
                old(db)@,
                kind,
                opt_str_view(text_content),
                opt_str_view(image_path),
                content_hash@,
                now as int,
            );
            &&& r == Ok::<int, DbError>(old(db)@.entries[k].id)
            &&& d2.entries.len() == old(db)@.entries.len()
            &&& d2.entries.last() == (EntryView { created_at: now as int, ..old(db)@.entries[k] })
        }) by {
            crate::laws::law_recopy_renews_only_the_time(
                old(db)@,
                kind,
                opt_str_view(text_content),
                opt_str_view(image_path),
                content_hash@,
                now as int,
                k,
            );
        }
    }
    let ghost old_entries = db@.entries;
    let h = content_hash.to_owned();
    let n = db.entries.len();
    let mut k: usize = 0;
    while k < n
        invariant
            n == db.entries.len(),
            k <= n,
            db.entries@ == old(db).entries@,
            db.last_id == old(db).last_id,
            db.config@ == old(db).config@,
            old_entries == entry_views(db.entries@),
            old(db).wf(),
            h@ == content_hash@,
            forall|j: int| 0 <= j < k ==> #[trigger] old_entries[j].content_hash != h@,
        decreases n - k,
    {
        if db.entries[k].content_hash == h {
            proof {
                assert(old_entries[k as int].content_hash == content_hash@);
                assert(has_hash(old_entries, content_hash@));
                let c = hash_index(old_entries, content_hash@);
                assert(c == k as int);
            }
            let mut e = db.entries.remove(k);
            let id = e.id;
            e.created_at = now;
            db.entries.push(e);
            proof {
                assert(entry_views(db.entries@) =~= touch(old_entries, k as int, now as int));
                let t = touch(old_entries, k as int, now as int);
                assert forall|a: int, b: int|
                    0 <= a < t.len() && 0 <= b < t.len() && a != b implies #[trigger] t[a].id
                    != #[trigger] t[b].id && t[a].content_hash != t[b].content_hash by {
                    let oa = if a == t.len() - 1 { k as int } else if a < k { a } else { a + 1 };
                    let ob = if b == t.len() - 1 { k as int } else if b < k { b } else { b + 1 };
                    assert(t[a].id == old_entries[oa].id);
                    assert(t[b].id == old_entries[ob].id);
                    assert(t[a].content_hash == old_entries[oa].content_hash);
                    assert(t[b].content_hash == old_entries[ob].content_hash);
                }
                assert forall|a: int| 0 <= a < t.len() implies 1 <= #[trigger] t[a].id
                    <= db.last_id && i64::MIN <= t[a].created_at <= i64::MAX by {
                    let oa = if a == t.len() - 1 { k as int } else if a < k { a } else { a + 1 };
                    assert(t[a].id == old_entries[oa].id);
                }
            }
            return Ok(id);
        }
        k = k + 1;
    }
    assert(!has_hash(old_entries, content_hash@));
    if db.last_id == i64::MAX {
        return Err(DbError::HistoryFull);
    }
    let id = db.last_id + 1;
    let e = ClipboardEntry {
        id,
        kind,
        text_content: to_owned_opt(text_content),
        image_path: to_owned_opt(image_path),
        pinned: false,
        created_at: now,
        content_hash: h,
    };
    db.entries.push(e);
    db.last_id = id;
    proof {
        lemma_views_push(old(db).entries@, e);
        let t = entry_views(db.entries@);
        assert(t[n as int] == e@);
        assert forall|a: int, b: int|
            0 <= a < t.len() && 0 <= b < t.len() && a != b implies #[trigger] t[a].id
            != #[trigger] t[b].id && t[a].content_hash != t[b].content_hash by {
            if a < n && b < n {
                assert(t[a] == old_entries[a]);
                assert(t[b] == old_entries[b]);
            } else if a < n {
                assert(t[a] == old_entries[a]);
            } else {
                assert(t[b] == old_entries[b]);
            }
        }
        assert forall|a: int| 0 <= a < t.len() implies 1 <= #[trigger] t[a].id <= db.last_id
            && i64::MIN <= t[a].created_at <= i64::MAX by {
            if a < n {
                assert(t[a] == old_entries[a]);
            }
        }
    }
    Ok(id)
}

/// The entries whose flag is set, and the others, both in order.
fn split_by(entries: &Vec<ClipboardEntry>, keep: &Vec<bool>) -> (res: (
    Vec<ClipboardEntry>,
    Vec<ClipboardEntry>,
))
    requires
        keep.len() == entries.len(),
    ensures
        entry_views(res.0@) == select(entry_views(entries@), |k: int| keep@[k]),
        entry_views(res.1@) == select(entry_views(entries@), |k: int| !keep@[k]),
{
    let ghost s = entry_views(entries@);
    let ghost f = |k: int| keep@[k];
    let ghost g = |k: int| !keep@[k];
    let mut kept: Vec<ClipboardEntry> = Vec::new();
    let mut dropped: Vec<ClipboardEntry> = Vec::new();
    let n = entries.len();
    let mut k: usize = 0;
    assert(s.take(0) =~= Seq::<EntryView>::empty());
    assert(entry_views(kept@) =~= Seq::<EntryView>::empty());
    while k < n
        invariant
            n == entries.len(),
            n == keep.len(),
            k <= n,
            s == entry_views(entries@),
            f == (|k: int| keep@[k]),
            g == (|k: int| !keep@[k]),
            entry_views(kept@) == select(s.take(k as int), f),
            entry_views(dropped@) == select(s.take(k as int), g),
        decreases n - k,
    {
        proof {
            lemma_select_step(s, f, k as int);
            lemma_select_step(s, g, k as int);
        }
        let e = entries[k].duplicate();
        if keep[k] {
            proof {
                lemma_views_push(kept@, e);
            }
            kept.push(e);
        } else {
            proof {
                lemma_views_push(dropped@, e);
            }
            dropped.push(e);
        }
        k = k + 1;
    }
    assert(s.take(n as int) =~= s);
    (kept, dropped)
}

/// Flips the pin of the entry with the given id; no entry has it, nothing
/// changes.
pub fn toggle_pin_entry(db: &mut ClipboardDb, id: i64)
    requires
        old(db).wf(),
    ensures
        final(db).wf(),
        final(db)@ == (DbView { entries: toggle_pin(old(db)@.entries, id as int), ..old(db)@ }),
{
    let ghost s = db@.entries;
    let ghost t = toggle_pin(s, id as int);
    let n = db.entries.len();
    let mut out: Vec<ClipboardEntry> = Vec::new();
    let mut k: usize = 0;
    while k < n
        invariant
            n == db.entries.len(),
            k <= n,
            s == entry_views(db.entries@),
            t == toggle_pin(s, id as int),
            entry_views(out@) == t.take(k as int),
        decreases n - k,
    {
        let mut e = db.entries[k].duplicate();
        if e.id == id {
            e.pinned = !e.pinned;
        }
        proof {
            lemma_views_push(out@, e);
            assert(t.take(k + 1) =~= t.take(k as int).push(t[k as int]));
        }
        out.push(e);
        k = k + 1;
    }
    assert(t.take(n as int) =~= t);
    proof {
        assert forall|a: int, b: int|
            0 <= a < t.len() && 0 <= b < t.len() && a != b implies #[trigger] t[a].id
            != #[trigger] t[b].id && t[a].content_hash != t[b].content_hash by {
            assert(t[a].id == s[a].id && t[a].content_hash == s[a].content_hash);
            assert(t[b].id == s[b].id && t[b].content_hash == s[b].content_hash);
        }
        assert forall|a: int| 0 <= a < t.len() implies 1 <= #[trigger] t[a].id <= db.last_id
            && i64::MIN <= t[a].created_at <= i64::MAX by {
            assert(t[a].id == s[a].id && t[a].created_at == s[a].created_at);
        }
    }
    db.entries = out;
}

/// Removes the entry with the given id and returns it (its image file, if
/// any, is then no longer referenced); `None` and no change when no entry has
/// that id.
pub fn delete_entry(db: &mut ClipboardDb, id: i64) -> (res: Option<ClipboardEntry>)
    requires
        old(db).wf(),
    ensures
        final(db).wf(),
        final(db)@.last_id == old(db)@.last_id,
        final(db)@.config == old(db)@.config,
        match res {
            Some(e) => exists|k: int|
                0 <= k < old(db)@.entries.len() && #[trigger] old(db)@.entries[k].id == id && e@
                    == old(db)@.entries[k] && final(db)@.entries == old(db)@.entries.remove(k),
            None => (forall|k: int|
                0 <= k < old(db)@.entries.len() ==> #[trigger] old(db)@.entries[k].id != id)
                && final(db)@.entries == old(db)@.entries,
        },
{
    let ghost s = db@.entries;
    let n = db.entries.len();
    let mut k: usize = 0;
    while k < n
        invariant
            n == db.entries.len(),
            k <= n,
            db.entries@ == old(db).entries@,
            db.last_id == old(db).last_id,
            db.config@ == old(db).config@,
            s == old(db)@.entries,
            old(db).wf(),
            forall|j: int| 0 <= j < k ==> #[trigger] s[j].id != id,
        decreases n - k,
    {
        if db.entries[k].id == id {
            let e = db.entries.remove(k);
            proof {
                assert(entry_views(db.entries@) =~= s.remove(k as int));
                assert(s[k as int].id == id);
                lemma_select_remove_valid(s, db.last_id as int, k as int);
            }
            return Some(e);
        }
        k = k + 1;
    }
    None
}

proof fn lemma_select_remove_valid(s: Seq<EntryView>, last_id: int, k: int)
    requires
        entries_valid(s, last_id),
        0 <= k < s.len(),
    ensures
        entries_valid(s.remove(k), last_id),
{
    let t = s.remove(k);
    assert forall|a: int, b: int|
        0 <= a < t.len() && 0 <= b < t.len() && a != b implies #[trigger] t[a].id
        != #[trigger] t[b].id && t[a].content_hash != t[b].content_hash by {
        let oa = if a < k { a } else { a + 1 };
        let ob = if b < k { b } else { b + 1 };
        assert(t[a] == s[oa]);
        assert(t[b] == s[ob]);
    }
    assert forall|a: int| 0 <= a < t.len() implies 1 <= #[trigger] t[a].id <= last_id
        && i64::MIN <= t[a].created_at <= i64::MAX by {
        let oa = if a < k { a } else { a + 1 };
        assert(t[a] == s[oa]);
    }
}

/// Removes every unpinned entry and returns them in order; pinned entries
/// stay as they were.
pub fn clear_unpinned_entries(db: &mut ClipboardDb) -> (removed: Vec<ClipboardEntry>)
    requires
        old(db).wf(),
    ensures
        final(db).wf(),
        final(db)@ == (DbView {
            entries: select(old(db)@.entries, pinned_fn(old(db)@.entries)),
            ..old(db)@
        }),
        entry_views(removed@) == select(old(db)@.entries, unpinned_fn(old(db)@.entries)),
{
    let ghost s = db@.entries;
    let n = db.entries.len();
    let mut keep: Vec<bool> = Vec::new();
    let mut k: usize = 0;
    while k < n
        invariant
            n == db.entries.len(),
            k <= n,
            s == entry_views(db.entries@),
            keep.len() == k,
            forall|j: int| 0 <= j < k ==> #[trigger] keep@[j] == s[j].pinned,
        decreases n - k,
    {
        keep.push(db.entries[k].pinned);
        k = k + 1;
    }
    let (kept, dropped) = split_by(&db.entries, &keep);
    proof {
        lemma_select_congruent(s, |j: int| keep@[j], pinned_fn(s));
        lemma_select_congruent(s, |j: int| !keep@[j], unpinned_fn(s));
        lemma_select_valid(s, db.last_id as int, pinned_fn(s));
    }
    db.entries = kept;
    dropped
}

/// Keeps at most `max_unpinned` unpinned entries: the most recently copied
/// ones. Pinned entries all stay. Returns the removed entries in order.
pub fn prune_entries(db: &mut ClipboardDb, max_unpinned: usize) -> (removed: Vec<ClipboardEntry>)
    requires
        old(db).wf(),
    ensures
        final(db).wf(),
        final(db)@ == (DbView {
            entries: select(old(db)@.entries, prune_keep_fn(old(db)@.entries, max_unpinned as int)),
            ..old(db)@
        }),
        entry_views(removed@) == select(
            old(db)@.entries,
            prune_drop_fn(old(db)@.entries, max_unpinned as int),
        ),
{
    let ghost s = db@.entries;
    let n = db.entries.len();
    let mut keep: Vec<bool> = Vec::new();
    let mut k: usize = 0;
    while k < n
        invariant
            n == db.entries.len(),
            k <= n,
            s == entry_views(db.entries@),
            keep.len() == k,
            forall|j: int|
                0 <= j < k ==> #[trigger] keep@[j] == prune_keeps(s, max_unpinned as int, j),
        decreases n - k,
    {
        if db.entries[k].pinned {
            keep.push(true);
        } else {
            let mut count: usize = 0;
            let mut j: usize = 0;
            while j < n
                invariant
                    n == db.entries.len(),
                    k < n,
                    j <= n,
                    s == entry_views(db.entries@),
                    count == newer_unpinned_count(s, k as int, j as int),
                    count <= j,
                decreases n - j,
            {
                let ej = &db.entries[j];
                let ek = &db.entries[k];
                if !ej.pinned && (ej.created_at > ek.created_at || (ej.created_at == ek.created_at
                    && j > k)) {
                    count = count + 1;
                }
                j = j + 1;
            }
            keep.push(count < max_unpinned);
        }
        k = k + 1;
    }
    let (kept, dropped) = split_by(&db.entries, &keep);
    proof {
        lemma_select_congruent(s, |j: int| keep@[j], prune_keep_fn(s, max_unpinned as int));
        lemma_select_congruent(s, |j: int| !keep@[j], prune_drop_fn(s, max_unpinned as int));
        lemma_select_valid(s, db.last_id as int, prune_keep_fn(s, max_unpinned as int));
    }
    db.entries = kept;
    dropped
}


/// Where the setting `key` sits among the pairs, if anywhere.
fn config_position(config: &Vec<(String, String)>, key: &String) -> (res: Option<usize>)
    ensures
        match res {
            Some(i) => i < config.len() && pair_views(config@)[i as int].0 == key@,
            None => forall|i: int|
                0 <= i < config.len() ==> #[trigger] pair_views(config@)[i].0 != key@,
        },
{
    let n = config.len();
    let mut i: usize = 0;
    while i < n
        invariant
            n == config.len(),
            i <= n,
            forall|j: int| 0 <= j < i ==> #[trigger] pair_views(config@)[j].0 != key@,
        decreases n - i,
    {
        if config[i].0 == *key {
            return Some(i);
        }
        i = i + 1;
    }
    None
}

/// The value of the setting `key`, if it is set.
pub fn get_config_val(db: &ClipboardDb, key: &str) -> (res: Option<String>)
    requires
        db.wf(),
    ensures
        res.deep_view() == config_get(db@.config, key@),
{
    let k = key.to_owned();
    match config_position(&db.config, &k) {
        Some(i) => {
            proof {
                lemma_config_lookup(pair_views(db.config@), i as int);
            }
            Some(db.config[i].1.clone())
        },
        None => {
            proof {
                lemma_config_absent(pair_views(db.config@), key@);
            }
            None
        },
    }
}

/// Sets `key` to `value`, replacing the value it had.
pub fn set_config_val(db: &mut ClipboardDb, key: &str, value: &str)
    requires
        old(db).wf(),
    ensures
        final(db).wf(),
        final(db)@ == (DbView { config: old(db)@.config.insert(key@, value@), ..old(db)@ }),
{
    let k = key.to_owned();
    let ghost p = pair_views(db.config@);
    match config_position(&db.config, &k) {
        Some(i) => {
            db.config.set(i, (k, value.to_owned()));
            proof {
                assert(pair_views(db.config@) =~= p.update(i as int, (p[i as int].0, value@)));
                lemma_config_update(p, i as int, value@);
                let q = pair_views(db.config@);
                assert forall|a: int, b: int|
                    0 <= a < q.len() && 0 <= b < q.len() && a != b implies #[trigger] q[a].0
                    != #[trigger] q[b].0 by {
                    assert(q[a].0 == p[a].0);
                    assert(q[b].0 == p[b].0);
                }
            }
        },
        None => {
            db.config.push((k, value.to_owned()));
            proof {
                let q = pair_views(db.config@);
                assert(q =~= p.push((key@, value@)));
                assert(q.drop_last() =~= p);
                assert forall|a: int, b: int|
                    0 <= a < q.len() && 0 <= b < q.len() && a != b implies #[trigger] q[a].0
                    != #[trigger] q[b].0 by {
                    if a < p.len() {
                        assert(q[a] == p[a]);
                    }
                    if b < p.len() {
                        assert(q[b] == p[b]);
                    }
                }
            }
        },
    }
}

/// `m` with `key` set to `value` unless `key` is set already.
pub open spec fn default_if_absent(
    m: Map<Seq<char>, Seq<char>>,
    key: Seq<char>,
    value: Seq<char>,
) -> Map<Seq<char>, Seq<char>> {
    if m.contains_key(key) {
        m
    } else {
        m.insert(key, value)
    }
}

/// The settings with their defaults filled in: autostart on, the shortcut
/// `<Super>v`, and a history limit of 200.
pub open spec fn schema_defaults(m: Map<Seq<char>, Seq<char>>) -> Map<Seq<char>, Seq<char>> {
    default_if_absent(
        default_if_absent(default_if_absent(m, "autostart"@, "true"@), "shortcut"@, "<Super>v"@),
        "history_limit"@,
        "200"@,
    )
}

fn set_default(db: &mut ClipboardDb, key: &str, value: &str)
    requires
        old(db).wf(),
    ensures
        final(db).wf(),
        final(db)@ == (DbView {
            config: default_if_absent(old(db)@.config, key@, value@),
            ..old(db)@
        }),
{
    if get_config_val(db, key).is_none() {
        set_config_val(db, key, value);
    }
}

/// Fills in the default settings that are not set; entries stay as they are.
pub fn create_schema(db: &mut ClipboardDb)
    requires
        old(db).wf(),
    ensures
        final(db).wf(),
        final(db)@ == (DbView { config: schema_defaults(old(db)@.config), ..old(db)@ }),
{
    set_default(db, "autostart", "true");
    set_default(db, "shortcut", "<Super>v");
    set_default(db, "history_limit", "200");
}


/// Whether entry `a` is shown above entry `b`.
fn listed_before_exec(entries: &Vec<ClipboardEntry>, a: usize, b: usize) -> (res: bool)
    requires
        a < entries.len(),
        b < entries.len(),
    ensures
        res == listed_before(entry_views(entries@), a as int, b as int),
{
    let ea = &entries[a];
    let eb = &entries[b];
    let newer = ea.created_at > eb.created_at || (ea.created_at == eb.created_at && a > b);
    (ea.pinned && !eb.pinned) || (ea.pinned == eb.pinned && newer)
}

proof fn lemma_listed_before_total(s: Seq<EntryView>, a: int, b: int)
    requires
        a != b,
    ensures
        listed_before(s, a, b) || listed_before(s, b, a),
{
}

proof fn lemma_listed_before_transitive(s: Seq<EntryView>, a: int, b: int, c: int)
    requires
        listed_before(s, a, b),
        listed_before(s, b, c),
    ensures
        listed_before(s, a, c),
{
}

/// The search pattern of a query: `%`, the query, `%`.
fn query_pattern_chars(q: &str) -> (res: Vec<char>)
    ensures
        res@ == query_pattern(q@),
{
    let qc = chars_of(q);
    let mut res: Vec<char> = Vec::new();
    res.push('%');
    let mut i: usize = 0;
    while i < qc.len()
        invariant
            i <= qc.len(),
            qc@ == q@,
            res@ == seq!['%'] + qc@.take(i as int),
        decreases qc.len() - i,
    {
        res.push(qc[i]);
        assert(qc@.take(i + 1) =~= qc@.take(i as int).push(qc@[i as int]));
        assert(seq!['%'] + qc@.take(i + 1) =~= (seq!['%'] + qc@.take(i as int)).push(qc@[i as int]));
        i = i + 1;
    }
    res.push('%');
    assert(qc@.take(qc.len() as int) =~= qc@);
    assert(res@ =~= query_pattern(q@));
    res
}

/// Whether an entry is shown, given whether the query is blank and, when it
/// is not, its search pattern.
fn entry_shown(
    e: &ClipboardEntry,
    blank: bool,
    pattern: &Vec<char>,
    Ghost(query): Ghost<Option<Seq<char>>>,
) -> (res: bool)
    requires
        blank == (match query {
            None => true,
            Some(q) => trim(q).len() == 0,
        }),
        !blank ==> query is Some && pattern@ == query_pattern(query->0),
    ensures
        res == entry_matches(e@, query),
{
    if blank {
        true
    } else {
        match &e.text_content {
            Some(t) => {
                let tc = chars_of(t.as_str());
                like_matches(pattern, &tc)
            },
            None => false,
        }
    }
}

/// The entries shown for a search query, pinned ones first, then the most
/// recently copied first. With no query, or a blank one, every entry is shown;
/// otherwise the text entries whose text contains the query, where `%` in the
/// query stands for any run of characters, `_` for any one character, and
/// ASCII letters match either case.
pub fn get_entries(db: &ClipboardDb, search_query: Option<&str>) -> (res: Vec<ClipboardEntry>)
    requires
        db.wf(),
    ensures
        is_listing(db@.entries, opt_str_view(search_query), entry_views(res@)),
{
    let ghost s = db@.entries;
    let ghost qv = opt_str_view(search_query);
    let entries = &db.entries;
    let blank = match search_query {
        None => true,
        Some(q) => is_blank(q),
    };
    let pattern = match search_query {
        Some(q) => if blank {
            Vec::new()
        } else {
            query_pattern_chars(q)
        },
        None => Vec::new(),
    };
    let n = entries.len();
    let mut ord: Vec<usize> = Vec::new();
    let mut i: usize = 0;
    while i < n
        invariant
            n == entries.len(),
            i <= n,
            s == entry_views(entries@),
            qv == opt_str_view(search_query),
            blank == (match qv {
                None => true,
                Some(q) => trim(q).len() == 0,
            }),
            !blank ==> qv is Some && pattern@ == query_pattern(qv->0),
            forall|m: int|
                0 <= m < ord.len() ==> #[trigger] ord@[m] < i && entry_matches(
                    s[ord@[m] as int],
                    qv,
                ),
            forall|k: int|
                0 <= k < i && entry_matches(s[k], qv) ==> exists|m: int|
                    0 <= m < ord.len() && #[trigger] ord@[m] == k,
            forall|m1: int, m2: int|
                0 <= m1 < m2 < ord.len() ==> listed_before(
                    s,
                    #[trigger] ord@[m1] as int,
                    #[trigger] ord@[m2] as int,
                ),
        decreases n - i,
    {
        if entry_shown(&entries[i], blank, &pattern, Ghost(qv)) {
            let mut p: usize = 0;
            while p < ord.len() && listed_before_exec(entries, ord[p], i)
                invariant
                    n == entries.len(),
                    i < n,
                    s == entry_views(entries@),
                    p <= ord.len(),
                    forall|m: int| 0 <= m < ord.len() ==> #[trigger] ord@[m] < i,
                    forall|m: int| 0 <= m < p ==> listed_before(s, #[trigger] ord@[m] as int, i as int),
                decreases ord.len() - p,
            {
                p = p + 1;
            }
            let ghost old_ord = ord@;
            ord.insert(p, i);
            proof {
                assert(ord@ == old_ord.insert(p as int, i));
                assert forall|m: int| 0 <= m < ord.len() implies #[trigger] ord@[m] < i + 1
                    && entry_matches(s[ord@[m] as int], qv) by {
                    if m < p {
                        assert(ord@[m] == old_ord[m]);
                    } else if m > p {
                        assert(ord@[m] == old_ord[m - 1]);
                    }
                }
                assert forall|k: int|
                    0 <= k < i + 1 && entry_matches(s[k], qv) implies exists|m: int|
                    0 <= m < ord.len() && #[trigger] ord@[m] == k by {
                    if k == i {
                        assert(ord@[p as int] == k);
                    } else {
                        let m = choose|m: int| 0 <= m < old_ord.len() && #[trigger] old_ord[m] == k;
                        if m < p {
                            assert(ord@[m] == k);
                        } else {
                            assert(ord@[m + 1] == k);
                        }
                    }
                }
                if p < old_ord.len() {
                    assert(!listed_before(s, old_ord[p as int] as int, i as int));
                    lemma_listed_before_total(s, old_ord[p as int] as int, i as int);
                }
                assert forall|m1: int, m2: int| 0 <= m1 < m2 < ord.len() implies listed_before(
                    s,
                    #[trigger] ord@[m1] as int,
                    #[trigger] ord@[m2] as int,
                ) by {
                    let o1 = if m1 < p { m1 } else { m1 - 1 };
                    let o2 = if m2 < p { m2 } else { m2 - 1 };
                    if m1 == p {
                        assert(ord@[m1] == i);
                        assert(ord@[m2] == old_ord[o2]);
                        if o2 > p {
                            assert(listed_before(s, old_ord[p as int] as int, old_ord[o2] as int));
                            lemma_listed_before_transitive(
                                s,
                                i as int,
                                old_ord[p as int] as int,
                                old_ord[o2] as int,
                            );
                        }
                    } else if m2 == p {
                        assert(ord@[m2] == i);
                        assert(ord@[m1] == old_ord[o1]);
                    } else {
                        assert(ord@[m1] == old_ord[o1]);
                        assert(ord@[m2] == old_ord[o2]);
                    }
                }
            }
        }
        i = i + 1;
    }
    let ghost idx = ord@.map_values(|u: usize| u as int);
    let mut res: Vec<ClipboardEntry> = Vec::new();
    let mut m: usize = 0;
    while m < ord.len()
        invariant
            n == entries.len(),
            s == entry_views(entries@),
            m <= ord.len(),
            idx == ord@.map_values(|u: usize| u as int),
            forall|j: int| 0 <= j < ord.len() ==> #[trigger] ord@[j] < n,
            entry_views(res@) == idx.take(m as int).map_values(|k: int| s[k]),
        decreases ord.len() - m,
    {
        let e = entries[ord[m]].duplicate();
        proof {
            lemma_views_push(res@, e);
            assert(idx.take(m + 1).map_values(|k: int| s[k]) =~= idx.take(m as int).map_values(
                |k: int| s[k],
            ).push(s[idx[m as int]]));
        }
        res.push(e);
        m = m + 1;
    }
    proof {
        assert(idx.take(ord.len() as int) =~= idx);
        assert(listing_indices(s, qv, idx)) by {
            assert forall|k: int|
                0 <= k < s.len() && entry_matches(s[k], qv) implies #[trigger] idx.contains(k) by {
                let m = choose|m: int| 0 <= m < ord.len() && #[trigger] ord@[m] == k;
                assert(idx[m] == k);
            }
        }
    }
    res
}


/// Entry `k` is the most recently copied: copied after every other entry.
pub open spec fn is_newest(entries: Seq<EntryView>, k: int) -> bool {
    0 <= k < entries.len() && forall|j: int|
        0 <= j < entries.len() && j != k ==> #[trigger] newer(entries, k, j)
}

/// The most recently copied entry, pinned or not; `None` for an empty
/// history.
pub fn newest_entry(db: &ClipboardDb) -> (res: Option<ClipboardEntry>)
    ensures
        match res {
            Some(e) => exists|k: int| #[trigger] is_newest(db@.entries, k) && e@ == db@.entries[k],
            None => db@.entries.len() == 0,
        },
{
    let ghost s = db@.entries;
    let n = db.entries.len();
    if n == 0 {
        return None;
    }
    let mut best: usize = 0;
    let mut k: usize = 1;
    while k < n
        invariant
            n == db.entries.len(),
            s == entry_views(db.entries@),
            1 <= k <= n,
            best < k,
            forall|j: int| 0 <= j < k && j != best ==> #[trigger] newer(s, best as int, j),
        decreases n - k,
    {
        let eb = &db.entries[best];
        let ek = &db.entries[k];
        let ghost old_best = best;
        if ek.created_at >= eb.created_at {
            best = k;
            proof {
                assert forall|j: int| 0 <= j < k + 1 && j != best implies #[trigger] newer(
                    s,
                    best as int,
                    j,
                ) by {
                    if j != old_best {
                        assert(newer(s, old_best as int, j));
                    }
                }
            }
        }
        k = k + 1;
    }
    assert(is_newest(s, best as int));
    Some(db.entries[best].duplicate())
}

/// Records a copy made at time `now` and prunes the unpinned entries to the
/// history limit set in the settings (see `history_limit_setting`): what the
/// clipboard watcher does with each new copy. Returns the new or renewed
/// entry's id and the entries pruned; on `Err` nothing changed.
pub fn record_copy(
    db: &mut ClipboardDb,
    kind: EntryKind,
    text_content: Option<&str>,
    image_path: Option<&str>,
    content_hash: &str,
    now: i64,
) -> (res: Result<(i64, Vec<ClipboardEntry>), DbError>)
    requires
        old(db).wf(),
    ensures
        final(db).wf(),
        ({
            let (d1, r) = insert_outcome(
                old(db)@,
                kind,
                opt_str_view(text_content),
                opt_str_view(image_path),
                content_hash@,
                now as int,
            );
            let limit = history_limit_setting(old(db)@.config) as int;
            match res {
                Ok((id, removed)) => r == Ok::<int, DbError>(id as int) && final(db)@ == (DbView {
                    entries: select(d1.entries, prune_keep_fn(d1.entries, limit)),
                    ..d1
                }) && entry_views(removed@) == select(d1.entries, prune_drop_fn(d1.entries, limit)),
                Err(e) => r == Err::<int, DbError>(e) && final(db)@ == old(db)@,
            }
        }),
{
    let limit = configured_history_limit(db);
    match insert_entry(db, kind, text_content, image_path, content_hash, now) {
        Ok(id) => {
            let removed = prune_entries(db, limit);
            Ok((id, removed))
        },
        Err(e) => Err(e),
    }
}

} // verus!
