//! The clipboard database as a mathematical value, and what each operation
//! does to it.
use vstd::prelude::*;

use crate::entry::{EntryKind, EntryView};
use crate::like_match::like_match;
use crate::text::trim;

verus! {

/// Why a change to the database was refused.
#[derive(Debug, Clone, Copy, PartialEq, Eq, Structural)]
pub enum DbError {
    /// Every id up to `i64::MAX` has been handed out; no new entry can get one.
    HistoryFull,
}

/// The clipboard database: its entries in the order in which they were last
/// copied (oldest first), the last id handed out, and the settings.
pub struct DbView {
    pub entries: Seq<EntryView>,
    pub last_id: int,
    pub config: Map<Seq<char>, Seq<char>>,
}

/// Ids and content hashes identify entries; ids are positive and never above
/// the last id handed out.
pub open spec fn entries_valid(entries: Seq<EntryView>, last_id: int) -> bool {
    &&& 0 <= last_id <= i64::MAX
    &&& forall|k: int| 0 <= k < entries.len() ==> 1 <= #[trigger] entries[k].id <= last_id
    &&& forall|a: int, b: int|
        0 <= a < entries.len() && 0 <= b < entries.len() && a != b ==> #[trigger] entries[a].id
            != #[trigger] entries[b].id
    &&& forall|a: int, b: int|
        0 <= a < entries.len() && 0 <= b < entries.len() && a != b
            ==> #[trigger] entries[a].content_hash != #[trigger] entries[b].content_hash
    &&& forall|k: int|
        0 <= k < entries.len() ==> i64::MIN <= #[trigger] entries[k].created_at <= i64::MAX
}

impl DbView {
    pub open spec fn valid(self) -> bool {
        entries_valid(self.entries, self.last_id)
    }
}

// ---------------------------------------------------------------------------
// Inserting

pub open spec fn has_hash(entries: Seq<EntryView>, hash: Seq<char>) -> bool {
    exists|k: int| 0 <= k < entries.len() && entries[k].content_hash == hash
}

/// The position of the entry with the given content hash (meaningful when
/// `has_hash` holds; hashes are unique in a valid database).
pub open spec fn hash_index(entries: Seq<EntryView>, hash: Seq<char>) -> int {
    choose|k: int| 0 <= k < entries.len() && entries[k].content_hash == hash
}

/// The entry at `k` copied again at time `now`: its time is renewed and it
/// becomes the most recently copied entry.
pub open spec fn touch(entries: Seq<EntryView>, k: int, now: int) -> Seq<EntryView> {
    entries.remove(k).push(EntryView { created_at: now, ..entries[k] })
}

/// A fresh, unpinned entry.
pub open spec fn new_entry(
    id: int,
    kind: EntryKind,
    text: Option<Seq<char>>,
    image: Option<Seq<char>>,
    hash: Seq<char>,
    now: int,
) -> EntryView {
    EntryView {
        id,
        kind,
        text_content: text,
        image_path: image,
        pinned: false,
        created_at: now,
        content_hash: hash,
    }
}

/// Recording a copy: content already in the history (same hash) keeps its id
/// and gets the new time; new content gets the next id; when no id is left
/// the database is unchanged and the copy is refused.
pub open spec fn insert_outcome(
    db: DbView,
    kind: EntryKind,
    text: Option<Seq<char>>,
    image: Option<Seq<char>>,
    hash: Seq<char>,
    now: int,
) -> (DbView, Result<int, DbError>) {
    if has_hash(db.entries, hash) {
        let k = hash_index(db.entries, hash);
        (DbView { entries: touch(db.entries, k, now), ..db }, Ok(db.entries[k].id))
    } else if db.last_id >= i64::MAX {
        (db, Err(DbError::HistoryFull))
    } else {
        let id = db.last_id + 1;
        (
            DbView {
                entries: db.entries.push(new_entry(id, kind, text, image, hash, now)),
                last_id: id,
                ..db
            },
            Ok(id),
        )
    }
}

// ---------------------------------------------------------------------------
// Listing

/// The search pattern for a query: the query anywhere in the text.
pub open spec fn query_pattern(q: Seq<char>) -> Seq<char> {
    seq!['%'] + q + seq!['%']
}

/// Whether an entry is shown for a search query. No query, or a blank one,
/// shows everything; otherwise only text entries whose text matches.
pub open spec fn entry_matches(e: EntryView, query: Option<Seq<char>>) -> bool {
    match query {
        None => true,
        Some(q) => if trim(q).len() == 0 {
            true
        } else {
            match e.text_content {
                Some(t) => like_match(query_pattern(q), t),
                None => false,
            }
        },
    }
}

/// Entry `j` was copied after entry `k`: a later time, or the same time and
/// a later copy.
pub open spec fn newer(entries: Seq<EntryView>, j: int, k: int) -> bool {
    ||| entries[j].created_at > entries[k].created_at
    ||| (entries[j].created_at == entries[k].created_at && j > k)
}

/// Entry `a` is shown above entry `b`: pinned entries first, then the most
/// recently copied.
pub open spec fn listed_before(entries: Seq<EntryView>, a: int, b: int) -> bool {
    ||| (entries[a].pinned && !entries[b].pinned)
    ||| (entries[a].pinned == entries[b].pinned && newer(entries, a, b))
}

/// `idx` lists the positions of exactly the entries shown for `query`, in the
/// order in which they are shown.
pub open spec fn listing_indices(
    entries: Seq<EntryView>,
    query: Option<Seq<char>>,
    idx: Seq<int>,
) -> bool {
    &&& forall|m: int|
        0 <= m < idx.len() ==> 0 <= #[trigger] idx[m] < entries.len() && entry_matches(
            entries[idx[m]],
            query,
        )
    &&& forall|k: int|
        0 <= k < entries.len() && entry_matches(entries[k], query) ==> #[trigger] idx.contains(k)
    &&& forall|m1: int, m2: int|
        0 <= m1 < m2 < idx.len() ==> listed_before(entries, #[trigger] idx[m1], #[trigger] idx[m2])
}

/// `out` is what the history shows for `query`.
pub open spec fn is_listing(
    entries: Seq<EntryView>,
    query: Option<Seq<char>>,
    out: Seq<EntryView>,
) -> bool {
    exists|idx: Seq<int>|
        listing_indices(entries, query, idx) && out == idx.map_values(|k: int| entries[k])
}

// ---------------------------------------------------------------------------
// Removing

/// The elements of `s` at the positions that `keep` accepts, in order.
pub open spec fn select<A>(s: Seq<A>, keep: spec_fn(int) -> bool) -> Seq<A>
    decreases s.len(),
{
    if s.len() == 0 {
        Seq::empty()
    } else {
        let r = select(s.drop_last(), keep);
        if keep(s.len() - 1) {
            r.push(s.last())
        } else {
            r
        }
    }
}

/// The number of unpinned entries among the first `n` that were copied after
/// entry `k`.
pub open spec fn newer_unpinned_count(entries: Seq<EntryView>, k: int, n: int) -> nat
    decreases n,
{
    if n <= 0 {
        0
    } else {
        newer_unpinned_count(entries, k, n - 1) + if !entries[n - 1].pinned && newer(
            entries,
            n - 1,
            k,
        ) {
            1nat
        } else {
            0nat
        }
    }
}

/// Pruning to `max` unpinned entries keeps entry `k`: it is pinned, or fewer
/// than `max` unpinned entries are newer.
pub open spec fn prune_keeps(entries: Seq<EntryView>, max: int, k: int) -> bool {
    entries[k].pinned || newer_unpinned_count(entries, k, entries.len() as int) < max
}

pub open spec fn prune_keep_fn(entries: Seq<EntryView>, max: int) -> spec_fn(int) -> bool {
    |k: int| prune_keeps(entries, max, k)
}

pub open spec fn prune_drop_fn(entries: Seq<EntryView>, max: int) -> spec_fn(int) -> bool {
    |k: int| !prune_keeps(entries, max, k)
}

pub open spec fn pinned_fn(entries: Seq<EntryView>) -> spec_fn(int) -> bool {
    |k: int| entries[k].pinned
}

pub open spec fn unpinned_fn(entries: Seq<EntryView>) -> spec_fn(int) -> bool {
    |k: int| !entries[k].pinned
}

/// Flipping the pin of the entry with the given id.
pub open spec fn toggle_pin(entries: Seq<EntryView>, id: int) -> Seq<EntryView> {
    Seq::new(
        entries.len(),
        |k: int|
            if entries[k].id == id {
                EntryView { pinned: !entries[k].pinned, ..entries[k] }
            } else {
                entries[k]
            },
    )
}

// ---------------------------------------------------------------------------
// Settings

/// The settings held as key/value pairs, as a map.
pub open spec fn config_map(pairs: Seq<(Seq<char>, Seq<char>)>) -> Map<Seq<char>, Seq<char>>
    decreases pairs.len(),
{
    if pairs.len() == 0 {
        Map::empty()
    } else {
        config_map(pairs.drop_last()).insert(pairs.last().0, pairs.last().1)
    }
}

pub open spec fn keys_unique(pairs: Seq<(Seq<char>, Seq<char>)>) -> bool {
    forall|a: int, b: int|
        0 <= a < pairs.len() && 0 <= b < pairs.len() && a != b ==> #[trigger] pairs[a].0
            != #[trigger] pairs[b].0
}

pub proof fn lemma_config_lookup(pairs: Seq<(Seq<char>, Seq<char>)>, i: int)
    requires
        keys_unique(pairs),
        0 <= i < pairs.len(),
    ensures
        config_map(pairs).contains_key(pairs[i].0),
        config_map(pairs)[pairs[i].0] == pairs[i].1,
    decreases pairs.len(),
{
    if i < pairs.len() - 1 {
        let p = pairs.drop_last();
        assert(p[i] == pairs[i]);
        lemma_config_lookup(p, i);
        assert(pairs.last() == pairs[pairs.len() - 1]);
    }
}

pub proof fn lemma_config_absent(pairs: Seq<(Seq<char>, Seq<char>)>, key: Seq<char>)
    requires
        forall|i: int| 0 <= i < pairs.len() ==> #[trigger] pairs[i].0 != key,
    ensures
        !config_map(pairs).contains_key(key),
    decreases pairs.len(),
{
    if pairs.len() > 0 {
        let p = pairs.drop_last();
        assert forall|i: int| 0 <= i < p.len() implies #[trigger] p[i].0 != key by {
            assert(p[i] == pairs[i]);
        }
        lemma_config_absent(p, key);
        assert(pairs.last() == pairs[pairs.len() - 1]);
    }
}

pub proof fn lemma_config_update(pairs: Seq<(Seq<char>, Seq<char>)>, i: int, v: Seq<char>)
    requires
        keys_unique(pairs),
        0 <= i < pairs.len(),
    ensures
        config_map(pairs.update(i, (pairs[i].0, v))) == config_map(pairs).insert(pairs[i].0, v),
    decreases pairs.len(),
{
    let q = pairs.update(i, (pairs[i].0, v));
    if i == pairs.len() - 1 {
        assert(q.drop_last() =~= pairs.drop_last());
        let p = pairs.drop_last();
        assert forall|j: int| 0 <= j < p.len() implies #[trigger] p[j].0 != pairs[i].0 by {
            assert(p[j] == pairs[j]);
        }
        lemma_config_absent(p, pairs[i].0);
        assert(config_map(q) =~= config_map(pairs).insert(pairs[i].0, v));
    } else {
        let p = pairs.drop_last();
        assert(q.drop_last() =~= p.update(i, (p[i].0, v)));
        assert(keys_unique(p)) by {
            assert forall|a: int, b: int|
                0 <= a < p.len() && 0 <= b < p.len() && a != b implies #[trigger] p[a].0
                != #[trigger] p[b].0 by {
                assert(p[a] == pairs[a]);
                assert(p[b] == pairs[b]);
            }
        }
        lemma_config_update(p, i, v);
        assert(pairs.last().0 != pairs[i].0) by {
            assert(pairs.last() == pairs[pairs.len() - 1]);
        }
        assert(q.last() == pairs.last());
        assert(config_map(q) =~= config_map(pairs).insert(pairs[i].0, v));
    }
}


// ---------------------------------------------------------------------------
// Facts about `select`

pub proof fn lemma_select_step<A>(s: Seq<A>, keep: spec_fn(int) -> bool, i: int)
    requires
        0 <= i < s.len(),
    ensures
        select(s.take(i + 1), keep) == if keep(i) {
            select(s.take(i), keep).push(s[i])
        } else {
            select(s.take(i), keep)
        },
{
    assert(s.take(i + 1).drop_last() =~= s.take(i));
    assert(s.take(i + 1).last() == s[i]);
}

pub proof fn lemma_select_congruent<A>(s: Seq<A>, f: spec_fn(int) -> bool, g: spec_fn(int) -> bool)
    requires
        forall|k: int| 0 <= k < s.len() ==> #[trigger] f(k) == g(k),
    ensures
        select(s, f) == select(s, g),
    decreases s.len(),
{
    if s.len() > 0 {
        lemma_select_congruent(s.drop_last(), f, g);
    }
}

pub proof fn lemma_select_members<A>(s: Seq<A>, keep: spec_fn(int) -> bool)
    ensures
        forall|m: int|
            0 <= m < select(s, keep).len() ==> exists|i: int|
                0 <= i < s.len() && keep(i) && #[trigger] select(s, keep)[m] == s[i],
    decreases s.len(),
{
    if s.len() > 0 {
        let t = s.drop_last();
        lemma_select_members(t, keep);
        let r = select(t, keep);
        assert forall|m: int| 0 <= m < select(s, keep).len() implies exists|i: int|
            0 <= i < s.len() && keep(i) && #[trigger] select(s, keep)[m] == s[i] by {
            if m < r.len() {
                let i = choose|i: int| 0 <= i < t.len() && keep(i) && r[m] == t[i];
                assert(select(s, keep)[m] == s[i]);
            } else {
                assert(select(s, keep)[m] == s[s.len() - 1]);
            }
        }
    }
}

pub proof fn lemma_select_len<A>(s: Seq<A>, keep: spec_fn(int) -> bool)
    ensures
        select(s, keep).len() <= s.len(),
    decreases s.len(),
{
    if s.len() > 0 {
        lemma_select_len(s.drop_last(), keep);
    }
}

pub proof fn lemma_select_valid(entries: Seq<EntryView>, last_id: int, keep: spec_fn(int) -> bool)
    requires
        entries_valid(entries, last_id),
    ensures
        entries_valid(select(entries, keep), last_id),
    decreases entries.len(),
{
    if entries.len() > 0 {
        let t = entries.drop_last();
        assert(entries_valid(t, last_id)) by {
            assert forall|a: int, b: int|
                0 <= a < t.len() && 0 <= b < t.len() && a != b implies #[trigger] t[a].id
                != #[trigger] t[b].id && t[a].content_hash != t[b].content_hash by {
                assert(t[a] == entries[a]);
                assert(t[b] == entries[b]);
            }
            assert forall|a: int| 0 <= a < t.len() implies 1 <= #[trigger] t[a].id <= last_id
                && i64::MIN <= t[a].created_at <= i64::MAX by {
                assert(t[a] == entries[a]);
            }
        }
        lemma_select_valid(t, last_id, keep);
        lemma_select_members(t, keep);
        let r = select(t, keep);
        let u = select(entries, keep);
        let l = entries.len() - 1;
        assert forall|a: int, b: int|
            0 <= a < u.len() && 0 <= b < u.len() && a != b implies #[trigger] u[a].id
            != #[trigger] u[b].id && u[a].content_hash != u[b].content_hash by {
            if a < r.len() && b < r.len() {
                assert(u[a] == r[a]);
                assert(u[b] == r[b]);
            } else if a < r.len() {
                let i = choose|i: int| 0 <= i < t.len() && keep(i) && r[a] == t[i];
                assert(u[a] == entries[i]);
                assert(u[b] == entries[l]);
            } else {
                let i = choose|i: int| 0 <= i < t.len() && keep(i) && r[b] == t[i];
                assert(u[b] == entries[i]);
                assert(u[a] == entries[l]);
            }
        }
        assert forall|a: int| 0 <= a < u.len() implies 1 <= #[trigger] u[a].id <= last_id
            && i64::MIN <= u[a].created_at <= i64::MAX by {
            if a < r.len() {
                assert(u[a] == r[a]);
            } else {
                assert(u[a] == entries[l]);
            }
        }
    }
}

} // verus!
