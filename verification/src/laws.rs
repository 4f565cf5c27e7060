//! What holds across operations: of the clipboard database, its content
//! hashes, and the global shortcut.
use vstd::prelude::*;

use crate::entry::{kind_from_name, kind_name, EntryKind, EntryView};
use crate::model::{
    entries_valid, has_hash, hash_index, insert_outcome, is_listing, lemma_select_members,
    listed_before, listing_indices, newer, newer_unpinned_count, pinned_fn, prune_keeps, select,
    toggle_pin, DbError, DbView,
};
use crate::display::{window_command_spec, WindowCommand};
use crate::settings::desktop_entry_text;
use crate::like_match::{fold_case, like_match};
use crate::model::{entry_matches, query_pattern};
use crate::shortcut::{keybinding_path, shortcut_plan};
use crate::hashing::{hex_digit, hex_lower};
use crate::store::schema_defaults;
use crate::shortcut::{
    clean_path, keybinding_list, keybinding_list_text, nonempty_fn, quoted, split_char, accel_parts, accel_text, human_shortcut, label_parts, take_modifier, uppercase_spec};
use crate::text::{
    contains_seq, join_with, occurs_at, remove_all, strip_end, strip_start, trim, trim_end,
    trim_start,
};

verus! {

// ---------------------------------------------------------------------------
// Listing

proof fn lemma_sorted_unique(s: Seq<EntryView>, a: Seq<int>, b: Seq<int>)
    requires
        forall|m1: int, m2: int|
            0 <= m1 < m2 < a.len() ==> listed_before(s, #[trigger] a[m1], #[trigger] a[m2]),
        forall|m1: int, m2: int|
            0 <= m1 < m2 < b.len() ==> listed_before(s, #[trigger] b[m1], #[trigger] b[m2]),
        forall|x: int| a.contains(x) <==> b.contains(x),
    ensures
        a == b,
    decreases a.len(),
{
    if a.len() == 0 {
        if b.len() > 0 {
            assert(b.contains(b[0]));
        }
        assert(a =~= b);
    } else {
        assert(a.contains(a[0]));
        assert(b.len() > 0);
        assert(b.contains(b[0]));
        if a[0] != b[0] {
            let i = choose|i: int| 0 <= i < b.len() && b[i] == a[0];
            let j = choose|j: int| 0 <= j < a.len() && a[j] == b[0];
            assert(i > 0 && j > 0);
            assert(listed_before(s, b[0], b[i]));
            assert(listed_before(s, a[0], a[j]));
            assert(false);
        }
        let a1 = a.drop_first();
        let b1 = b.drop_first();
        assert forall|x: int| a1.contains(x) <==> b1.contains(x) by {
            if a1.contains(x) {
                let i = choose|i: int| 0 <= i < a1.len() && a1[i] == x;
                assert(a[i + 1] == x);
                assert(listed_before(s, a[0], a[i + 1]));
                assert(x != a[0]);
                assert(b.contains(x));
                let k = choose|k: int| 0 <= k < b.len() && b[k] == x;
                assert(k != 0);
                assert(b1[k - 1] == x);
            }
            if b1.contains(x) {
                let i = choose|i: int| 0 <= i < b1.len() && b1[i] == x;
                assert(b[i + 1] == x);
                assert(listed_before(s, b[0], b[i + 1]));
                assert(x != b[0]);
                assert(a.contains(x));
                let k = choose|k: int| 0 <= k < a.len() && a[k] == x;
                assert(k != 0);
                assert(a1[k - 1] == x);
            }
        }
        assert forall|m1: int, m2: int| 0 <= m1 < m2 < a1.len() implies listed_before(
            s,
            #[trigger] a1[m1],
            #[trigger] a1[m2],
        ) by {
            assert(a1[m1] == a[m1 + 1] && a1[m2] == a[m2 + 1]);
        }
        assert forall|m1: int, m2: int| 0 <= m1 < m2 < b1.len() implies listed_before(
            s,
            #[trigger] b1[m1],
            #[trigger] b1[m2],
        ) by {
            assert(b1[m1] == b[m1 + 1] && b1[m2] == b[m2 + 1]);
        }
        lemma_sorted_unique(s, a1, b1);
        assert(a =~= b) by {
            assert forall|m: int| 0 <= m < a.len() implies a[m] == b[m] by {
                if m > 0 {
                    assert(a[m] == a1[m - 1] && b[m] == b1[m - 1]);
                }
            }
        }
    }
}

/// A query has one listing: the entries shown and their order are
/// determined by the database and the query.
pub proof fn law_listing_is_unique(
    entries: Seq<EntryView>,
    query: Option<Seq<char>>,
    out1: Seq<EntryView>,
    out2: Seq<EntryView>,
)
    requires
        is_listing(entries, query, out1),
        is_listing(entries, query, out2),
    ensures
        out1 == out2,
{
    let i1 = choose|idx: Seq<int>|
        listing_indices(entries, query, idx) && out1 == idx.map_values(|k: int| entries[k]);
    let i2 = choose|idx: Seq<int>|
        listing_indices(entries, query, idx) && out2 == idx.map_values(|k: int| entries[k]);
    assert forall|x: int| i1.contains(x) <==> i2.contains(x) by {
        if i1.contains(x) {
            let m = choose|m: int| 0 <= m < i1.len() && i1[m] == x;
            assert(0 <= i1[m] < entries.len());
        }
        if i2.contains(x) {
            let m = choose|m: int| 0 <= m < i2.len() && i2[m] == x;
            assert(0 <= i2[m] < entries.len());
        }
    }
    lemma_sorted_unique(entries, i1, i2);
}

/// Copying content (new or already in the history) puts it at the top of the
/// unpinned entries: with no search, only pinned entries are listed above it,
/// provided the copy's time is not earlier than any entry's time.
pub proof fn law_copy_goes_to_top(
    db: DbView,
    kind: EntryKind,
    text: Option<Seq<char>>,
    image: Option<Seq<char>>,
    hash: Seq<char>,
    now: int,
    out: Seq<EntryView>,
)
    requires
        db.valid(),
        forall|k: int| 0 <= k < db.entries.len() ==> #[trigger] db.entries[k].created_at <= now,
        insert_outcome(db, kind, text, image, hash, now).1 is Ok,
        is_listing(insert_outcome(db, kind, text, image, hash, now).0.entries, None, out),
    ensures
        ({
            let id = insert_outcome(db, kind, text, image, hash, now).1->Ok_0;
            exists|p: int|
                0 <= p < out.len() && #[trigger] out[p].id == id && forall|q: int|
                    0 <= q < p ==> #[trigger] out[q].pinned && !out[p].pinned
        }),
{
    let (d2, r) = insert_outcome(db, kind, text, image, hash, now);
    let s = d2.entries;
    let l = s.len() - 1;
    let id = r->Ok_0;
    assert(s[l].id == id && s[l].created_at == now);
    assert forall|j: int| 0 <= j < l implies #[trigger] s[j].created_at <= now by {
        if has_hash(db.entries, hash) {
            let k = hash_index(db.entries, hash);
            let oj = if j < k { j } else { j + 1 };
            assert(s[j] == db.entries[oj]);
        } else {
            assert(s[j] == db.entries[j]);
        }
    }
    let idx = choose|idx: Seq<int>|
        listing_indices(s, None, idx) && out == idx.map_values(|k: int| s[k]);
    assert(idx.contains(l));
    let p = choose|p: int| 0 <= p < idx.len() && idx[p] == l;
    assert(out[p] == s[l]);
    assert forall|q: int| 0 <= q < p implies #[trigger] out[q].pinned && !out[p].pinned by {
        assert(listed_before(s, idx[q], idx[p]));
        assert(out[q] == s[idx[q]]);
        assert(idx[q] != l);
        assert(s[idx[q]].created_at <= now);
    }
}

// ---------------------------------------------------------------------------
// Recording copies

/// Copying content that is already in the history keeps its id and adds no
/// entry: the history holds each content once.
pub proof fn law_copy_of_known_content_keeps_id(
    db: DbView,
    kind: EntryKind,
    text: Option<Seq<char>>,
    image: Option<Seq<char>>,
    hash: Seq<char>,
    now: int,
    k: int,
)
    requires
        db.valid(),
        0 <= k < db.entries.len(),
        db.entries[k].content_hash == hash,
    ensures
        insert_outcome(db, kind, text, image, hash, now).1 == Ok::<int, DbError>(db.entries[k].id),
        insert_outcome(db, kind, text, image, hash, now).0.entries.len() == db.entries.len(),
        insert_outcome(db, kind, text, image, hash, now).0.last_id == db.last_id,
{
    assert(has_hash(db.entries, hash));
    let c = hash_index(db.entries, hash);
    assert(db.entries[c].content_hash == db.entries[k].content_hash);
}

/// New content gets an id never handed out before, larger than every id in
/// the history, and the database stays valid.
pub proof fn law_new_ids_are_fresh(
    db: DbView,
    kind: EntryKind,
    text: Option<Seq<char>>,
    image: Option<Seq<char>>,
    hash: Seq<char>,
    now: int,
)
    requires
        db.valid(),
        !has_hash(db.entries, hash),
        i64::MIN <= now <= i64::MAX,
    ensures
        ({
            let (d2, r) = insert_outcome(db, kind, text, image, hash, now);
            &&& d2.valid()
            &&& r matches Ok(id) ==> id > db.last_id && forall|k: int|
                0 <= k < db.entries.len() ==> #[trigger] db.entries[k].id < id
            &&& r is Err ==> d2 == db
        }),
{
    let (d2, r) = insert_outcome(db, kind, text, image, hash, now);
    if r is Ok {
        let s = d2.entries;
        assert forall|a: int, b: int|
            0 <= a < s.len() && 0 <= b < s.len() && a != b implies #[trigger] s[a].id
            != #[trigger] s[b].id && s[a].content_hash != s[b].content_hash by {
            if a < db.entries.len() && b < db.entries.len() {
                assert(s[a] == db.entries[a] && s[b] == db.entries[b]);
            } else if a < db.entries.len() {
                assert(s[a] == db.entries[a]);
            } else {
                assert(s[b] == db.entries[b]);
            }
        }
        assert forall|a: int| 0 <= a < s.len() implies 1 <= #[trigger] s[a].id <= d2.last_id
            && i64::MIN <= s[a].created_at <= i64::MAX by {
            if a < db.entries.len() {
                assert(s[a] == db.entries[a]);
            }
        }
    }
}

/// No two entries have the same content hash.
pub open spec fn hashes_distinct(entries: Seq<EntryView>) -> bool {
    forall|a: int, b: int|
        0 <= a < entries.len() && 0 <= b < entries.len() && a != b
            ==> #[trigger] entries[a].content_hash != #[trigger] entries[b].content_hash
}

/// Recording a copy keeps the content hashes distinct, adds at most one
/// entry, and leaves every entry with other content as it was; a refused
/// copy changes nothing.
pub proof fn law_insert_keeps_hashes_distinct(
    db: DbView,
    kind: EntryKind,
    text: Option<Seq<char>>,
    image: Option<Seq<char>>,
    hash: Seq<char>,
    now: int,
)
    requires
        hashes_distinct(db.entries),
    ensures
        ({
            let (d2, r) = insert_outcome(db, kind, text, image, hash, now);
            &&& hashes_distinct(d2.entries)
            &&& db.entries.len() <= d2.entries.len() <= db.entries.len() + 1
            &&& forall|k: int|
                0 <= k < db.entries.len() && #[trigger] db.entries[k].content_hash != hash
                    ==> d2.entries.contains(db.entries[k])
            &&& r is Err ==> d2 == db
        }),
{
    let (d2, r) = insert_outcome(db, kind, text, image, hash, now);
    let s = d2.entries;
    let o = db.entries;
    if has_hash(o, hash) {
        let c = hash_index(o, hash);
        assert forall|a: int, b: int|
            0 <= a < s.len() && 0 <= b < s.len() && a != b implies #[trigger] s[a].content_hash
            != #[trigger] s[b].content_hash by {
            let oa = if a == s.len() - 1 { c } else if a < c { a } else { a + 1 };
            let ob = if b == s.len() - 1 { c } else if b < c { b } else { b + 1 };
            assert(s[a].content_hash == o[oa].content_hash);
            assert(s[b].content_hash == o[ob].content_hash);
        }
        assert forall|k: int|
            0 <= k < o.len() && #[trigger] o[k].content_hash != hash implies s.contains(o[k]) by {
            let j = if k < c { k } else { k - 1 };
            assert(s[j] == o[k]);
        }
    } else if r is Ok {
        assert forall|a: int, b: int|
            0 <= a < s.len() && 0 <= b < s.len() && a != b implies #[trigger] s[a].content_hash
            != #[trigger] s[b].content_hash by {
            if a < o.len() && b < o.len() {
                assert(s[a] == o[a] && s[b] == o[b]);
            } else if a < o.len() {
                assert(s[a] == o[a]);
            } else {
                assert(s[b] == o[b]);
            }
        }
        assert forall|k: int|
            0 <= k < o.len() && #[trigger] o[k].content_hash != hash implies s.contains(o[k]) by {
            assert(s[k] == o[k]);
        }
    } else {
        assert forall|k: int|
            0 <= k < o.len() && #[trigger] o[k].content_hash != hash implies s.contains(o[k]) by {
            assert(s[k] == o[k]);
        }
    }
}

// ---------------------------------------------------------------------------
// Pins, clearing, pruning

/// Pinning an entry twice leaves the history as it was.
pub proof fn law_toggle_pin_twice(entries: Seq<EntryView>, id: int)
    ensures
        toggle_pin(toggle_pin(entries, id), id) == entries,
{
    assert(toggle_pin(toggle_pin(entries, id), id) =~= entries);
}

proof fn lemma_select_contains<A>(s: Seq<A>, keep: spec_fn(int) -> bool, i: int)
    requires
        0 <= i < s.len(),
        keep(i),
    ensures
        select(s, keep).contains(s[i]),
    decreases s.len(),
{
    if i < s.len() - 1 {
        lemma_select_contains(s.drop_last(), keep, i);
        let r = select(s.drop_last(), keep);
        let m = choose|m: int| 0 <= m < r.len() && r[m] == s.drop_last()[i];
        assert(select(s, keep)[m] == s[i]);
    } else {
        let r = select(s.drop_last(), keep);
        assert(select(s, keep)[r.len() as int] == s[i]);
    }
}

/// "Clear all" keeps exactly the pinned entries: every pinned entry stays and
/// every entry left is pinned.
pub proof fn law_clear_keeps_exactly_pinned(entries: Seq<EntryView>)
    ensures
        forall|m: int|
            0 <= m < select(entries, pinned_fn(entries)).len() ==> (#[trigger] select(
                entries,
                pinned_fn(entries),
            )[m]).pinned,
        forall|k: int|
            0 <= k < entries.len() && #[trigger] entries[k].pinned ==> select(
                entries,
                pinned_fn(entries),
            ).contains(entries[k]),
{
    lemma_select_members(entries, pinned_fn(entries));
    assert forall|k: int| 0 <= k < entries.len() && #[trigger] entries[k].pinned implies select(
        entries,
        pinned_fn(entries),
    ).contains(entries[k]) by {
        lemma_select_contains(entries, pinned_fn(entries), k);
    }
}

proof fn lemma_newer_count_monotone(s: Seq<EntryView>, j: int, k: int, n: int)
    requires
        0 <= j < s.len(),
        0 <= k < s.len(),
        !s[j].pinned,
        newer(s, j, k),
        0 <= n <= s.len(),
    ensures
        newer_unpinned_count(s, k, n) >= newer_unpinned_count(s, j, n) + if j < n {
            1int
        } else {
            0int
        },
    decreases n,
{
    if n > 0 {
        lemma_newer_count_monotone(s, j, k, n - 1);
    }
}

/// Pruning never removes a pinned entry, and every unpinned entry it keeps
/// was copied after every entry it removes.
pub proof fn law_prune_keeps_pinned_and_newest(entries: Seq<EntryView>, max: int, k: int, j: int)
    requires
        0 <= k < entries.len(),
        0 <= j < entries.len(),
    ensures
        entries[k].pinned ==> prune_keeps(entries, max, k),
        prune_keeps(entries, max, k) && !entries[k].pinned && !prune_keeps(entries, max, j)
            ==> newer(entries, k, j),
{
    if prune_keeps(entries, max, k) && !entries[k].pinned && !prune_keeps(entries, max, j) {
        if !newer(entries, k, j) {
            if j != k {
                assert(newer(entries, j, k));
                lemma_newer_count_monotone(entries, j, k, entries.len() as int);
            }
        }
    }
}

// ---------------------------------------------------------------------------
// Settings

/// A setting reads back as it was last written, and writing one setting
/// leaves the others as they were.
pub proof fn law_config_read_back(
    config: Map<Seq<char>, Seq<char>>,
    key: Seq<char>,
    value: Seq<char>,
    other: Seq<char>,
)
    requires
        other != key,
    ensures
        config.insert(key, value).contains_key(key),
        config.insert(key, value)[key] == value,
        config.insert(key, value).contains_key(other) == config.contains_key(other),
        config.contains_key(other) ==> config.insert(key, value)[other] == config[other],
{
}

/// Filling in the default settings never changes a setting that is set,
/// always sets the three defaults, and doing it twice is doing it once.
pub proof fn law_schema_defaults(config: Map<Seq<char>, Seq<char>>, key: Seq<char>)
    ensures
        config.contains_key(key) ==> schema_defaults(config).contains_key(key) && schema_defaults(
            config,
        )[key] == config[key],
        schema_defaults(config).contains_key("autostart"@),
        schema_defaults(config).contains_key("shortcut"@),
        schema_defaults(config).contains_key("history_limit"@),
        schema_defaults(schema_defaults(config)) == schema_defaults(config),
{
    assert(schema_defaults(schema_defaults(config)) =~= schema_defaults(config));
}

// ---------------------------------------------------------------------------
// Kinds

/// A kind's stored name reads back as that kind.
pub proof fn law_kind_name_round_trip(kind: EntryKind)
    ensures
        kind_from_name(kind_name(kind)) == Some(kind),
{
    reveal_strlit("text");
    reveal_strlit("image");
    assert("image"@.len() != "text"@.len());
}


// ---------------------------------------------------------------------------
// How many entries pruning keeps

/// The number of unpinned entries in a sequence.
pub open spec fn unpinned_count(s: Seq<EntryView>) -> nat
    decreases s.len(),
{
    if s.len() == 0 {
        0
    } else {
        unpinned_count(s.drop_last()) + if s.last().pinned {
            0nat
        } else {
            1nat
        }
    }
}

spec fn unpinned_below(s: Seq<EntryView>, m: int) -> Set<int> {
    Set::new(|j: int| 0 <= j < m && !s[j].pinned)
}

spec fn newer_below(s: Seq<EntryView>, k: int, m: int) -> Set<int> {
    Set::new(|j: int| 0 <= j < m && !s[j].pinned && newer(s, j, k))
}

spec fn kept_unpinned_below(s: Seq<EntryView>, keep: spec_fn(int) -> bool, m: int) -> Set<int> {
    Set::new(|j: int| 0 <= j < m && keep(j) && !s[j].pinned)
}

proof fn lemma_newer_count_is_card(s: Seq<EntryView>, k: int, m: int)
    requires
        0 <= m <= s.len(),
    ensures
        newer_below(s, k, m).finite(),
        newer_unpinned_count(s, k, m) == newer_below(s, k, m).len(),
    decreases m,
{
    if m == 0 {
        assert(newer_below(s, k, m) =~= Set::<int>::empty());
    } else {
        lemma_newer_count_is_card(s, k, m - 1);
        if !s[m - 1].pinned && newer(s, m - 1, k) {
            assert(newer_below(s, k, m) =~= newer_below(s, k, m - 1).insert(m - 1));
        } else {
            assert(newer_below(s, k, m) =~= newer_below(s, k, m - 1));
        }
    }
}

proof fn lemma_unpinned_count_is_card(s: Seq<EntryView>, m: int)
    requires
        0 <= m <= s.len(),
    ensures
        unpinned_below(s, m).finite(),
        unpinned_count(s.take(m)) == unpinned_below(s, m).len(),
    decreases m,
{
    if m == 0 {
        assert(unpinned_below(s, m) =~= Set::<int>::empty());
    } else {
        lemma_unpinned_count_is_card(s, m - 1);
        assert(s.take(m).drop_last() =~= s.take(m - 1));
        assert(s.take(m).last() == s[m - 1]);
        if !s[m - 1].pinned {
            assert(unpinned_below(s, m) =~= unpinned_below(s, m - 1).insert(m - 1));
        } else {
            assert(unpinned_below(s, m) =~= unpinned_below(s, m - 1));
        }
    }
}

proof fn lemma_kept_count_is_card(s: Seq<EntryView>, keep: spec_fn(int) -> bool, m: int)
    requires
        0 <= m <= s.len(),
    ensures
        kept_unpinned_below(s, keep, m).finite(),
        unpinned_count(select(s.take(m), keep)) == kept_unpinned_below(s, keep, m).len(),
    decreases m,
{
    if m == 0 {
        assert(kept_unpinned_below(s, keep, m) =~= Set::<int>::empty());
        assert(s.take(0).len() == 0);
    } else {
        lemma_kept_count_is_card(s, keep, m - 1);
        crate::model::lemma_select_step(s, keep, m - 1);
        let r = select(s.take(m - 1), keep);
        if keep(m - 1) {
            assert(r.push(s[m - 1]).drop_last() =~= r);
            if !s[m - 1].pinned {
                assert(kept_unpinned_below(s, keep, m) =~= kept_unpinned_below(s, keep, m - 1).insert(
                    m - 1,
                ));
            } else {
                assert(kept_unpinned_below(s, keep, m) =~= kept_unpinned_below(s, keep, m - 1));
            }
        } else {
            assert(kept_unpinned_below(s, keep, m) =~= kept_unpinned_below(s, keep, m - 1));
        }
    }
}

/// Pruning to `max` keeps exactly `max` unpinned entries, or all of them
/// when there are fewer; the pinned ones all stay.
pub proof fn law_prune_keeps_max_unpinned(entries: Seq<EntryView>, max: int)
    requires
        0 <= max,
    ensures
        unpinned_count(select(entries, crate::model::prune_keep_fn(entries, max))) == if max
            < unpinned_count(entries) {
            max
        } else {
            unpinned_count(entries) as int
        },
{
    let n = entries.len() as int;
    let keep = crate::model::prune_keep_fn(entries, max);
    let rank = |k: int| newer_unpinned_count(entries, k, n) as int;
    let us = unpinned_below(entries, n);
    lemma_unpinned_count_is_card(entries, n);
    assert(entries.take(n) =~= entries);
    let u = us.len() as int;
    // every rank is below the number of unpinned entries
    assert forall|k: int| us.contains(k) implies 0 <= #[trigger] rank(k) < u by {
        lemma_newer_count_is_card(entries, k, n);
        assert(newer_below(entries, k, n).subset_of(us.remove(k)));
        vstd::set_lib::lemma_len_subset(newer_below(entries, k, n), us.remove(k));
    }
    // ranks are distinct
    assert(vstd::relations::injective_on(rank, us)) by {
        assert forall|a: int, b: int|
            us.contains(a) && us.contains(b) && #[trigger] rank(a) == #[trigger] rank(b) implies a
            == b by {
            if a != b {
                if newer(entries, a, b) {
                    lemma_newer_count_monotone(entries, a, b, n);
                } else {
                    assert(newer(entries, b, a));
                    lemma_newer_count_monotone(entries, b, a, n);
                }
            }
        }
    }
    // so the ranks are exactly 0 .. u
    let ranks = us.map(rank);
    vstd::set_lib::lemma_map_size(us, ranks, rank);
    vstd::set_lib::lemma_int_range(0, u);
    assert(ranks.subset_of(vstd::set_lib::set_int_range(0, u)));
    vstd::set_lib::lemma_subset_equality(ranks, vstd::set_lib::set_int_range(0, u));
    // the kept unpinned entries are those ranked below max
    let kept = kept_unpinned_below(entries, keep, n);
    lemma_kept_count_is_card(entries, keep, n);
    let lim = if max < u {
        max
    } else {
        u
    };
    assert(kept.map(rank) =~= vstd::set_lib::set_int_range(0, lim)) by {
        assert forall|r: int| #[trigger] vstd::set_lib::set_int_range(0, lim).contains(r) implies kept.map(
            rank,
        ).contains(r) by {
            assert(ranks.contains(r));
            let k = choose|k: int| us.contains(k) && rank(k) == r;
            assert(kept.contains(k));
        }
    }
    assert(vstd::relations::injective_on(rank, kept));
    vstd::set_lib::lemma_map_size(kept, kept.map(rank), rank);
    vstd::set_lib::lemma_int_range(0, lim);
}


proof fn lemma_select_none<A>(s: Seq<A>, keep: spec_fn(int) -> bool)
    requires
        forall|k: int| 0 <= k < s.len() ==> !#[trigger] keep(k),
    ensures
        select(s, keep) == Seq::<A>::empty(),
    decreases s.len(),
{
    if s.len() > 0 {
        lemma_select_none(s.drop_last(), keep);
    }
}

/// Pruning a pruned history again, to the same limit or a larger one,
/// removes nothing and changes nothing.
pub proof fn law_prune_again_changes_nothing(entries: Seq<EntryView>, n: int, m: int)
    requires
        0 <= n <= m,
    ensures
        ({
            let e1 = select(entries, crate::model::prune_keep_fn(entries, n));
            &&& select(e1, crate::model::prune_keep_fn(e1, m)) == e1
            &&& select(e1, crate::model::prune_drop_fn(e1, m)) == Seq::<EntryView>::empty()
        }),
{
    let e1 = select(entries, crate::model::prune_keep_fn(entries, n));
    let len = e1.len() as int;
    law_prune_keeps_max_unpinned(entries, n);
    lemma_unpinned_count_is_card(e1, len);
    assert(e1.take(len) =~= e1);
    let us = unpinned_below(e1, len);
    assert forall|k: int| 0 <= k < len implies #[trigger] prune_keeps(e1, m, k) by {
        if !e1[k].pinned {
            lemma_newer_count_is_card(e1, k, len);
            assert(us.contains(k));
            assert(newer_below(e1, k, len).subset_of(us.remove(k)));
            vstd::set_lib::lemma_len_subset(newer_below(e1, k, len), us.remove(k));
        }
    }
    lemma_select_all(e1, crate::model::prune_keep_fn(e1, m));
    lemma_select_none(e1, crate::model::prune_drop_fn(e1, m));
}

// ---------------------------------------------------------------------------
// Deleting, searching, hashing

/// After deleting an entry, no entry has its id.
pub proof fn law_delete_removes_id(entries: Seq<EntryView>, last_id: int, k: int)
    requires
        entries_valid(entries, last_id),
        0 <= k < entries.len(),
    ensures
        forall|j: int|
            0 <= j < entries.remove(k).len() ==> #[trigger] entries.remove(k)[j].id
                != entries[k].id,
{
    assert forall|j: int| 0 <= j < entries.remove(k).len() implies #[trigger] entries.remove(
        k,
    )[j].id != entries[k].id by {
        let oj = if j < k { j } else { j + 1 };
        assert(entries.remove(k)[j] == entries[oj]);
    }
}

/// A blank search shows what no search shows.
pub proof fn law_blank_search_shows_all(
    entries: Seq<EntryView>,
    q: Seq<char>,
    out: Seq<EntryView>,
)
    requires
        trim(q).len() == 0,
        is_listing(entries, Some(q), out),
    ensures
        is_listing(entries, None, out),
{
    let idx = choose|idx: Seq<int>|
        listing_indices(entries, Some(q), idx) && out == idx.map_values(|k: int| entries[k]);
    assert(listing_indices(entries, None, idx));
}

/// A search shows only entries that the full listing shows, in the same
/// relative order.
pub proof fn law_search_narrows(
    entries: Seq<EntryView>,
    q: Seq<char>,
    out: Seq<EntryView>,
    all: Seq<EntryView>,
    m1: int,
    m2: int,
)
    requires
        is_listing(entries, Some(q), out),
        is_listing(entries, None, all),
        0 <= m1 < m2 < out.len(),
    ensures
        exists|a1: int, a2: int|
            0 <= a1 < a2 < all.len() && #[trigger] all[a1] == out[m1] && #[trigger] all[a2]
                == out[m2],
{
    let i1 = choose|idx: Seq<int>|
        listing_indices(entries, Some(q), idx) && out == idx.map_values(|k: int| entries[k]);
    let i2 = choose|idx: Seq<int>|
        listing_indices(entries, None, idx) && all == idx.map_values(|k: int| entries[k]);
    let k1 = i1[m1];
    let k2 = i1[m2];
    assert(listed_before(entries, k1, k2));
    assert(i2.contains(k1) && i2.contains(k2));
    let a1 = choose|a: int| 0 <= a < i2.len() && i2[a] == k1;
    let a2 = choose|a: int| 0 <= a < i2.len() && i2[a] == k2;
    if a2 <= a1 {
        if a2 < a1 {
            assert(listed_before(entries, i2[a2], i2[a1]));
        }
        assert(false);
    }
    assert(all[a1] == out[m1] && all[a2] == out[m2]);
}

/// A content hash is two lowercase hexadecimal digits per digest byte: 64
/// characters for a SHA-256 digest, each in `0-9a-f`.
pub proof fn law_hash_is_lowercase_hex(bytes: Seq<u8>)
    ensures
        hex_lower(bytes).len() == 2 * bytes.len(),
        forall|i: int|
            0 <= i < hex_lower(bytes).len() ==> ('0' <= #[trigger] hex_lower(bytes)[i] <= '9')
                || ('a' <= hex_lower(bytes)[i] <= 'f'),
    decreases bytes.len(),
{
    if bytes.len() > 0 {
        law_hash_is_lowercase_hex(bytes.drop_last());
        let r = hex_lower(bytes.drop_last());
        let hi = bytes.last() as int / 16;
        let lo = bytes.last() as int % 16;
        assert(hex_lower(bytes) == r + seq![hex_digit(hi), hex_digit(lo)]);
        assert forall|i: int| 0 <= i < hex_lower(bytes).len() implies ('0' <= #[trigger] hex_lower(
            bytes,
        )[i] <= '9') || ('a' <= hex_lower(bytes)[i] <= 'f') by {
            if i >= r.len() {
                let d = if i == r.len() { hi } else { lo };
                assert(hex_lower(bytes)[i] == hex_digit(d));
                if d < 10 {
                    assert((d + 48) as char == hex_digit(d));
                } else {
                    assert((d + 87) as char == hex_digit(d));
                }
            } else {
                assert(hex_lower(bytes)[i] == r[i]);
            }
        }
    }
}


// ---------------------------------------------------------------------------
// Shortcuts

/// `t` when `b` holds, otherwise nothing.
pub open spec fn opt_text(b: bool, t: Seq<char>) -> Seq<char> {
    if b {
        t
    } else {
        Seq::empty()
    }
}

/// The modifier labels of a recorded accelerator, in the order they are shown.
pub open spec fn modifier_labels(super_held: bool, ctrl: bool, alt: bool, shift: bool) -> Seq<
    Seq<char>,
> {
    let a: Seq<Seq<char>> = Seq::empty();
    let a = if super_held {
        a.push("Super"@)
    } else {
        a
    };
    let a = if ctrl {
        a.push("Ctrl"@)
    } else {
        a
    };
    let a = if alt {
        a.push("Alt"@)
    } else {
        a
    };
    if shift {
        a.push("Shift"@)
    } else {
        a
    }
}

proof fn lemma_remove_all_absent(y: Seq<char>, p: Seq<char>)
    requires
        !contains_seq(y, p),
    ensures
        remove_all(y, p) == y,
    decreases y.len(),
{
    if p.len() > 0 && y.len() >= p.len() {
        assert(!occurs_at(y, p, 0));
        assert(y.subrange(0, p.len() as int) =~= y.take(p.len() as int));
        let t = y.drop_first();
        assert(!contains_seq(t, p)) by {
            if contains_seq(t, p) {
                let i = choose|i: int| occurs_at(t, p, i);
                assert(y.subrange(i + 1, i + 1 + p.len()) =~= t.subrange(i, i + p.len()));
                assert(occurs_at(y, p, i + 1));
            }
        }
        lemma_remove_all_absent(t, p);
        assert(seq![y[0]] + t =~= y);
    }
}

proof fn lemma_remove_all_prefix(p: Seq<char>, y: Seq<char>)
    requires
        p.len() > 0,
    ensures
        remove_all(p + y, p) == remove_all(y, p),
{
    assert((p + y).take(p.len() as int) =~= p);
    assert((p + y).skip(p.len() as int) =~= y);
}

proof fn lemma_occurs_at_start(p: Seq<char>, y: Seq<char>)
    ensures
        contains_seq(p + y, p),
{
    assert((p + y).subrange(0, p.len() as int) =~= p);
    assert(occurs_at(p + y, p, 0));
}

/// A tag-like piece `q` (a `<` then no other `<`) in front of text in which
/// `p` does not occur, where `q` and `p` differ within their common length:
/// `p` does not occur in the whole.
proof fn lemma_no_occurrence_prefix(q: Seq<char>, z: Seq<char>, p: Seq<char>, d: int)
    requires
        p.len() > 0,
        p[0] == '<',
        q.len() > 0 ==> q[0] == '<',
        forall|k: int| 0 < k < q.len() ==> #[trigger] q[k] != '<',
        q.len() > 0 ==> 0 <= d < q.len() && d < p.len() && q[d] != p[d],
        !contains_seq(z, p),
    ensures
        !contains_seq(q + z, p),
{
    let w = q + z;
    assert forall|i: int| !occurs_at(w, p, i) by {
        if occurs_at(w, p, i) {
            assert(w.subrange(i, i + p.len())[0] == p[0]);
            if i < q.len() {
                if i == 0 {
                    assert(w.subrange(i, i + p.len())[d] == p[d]);
                    assert(w[d] == q[d]);
                } else {
                    assert(w[i] == q[i]);
                }
            } else {
                assert(z.subrange(i - q.len(), i - q.len() + p.len()) =~= w.subrange(
                    i,
                    i + p.len(),
                ));
                assert(occurs_at(z, p, i - q.len()));
            }
        }
    }
}

proof fn lemma_no_lt(z: Seq<char>, p: Seq<char>)
    requires
        p.len() > 0,
        p[0] == '<',
        forall|k: int| 0 <= k < z.len() ==> #[trigger] z[k] != '<',
    ensures
        !contains_seq(z, p),
{
    assert forall|i: int| !occurs_at(z, p, i) by {
        if occurs_at(z, p, i) {
            assert(z.subrange(i, i + p.len())[0] == z[i]);
        }
    }
}

proof fn lemma_take_modifier_step(
    b: bool,
    tag: Seq<char>,
    label: Seq<char>,
    rest: Seq<char>,
    labels: Seq<Seq<char>>,
)
    requires
        tag.len() > 0,
        !contains_seq(rest, tag),
    ensures
        take_modifier((labels, opt_text(b, tag) + rest), tag, label) == (
            if b {
                labels.push(label)
            } else {
                labels
            },
            rest,
        ),
{
    if b {
        lemma_occurs_at_start(tag, rest);
        lemma_remove_all_prefix(tag, rest);
        lemma_remove_all_absent(rest, tag);
    } else {
        assert(opt_text(b, tag) + rest =~= rest);
    }
}

/// A recorded accelerator is shown as the modifiers that were held, in the
/// order Super, Ctrl, Alt, Shift, then the key upper-cased, joined with
/// " + ", provided the key text holds no `<`.
pub proof fn law_recorded_shortcut_is_shown_as_held(
    super_held: bool,
    ctrl: bool,
    alt: bool,
    shift: bool,
    key: Seq<char>,
)
    requires
        forall|k: int| 0 <= k < key.len() ==> #[trigger] key[k] != '<',
    ensures
        accel_parts(accel_text(super_held, ctrl, alt, shift, key)) == (
            modifier_labels(super_held, ctrl, alt, shift),
            key,
        ),
        human_shortcut(accel_text(super_held, ctrl, alt, shift, key)) == join_with(
            label_parts(
                modifier_labels(super_held, ctrl, alt, shift),
                if key.len() > 0 {
                    uppercase_spec(key)
                } else {
                    key
                },
            ),
            " + "@,
        ),
{
    reveal_strlit("<Super>");
    reveal_strlit("<Ctrl>");
    reveal_strlit("<Alt>");
    reveal_strlit("<Shift>");
    let t1 = "<Super>"@;
    let t2 = "<Ctrl>"@;
    let t3 = "<Alt>"@;
    let t4 = "<Shift>"@;
    let r4 = opt_text(shift, t4) + key;
    let r3 = opt_text(alt, t3) + r4;
    let r2 = opt_text(ctrl, t2) + r3;
    assert(accel_text(super_held, ctrl, alt, shift, key) =~= opt_text(super_held, t1) + r2);
    // Shift: the key holds no tag
    lemma_no_lt(key, t4);
    lemma_no_lt(key, t3);
    lemma_no_lt(key, t2);
    lemma_no_lt(key, t1);
    // Alt: no Alt tag after it
    lemma_no_occurrence_prefix(opt_text(shift, t4), key, t3, 1);
    // Ctrl: no Ctrl tag after it
    lemma_no_occurrence_prefix(opt_text(shift, t4), key, t2, 1);
    lemma_no_occurrence_prefix(opt_text(alt, t3), r4, t2, 1);
    // Super: no Super tag after it
    lemma_no_occurrence_prefix(opt_text(shift, t4), key, t1, 2);
    lemma_no_occurrence_prefix(opt_text(alt, t3), r4, t1, 1);
    lemma_no_occurrence_prefix(opt_text(ctrl, t2), r3, t1, 1);
    let l0: Seq<Seq<char>> = Seq::empty();
    lemma_take_modifier_step(super_held, t1, "Super"@, r2, l0);
    let l1 = if super_held {
        l0.push("Super"@)
    } else {
        l0
    };
    lemma_take_modifier_step(ctrl, t2, "Ctrl"@, r3, l1);
    let l2 = if ctrl {
        l1.push("Ctrl"@)
    } else {
        l1
    };
    lemma_take_modifier_step(alt, t3, "Alt"@, r4, l2);
    let l3 = if alt {
        l2.push("Alt"@)
    } else {
        l2
    };
    lemma_take_modifier_step(shift, t4, "Shift"@, key, l3);
}


/// A path that reads back unchanged from a `gsettings` list: not empty, no
/// comma, and no quote of either kind at either end.
pub open spec fn plain_path(p: Seq<char>) -> bool {
    &&& p.len() > 0
    &&& forall|k: int| 0 <= k < p.len() ==> #[trigger] p[k] != ','
    &&& p[0] != '\'' && p[0] != '"'
    &&& p.last() != '\'' && p.last() != '"'
}

proof fn lemma_split_no_comma(x: Seq<char>)
    requires
        forall|k: int| 0 <= k < x.len() ==> #[trigger] x[k] != ',',
    ensures
        split_char(x, ',') == seq![x],
    decreases x.len(),
{
    if x.len() > 0 {
        lemma_split_no_comma(x.drop_last());
        let r = split_char(x.drop_last(), ',');
        assert(r == seq![x.drop_last()]);
        assert(x.last() == x[x.len() - 1]);
        assert(x.last() != ',');
        assert(x.drop_last().push(x.last()) =~= x);
        assert(r.update(0, x) =~= seq![x]);
    } else {
        assert(x =~= Seq::<char>::empty());
    }
}

proof fn lemma_split_concat(x: Seq<char>, y: Seq<char>)
    ensures
        split_char(x + seq![','] + y, ',') == split_char(x, ',') + split_char(y, ','),
    decreases y.len(),
{
    let w = x + seq![','] + y;
    if y.len() == 0 {
        assert(w =~= x + seq![',']);
        assert(w.drop_last() =~= x);
        assert(split_char(x, ',') + split_char(y, ',') =~= split_char(x, ',').push(Seq::empty()));
    } else {
        lemma_split_concat(x, y.drop_last());
        assert(w.drop_last() =~= x + seq![','] + y.drop_last());
        assert(w.last() == y.last());
        crate::shortcut::lemma_split_char_nonempty(y.drop_last(), ',');
        let a = split_char(x, ',');
        let b = split_char(y.drop_last(), ',');
        if y.last() == ',' {
            assert((a + b).push(Seq::empty()) =~= a + b.push(Seq::empty()));
        } else {
            assert((a + b).update((a + b).len() - 1, (a + b).last().push(y.last())) =~= a
                + b.update(b.len() - 1, b.last().push(y.last())));
        }
    }
}

/// The pieces that splitting a written list at commas gives: the first quoted
/// path, then each further one after its space.
spec fn list_pieces(q: Seq<Seq<char>>) -> Seq<Seq<char>> {
    Seq::new(q.len(), |i: int| if i == 0 { q[0] } else { seq![' '] + q[i] })
}

proof fn lemma_split_join(q: Seq<Seq<char>>)
    requires
        q.len() > 0,
        forall|i: int, k: int| 0 <= i < q.len() && 0 <= k < q[i].len() ==> #[trigger] q[i][k] != ',',
    ensures
        split_char(join_with(q, ", "@), ',') == list_pieces(q),
    decreases q.len(),
{
    reveal_strlit(", ");
    if q.len() == 1 {
        lemma_split_no_comma(q[0]);
        assert(list_pieces(q) =~= seq![q[0]]);
    } else {
        let r = q.drop_last();
        assert forall|i: int, k: int| 0 <= i < r.len() && 0 <= k < r[i].len() implies #[trigger] r[i][k]
            != ',' by {
            assert(r[i] == q[i]);
        }
        lemma_split_join(r);
        let last = seq![' '] + q.last();
        assert(join_with(q, ", "@) =~= join_with(r, ", "@) + seq![','] + last);
        lemma_split_concat(join_with(r, ", "@), last);
        assert forall|k: int| 0 <= k < last.len() implies #[trigger] last[k] != ',' by {
            if k > 0 {
                assert(last[k] == q[q.len() - 1][k - 1]);
            }
        }
        lemma_split_no_comma(last);
        assert(list_pieces(r) + seq![last] =~= list_pieces(q));
    }
}

proof fn lemma_clean_quoted(p: Seq<char>, spaced: bool)
    requires
        plain_path(p),
    ensures
        clean_path(if spaced {
            seq![' '] + quoted(p)
        } else {
            quoted(p)
        }) == p,
{
    let qp = quoted(p);
    let x = if spaced {
        seq![' '] + qp
    } else {
        qp
    };
    if spaced {
        assert(x.drop_first() =~= qp);
    }
    assert(trim_start(qp) == qp);
    assert(trim_start(x) == qp);
    assert(trim_end(qp) == qp);
    let inner = p + seq!['\''];
    assert(qp.drop_first() =~= inner);
    assert(qp[0] == '\'');
    assert(inner[0] == p[0]);
    assert(strip_start(inner, '\'') == inner);
    assert(strip_start(qp, '\'') == inner);
    assert(inner.drop_last() =~= p);
    assert(strip_end(p, '\'') == p);
    assert(strip_end(inner, '\'') == p);
    assert(strip_start(p, '"') == p);
    assert(strip_end(p, '"') == p);
}

proof fn lemma_select_all<A>(s: Seq<A>, keep: spec_fn(int) -> bool)
    requires
        forall|k: int| 0 <= k < s.len() ==> #[trigger] keep(k),
    ensures
        select(s, keep) == s,
    decreases s.len(),
{
    if s.len() > 0 {
        lemma_select_all(s.drop_last(), keep);
        assert(s.drop_last().push(s.last()) =~= s);
    }
}

/// Writing keybinding paths as a `gsettings` list and reading the list back
/// gives the same paths, for paths that are not empty and hold no comma and
/// no quote at either end.
pub proof fn law_keybinding_list_round_trip(paths: Seq<Seq<char>>)
    requires
        forall|i: int| 0 <= i < paths.len() ==> plain_path(#[trigger] paths[i]),
    ensures
        keybinding_list(keybinding_list_text(paths)) == paths,
{
    reveal_strlit("@as []");
    let q = paths.map_values(|p: Seq<char>| quoted(p));
    let j = join_with(q, ", "@);
    let text = keybinding_list_text(paths);
    assert(text =~= seq!['['] + j + seq![']']);
    assert(text[0] == '[');
    assert(text.last() == ']');
    assert(trim_start(text) == text);
    assert(trim_end(text) == text);
    assert(text != "@as []"@) by {
        assert("@as []"@[0] == '@');
    }
    assert(text.drop_first() =~= j + seq![']']);
    if paths.len() == 0 {
        assert(j =~= Seq::<char>::empty());
        let close = seq![']'];
        assert(j + close =~= close);
        assert(strip_start(close, '[') == close);
        assert(strip_start(text, '[') == close);
        assert(close.drop_last() =~= Seq::<char>::empty());
        assert(strip_end(Seq::<char>::empty(), ']') == Seq::<char>::empty());
        assert(strip_end(close, ']') == Seq::<char>::empty());
        let inner = strip_end(strip_start(text, '['), ']');
        assert(inner =~= Seq::<char>::empty());
        let cleaned = split_char(inner, ',').map_values(|p: Seq<char>| clean_path(p));
        assert(split_char(inner, ',') =~= seq![Seq::<char>::empty()]);
        let e = Seq::<char>::empty();
        assert(trim_start(e) == e);
        assert(trim_end(e) == e);
        assert(strip_start(e, '\'') == e && strip_end(e, '\'') == e);
        assert(strip_start(e, '"') == e && strip_end(e, '"') == e);
        assert(clean_path(e) =~= e);
        assert(cleaned =~= seq![e]);
        assert(cleaned.drop_last() =~= Seq::<Seq<char>>::empty());
        assert(cleaned[0].len() == 0);
        assert(!(nonempty_fn(cleaned))(0));
        assert(select(cleaned.drop_last(), nonempty_fn(cleaned)) =~= Seq::<Seq<char>>::empty());
        assert(select(cleaned, nonempty_fn(cleaned)) =~= Seq::<Seq<char>>::empty());
    } else {
        assert forall|i: int, k: int| 0 <= i < q.len() && 0 <= k < q[i].len() implies #[trigger] q[i][k]
            != ',' by {
            assert(q[i] == quoted(paths[i]));
            if 0 < k < q[i].len() - 1 {
                assert(q[i][k] == paths[i][k - 1]);
            }
        }
        lemma_split_join(q);
        assert(j[0] == '\'') by {
            lemma_join_first(q);
        }
        assert(j.last() == '\'') by {
            lemma_join_last(q);
        }
        assert((j + seq![']'])[0] == '\'');
        assert(strip_start(j + seq![']'], '[') == j + seq![']']);
        assert((j + seq![']']).drop_last() =~= j);
        assert(strip_end(j, ']') == j);
        let inner = strip_end(strip_start(text, '['), ']');
        assert(inner == j);
        let cleaned = split_char(inner, ',').map_values(|p: Seq<char>| clean_path(p));
        assert forall|i: int| 0 <= i < cleaned.len() implies #[trigger] cleaned[i] == paths[i] by {
            assert(q[i] == quoted(paths[i]));
            lemma_clean_quoted(paths[i], i != 0);
        }
        assert(cleaned =~= paths);
        lemma_select_all(cleaned, nonempty_fn(cleaned));
    }
}

proof fn lemma_join_first(q: Seq<Seq<char>>)
    requires
        q.len() > 0,
        q[0].len() > 0,
    ensures
        join_with(q, ", "@).len() > 0,
        join_with(q, ", "@)[0] == q[0][0],
    decreases q.len(),
{
    if q.len() > 1 {
        lemma_join_first(q.drop_last());
    }
}

proof fn lemma_join_last(q: Seq<Seq<char>>)
    requires
        q.len() > 0,
        q.last().len() > 0,
    ensures
        join_with(q, ", "@).len() > 0,
        join_with(q, ", "@).last() == q.last().last(),
{
}

// ---------------------------------------------------------------------------
// Copying known content again

/// Copying content that is already in the history renews only that entry's
/// time: it keeps its id, its pin and every other field, comes last in copy
/// order, and every other entry stays as it was.
pub proof fn law_recopy_renews_only_the_time(
    db: DbView,
    kind: EntryKind,
    text: Option<Seq<char>>,
    image: Option<Seq<char>>,
    hash: Seq<char>,
    now: int,
    k: int,
)
    requires
        hashes_distinct(db.entries),
        0 <= k < db.entries.len(),
        db.entries[k].content_hash == hash,
    ensures
        ({
            let (d2, r) = insert_outcome(db, kind, text, image, hash, now);
            let old_e = db.entries[k];
            let new_e = d2.entries[d2.entries.len() - 1];
            &&& r == Ok::<int, DbError>(old_e.id)
            &&& d2.entries.len() == db.entries.len()
            &&& d2.last_id == db.last_id
            &&& d2.config == db.config
            &&& new_e.created_at == now
            &&& new_e.id == old_e.id
            &&& new_e.pinned == old_e.pinned
            &&& new_e.kind == old_e.kind
            &&& new_e.text_content == old_e.text_content
            &&& new_e.image_path == old_e.image_path
            &&& new_e.content_hash == old_e.content_hash
            &&& forall|j: int|
                0 <= j < db.entries.len() && j != k ==> d2.entries.contains(
                    #[trigger] db.entries[j],
                )
        }),
{
    assert(has_hash(db.entries, hash));
    let c = hash_index(db.entries, hash);
    assert(c == k);
    let (d2, r) = insert_outcome(db, kind, text, image, hash, now);
    assert forall|j: int| 0 <= j < db.entries.len() && j != k implies d2.entries.contains(
        #[trigger] db.entries[j],
    ) by {
        let i = if j < k { j } else { j - 1 };
        assert(d2.entries[i] == db.entries[j]);
    }
}

// ---------------------------------------------------------------------------
// Starting the application

/// On the first start the window is built, and shown exactly when the
/// application was not started in the background, whether or not a toggle
/// was asked for.
pub proof fn law_first_start_shows_unless_background(
    visible: bool,
    pinned: bool,
    toggle: bool,
    background: bool,
)
    ensures
        window_command_spec(false, visible, pinned, toggle, background) == (WindowCommand::Build {
            show: !background,
        }),
{
}

// ---------------------------------------------------------------------------
// Autostart

/// The autostart entry is an enabled one: GNOME's autostart flag is `true`,
/// the entry is not hidden, and it starts `~/.local/bin/clippy` in the
/// background for the given home directory.
pub proof fn law_autostart_entry_is_enabled(home: Seq<char>)
    ensures
        contains_seq(desktop_entry_text(home), "\nX-GNOME-Autostart-enabled=true\n"@),
        contains_seq(desktop_entry_text(home), "\nHidden=false\n"@),
        contains_seq(
            desktop_entry_text(home),
            "\nExec="@ + home + "/.local/bin/clippy --background\n"@,
        ),
{
    reveal_strlit("[Desktop Entry]\nVersion=1.0\nType=Application\nName=Clippy\nComment=A native clipboard manager for GNOME/Linux\nExec=");
    reveal_strlit("/.local/bin/clippy --background\nIcon=clippy\nTerminal=false\nHidden=false\nNoDisplay=false\nX-GNOME-Autostart-enabled=true\nStartupWMClass=org.gnome.Clippy\n");
    reveal_strlit("\nX-GNOME-Autostart-enabled=true\n");
    reveal_strlit("\nHidden=false\n");
    reveal_strlit("\nExec=");
    reveal_strlit("/.local/bin/clippy --background\n");
    let p = "[Desktop Entry]\nVersion=1.0\nType=Application\nName=Clippy\nComment=A native clipboard manager for GNOME/Linux\nExec="@;
    let s = "/.local/bin/clippy --background\nIcon=clippy\nTerminal=false\nHidden=false\nNoDisplay=false\nX-GNOME-Autostart-enabled=true\nStartupWMClass=org.gnome.Clippy\n"@;
    let text = desktop_entry_text(home);
    assert(text == p + home + s);
    let base: int = p.len() as int + home.len() as int;
    let flag = "\nX-GNOME-Autostart-enabled=true\n"@;
    assert(s.subrange(87, 119) =~= flag);
    assert(text.subrange(base + 87, base + 119) =~= s.subrange(87, 119));
    assert(occurs_at(text, flag, base + 87));
    let hidden = "\nHidden=false\n"@;
    assert(s.subrange(58, 72) =~= hidden);
    assert(text.subrange(base + 58, base + 72) =~= s.subrange(58, 72));
    assert(occurs_at(text, hidden, base + 58));
    let exec = "\nExec="@ + home + "/.local/bin/clippy --background\n"@;
    assert(p.subrange(107, 113) =~= "\nExec="@);
    assert(s.subrange(0, 32) =~= "/.local/bin/clippy --background\n"@);
    assert(text.subrange(107, base + 32) =~= exec);
    assert(occurs_at(text, exec, 107));
}

// ---------------------------------------------------------------------------
// Registering the shortcut

/// Registering a binding keeps every custom keybinding already listed: the
/// list written back, read again, is the listed paths with this
/// application's path added at the end when it was missing (nothing is
/// written when it was there). Listed paths are taken as `gsettings` writes
/// them: not empty, with no comma and no quote at either end.
pub proof fn law_register_keeps_listed_paths(output: Seq<char>, binding: Seq<char>)
    requires
        trim(binding).len() != 0,
        forall|i: int|
            0 <= i < keybinding_list(output).len() ==> plain_path(
                #[trigger] keybinding_list(output)[i],
            ),
    ensures
        ({
            let paths = keybinding_list(output);
            let (new_list, register) = shortcut_plan(output, binding);
            &&& register
            &&& paths.contains(keybinding_path()) ==> new_list is None
            &&& !paths.contains(keybinding_path()) ==> (new_list matches Some(text)
                && keybinding_list(text) == paths.push(keybinding_path()))
        }),
{
    let paths = keybinding_list(output);
    let kp = keybinding_path();
    reveal_strlit("/org/gnome/settings-daemon/plugins/media-keys/custom-keybindings/clippy/");
    assert(kp.len() > 0);
    assert forall|k: int| 0 <= k < kp.len() implies #[trigger] kp[k] != ',' by {}
    assert(plain_path(kp));
    let all = paths.push(kp);
    assert forall|i: int| 0 <= i < all.len() implies plain_path(#[trigger] all[i]) by {
        if i < paths.len() {
            assert(all[i] == paths[i]);
        }
    }
    law_keybinding_list_round_trip(all);
}

// ---------------------------------------------------------------------------
// Searching for a query

/// `a` and `b` are the same characters, ASCII letters in either case.
pub open spec fn folded_eq(a: Seq<char>, b: Seq<char>) -> bool {
    a.len() == b.len() && forall|j: int|
        0 <= j < a.len() ==> #[trigger] fold_case(a[j]) == fold_case(b[j])
}

/// `q` holds neither of the wildcards `%` and `_`.
pub open spec fn no_wildcards(q: Seq<char>) -> bool {
    forall|j: int| 0 <= j < q.len() ==> #[trigger] q[j] != '%' && q[j] != '_'
}

/// `t` holds `q` somewhere, ASCII letters in either case.
pub open spec fn contains_folded(t: Seq<char>, q: Seq<char>) -> bool {
    exists|i: int|
        0 <= i && i + q.len() <= t.len() && #[trigger] folded_eq(q, t.subrange(i, i + q.len()))
}

proof fn lemma_like_literal_prefix(p: Seq<char>, rest: Seq<char>, t: Seq<char>)
    requires
        no_wildcards(p),
    ensures
        like_match(p + rest, t) == (t.len() >= p.len() && folded_eq(p, t.take(p.len() as int))
            && like_match(rest, t.skip(p.len() as int))),
    decreases p.len(),
{
    if p.len() == 0 {
        assert(p + rest =~= rest);
        assert(t.skip(0) =~= t);
        assert(t.take(0) =~= Seq::<char>::empty());
    } else {
        let pr = p + rest;
        assert(pr[0] == p[0]);
        assert(p[0] != '%' && p[0] != '_');
        assert(pr.drop_first() =~= p.drop_first() + rest);
        let pd = p.drop_first();
        assert(no_wildcards(pd)) by {
            assert forall|j: int| 0 <= j < pd.len() implies #[trigger] pd[j] != '%' && pd[j]
                != '_' by {
                assert(pd[j] == p[j + 1]);
            }
        }
        if t.len() > 0 {
            let td = t.drop_first();
            lemma_like_literal_prefix(pd, rest, td);
            if t.len() >= p.len() {
                assert(td.skip(pd.len() as int) =~= t.skip(p.len() as int));
                let a = t.take(p.len() as int);
                let b = td.take(pd.len() as int);
                assert(a.drop_first() =~= b);
                assert(folded_eq(p, a) == (fold_case(p[0]) == fold_case(t[0]) && folded_eq(pd, b)))
                    by {
                    if folded_eq(p, a) {
                        assert(fold_case(p[0]) == fold_case(a[0]));
                        assert forall|j: int| 0 <= j < pd.len() implies #[trigger] fold_case(pd[j])
                            == fold_case(b[j]) by {
                            assert(fold_case(p[j + 1]) == fold_case(a[j + 1]));
                        }
                    }
                    if fold_case(p[0]) == fold_case(t[0]) && folded_eq(pd, b) {
                        assert forall|j: int| 0 <= j < p.len() implies #[trigger] fold_case(p[j])
                            == fold_case(a[j]) by {
                            if j > 0 {
                                assert(fold_case(pd[j - 1]) == fold_case(b[j - 1]));
                            }
                        }
                    }
                }
            }
        }
    }
}

proof fn lemma_like_percent_all(t: Seq<char>)
    ensures
        like_match(seq!['%'], t),
    decreases t.len(),
{
    let p = seq!['%'];
    assert(p.len() == 1 && p[0] == '%');
    assert(p.drop_first() =~= Seq::<char>::empty());
    if t.len() > 0 {
        lemma_like_percent_all(t.drop_first());
    } else {
        assert(like_match(Seq::<char>::empty(), t));
        assert(like_match(p.drop_first(), t));
    }
}

proof fn lemma_like_leading_percent(r: Seq<char>, t: Seq<char>)
    ensures
        like_match(seq!['%'] + r, t) == exists|i: int|
            0 <= i <= t.len() && #[trigger] like_match(r, t.skip(i)),
    decreases t.len(),
{
    let p = seq!['%'] + r;
    assert(p[0] == '%');
    assert(p.drop_first() =~= r);
    assert(t.skip(0) =~= t);
    if like_match(p, t) {
        if !like_match(r, t) {
            let td = t.drop_first();
            lemma_like_leading_percent(r, td);
            let i = choose|i: int| 0 <= i <= td.len() && #[trigger] like_match(r, td.skip(i));
            assert(td.skip(i) =~= t.skip(i + 1));
            assert(like_match(r, t.skip(i + 1)));
        }
    }
    if exists|i: int| 0 <= i <= t.len() && #[trigger] like_match(r, t.skip(i)) {
        let i = choose|i: int| 0 <= i <= t.len() && #[trigger] like_match(r, t.skip(i));
        if i > 0 {
            let td = t.drop_first();
            lemma_like_leading_percent(r, td);
            assert(td.skip(i - 1) =~= t.skip(i));
            assert(like_match(r, td.skip(i - 1)));
        }
    }
}

/// A search for a query without wildcards shows exactly the text entries
/// whose text holds the whole query, ASCII letters in either case; entries
/// without text are not shown.
pub proof fn law_search_finds_the_query(e: EntryView, q: Seq<char>)
    requires
        trim(q).len() != 0,
        no_wildcards(q),
    ensures
        entry_matches(e, Some(q)) == (e.text_content matches Some(t) && contains_folded(t, q)),
{
    match e.text_content {
        Some(t) => {
            let r = q + seq!['%'];
            assert(query_pattern(q) =~= seq!['%'] + r);
            lemma_like_leading_percent(r, t);
            if entry_matches(e, Some(q)) {
                let i = choose|i: int| 0 <= i <= t.len() && #[trigger] like_match(r, t.skip(i));
                lemma_like_literal_prefix(q, seq!['%'], t.skip(i));
                assert(t.skip(i).take(q.len() as int) =~= t.subrange(i, i + q.len()));
                assert(folded_eq(q, t.subrange(i, i + q.len())));
            }
            if contains_folded(t, q) {
                let i = choose|i: int|
                    0 <= i && i + q.len() <= t.len() && #[trigger] folded_eq(
                        q,
                        t.subrange(i, i + q.len()),
                    );
                lemma_like_literal_prefix(q, seq!['%'], t.skip(i));
                assert(t.skip(i).take(q.len() as int) =~= t.subrange(i, i + q.len()));
                lemma_like_percent_all(t.skip(i).skip(q.len() as int));
                assert(like_match(r, t.skip(i)));
            }
        },
        None => {},
    }
}

} // verus!
