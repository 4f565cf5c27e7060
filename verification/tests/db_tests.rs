use clippy_history::entry::EntryKind;
use clippy_history::store::{
    clear_unpinned_entries, create_schema, get_entries, insert_entry, prune_entries,
    toggle_pin_entry, ClipboardDb,
};

fn setup_in_memory_db() -> ClipboardDb {
    let mut db = ClipboardDb::new();
    create_schema(&mut db);
    db
}

#[test]
fn test_insert_and_get_entries() {
    let mut conn = setup_in_memory_db();

    let id1 = insert_entry(&mut conn, EntryKind::Text, Some("first copy"), None, "hash1", 1).unwrap();
    let id2 = insert_entry(&mut conn, EntryKind::Text, Some("second copy"), None, "hash2", 2).unwrap();

    assert_eq!(id1, 1);
    assert_eq!(id2, 2);

    let entries = get_entries(&conn, None);
    assert_eq!(entries.len(), 2);
    // Order is descending created_at, so second copy first
    assert_eq!(entries[0].text_content.as_deref(), Some("second copy"));
    assert_eq!(entries[1].text_content.as_deref(), Some("first copy"));
}

#[test]
fn test_deduplication_moves_to_top() {
    let mut conn = setup_in_memory_db();

    insert_entry(&mut conn, EntryKind::Text, Some("item 1"), None, "hash1", 1).unwrap();
    insert_entry(&mut conn, EntryKind::Text, Some("item 2"), None, "hash2", 2).unwrap();

    // Re-inserting item 1 should update its timestamp and bring it to top
    let id = insert_entry(&mut conn, EntryKind::Text, Some("item 1"), None, "hash1", 3).unwrap();
    assert_eq!(id, 1); // ID should remain 1

    let entries = get_entries(&conn, None);
    assert_eq!(entries.len(), 2);
    assert_eq!(entries[0].text_content.as_deref(), Some("item 1"));
    assert_eq!(entries[1].text_content.as_deref(), Some("item 2"));
}

#[test]
fn test_search_entries() {
    let mut conn = setup_in_memory_db();

    insert_entry(&mut conn, EntryKind::Text, Some("apple pie"), None, "hash1", 1).unwrap();
    insert_entry(&mut conn, EntryKind::Text, Some("banana split"), None, "hash2", 2).unwrap();
    insert_entry(&mut conn, EntryKind::Text, Some("pineapple juice"), None, "hash3", 3).unwrap();

    let entries = get_entries(&conn, Some("apple"));
    assert_eq!(entries.len(), 2); // apple pie, pineapple juice

    let no_match = get_entries(&conn, Some("grape"));
    assert_eq!(no_match.len(), 0);
}

#[test]
fn test_pin_and_sorting() {
    let mut conn = setup_in_memory_db();

    let id1 = insert_entry(&mut conn, EntryKind::Text, Some("item 1"), None, "hash1", 1).unwrap();
    let _id2 = insert_entry(&mut conn, EntryKind::Text, Some("item 2"), None, "hash2", 2).unwrap();

    // Pin item 1
    toggle_pin_entry(&mut conn, id1);

    let entries = get_entries(&conn, None);
    assert_eq!(entries[0].text_content.as_deref(), Some("item 1")); // pinned should be first
    assert!(entries[0].pinned);
    assert!(!entries[1].pinned);
}

#[test]
fn test_prune_entries() {
    let mut conn = setup_in_memory_db();

    let id1 = insert_entry(&mut conn, EntryKind::Text, Some("item 1"), None, "hash1", 1).unwrap();
    let _id2 = insert_entry(&mut conn, EntryKind::Text, Some("item 2"), None, "hash2", 2).unwrap();
    let id3 = insert_entry(&mut conn, EntryKind::Text, Some("item 3"), None, "hash3", 3).unwrap();

    // Pin item 1 (so it won't be pruned)
    toggle_pin_entry(&mut conn, id1);

    // Prune keeping max 1 unpinned
    prune_entries(&mut conn, 1);

    let entries = get_entries(&conn, None);
    assert_eq!(entries.len(), 2); // pinned item 1, plus newest unpinned (item 3)
    assert_eq!(entries[0].id, id1);
    assert_eq!(entries[1].id, id3);
}

#[test]
fn test_clear_unpinned_entries() {
    let mut conn = setup_in_memory_db();

    let id1 = insert_entry(&mut conn, EntryKind::Text, Some("item 1"), None, "hash1", 1).unwrap();
    let _id2 = insert_entry(&mut conn, EntryKind::Text, Some("item 2"), None, "hash2", 2).unwrap();

    // Pin item 1
    toggle_pin_entry(&mut conn, id1);

    // Clear all unpinned
    clear_unpinned_entries(&mut conn);

    let entries = get_entries(&conn, None);
    assert_eq!(entries.len(), 1);
    assert_eq!(entries[0].id, id1);
    assert_eq!(entries[0].text_content.as_deref(), Some("item 1"));
}
