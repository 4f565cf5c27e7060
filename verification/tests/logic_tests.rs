use sha2::Digest;
use clippy_history::clock::{classify_age, format_timestamp, AgeLabel};
use clippy_history::display::{command_flags, pin_window_state, preview_text, window_command, WindowCommand};
use clippy_history::entry::{ClipboardEntry, EntryKind};
use clippy_history::hashing::{compute_image_hash, compute_text_hash};
use clippy_history::like_match::like_matches;
use clippy_history::model::DbError;
use clippy_history::paths::{database_path, get_data_dir, get_images_dir, image_file_path, join_path};
use clippy_history::poller::{image_bytes_fit, PollerState, TextAction};
use clippy_history::settings::{autostart_desktop_entry, load_settings, parse_history_limit, parse_usize_exec, save_settings};
use clippy_history::shortcut::{
    format_keybinding_list, gtk_to_human, parse_keybinding_list, plan_shortcut_update, record_key,
    split_accelerator, KeyText, RecordOutcome,
};
use clippy_history::store::{
    create_schema, delete_entry, get_config_val, get_entries, insert_entry,
    newest_entry, order_by_copy, prune_entries, record_copy, set_config_val, toggle_pin_entry, ClipboardDb,
};
use clippy_history::text::{trim_str, u64_to_decimal};

fn fresh_db() -> ClipboardDb {
    let mut db = ClipboardDb::new();
    create_schema(&mut db);
    db
}

fn chars(s: &str) -> Vec<char> {
    s.chars().collect()
}

#[test]
fn kind_names_round_trip() {
    assert_eq!(EntryKind::Text.as_str(), "text");
    assert_eq!(EntryKind::Image.as_str(), "image");
    assert_eq!(EntryKind::from_str("text"), Some(EntryKind::Text));
    assert_eq!(EntryKind::from_str("image"), Some(EntryKind::Image));
    assert_eq!(EntryKind::from_str("Text"), None);
    assert_eq!(EntryKind::from_str(""), None);
}

#[test]
fn like_pattern_semantics() {
    assert!(like_matches(&chars("%apple%"), &chars("Pineapple juice")));
    assert!(like_matches(&chars("%APPLE%"), &chars("apple pie")));
    assert!(like_matches(&chars("a_c"), &chars("abc")));
    assert!(!like_matches(&chars("a_c"), &chars("ac")));
    assert!(like_matches(&chars("a%c"), &chars("ac")));
    assert!(like_matches(&chars("%"), &chars("")));
    assert!(!like_matches(&chars(""), &chars("x")));
    // only ASCII letters ignore case
    assert!(!like_matches(&chars("%é%"), &chars("É")));
}

#[test]
fn search_is_case_insensitive_and_skips_images() {
    let mut db = fresh_db();
    insert_entry(&mut db, EntryKind::Text, Some("Hello World"), None, "h1", 10).unwrap();
    insert_entry(&mut db, EntryKind::Image, None, Some("/tmp/x.png"), "h2", 20).unwrap();
    let found = get_entries(&db, Some("hello"));
    assert_eq!(found.len(), 1);
    assert_eq!(found[0].content_hash, "h1");
    // a blank query shows everything
    assert_eq!(get_entries(&db, Some("   ")).len(), 2);
    // '_' is a wildcard for one character
    assert_eq!(get_entries(&db, Some("w_rld")).len(), 1);
}

#[test]
fn listing_orders_pinned_then_newest() {
    let mut db = fresh_db();
    let a = insert_entry(&mut db, EntryKind::Text, Some("a"), None, "ha", 100).unwrap();
    let b = insert_entry(&mut db, EntryKind::Text, Some("b"), None, "hb", 300).unwrap();
    let c = insert_entry(&mut db, EntryKind::Text, Some("c"), None, "hc", 200).unwrap();
    toggle_pin_entry(&mut db, a);
    let ids: Vec<i64> = get_entries(&db, None).iter().map(|e| e.id).collect();
    assert_eq!(ids, vec![a, b, c]);
    // toggling twice restores the order
    toggle_pin_entry(&mut db, a);
    toggle_pin_entry(&mut db, a);
    let ids2: Vec<i64> = get_entries(&db, None).iter().map(|e| e.id).collect();
    assert_eq!(ids2, vec![a, b, c]);
}

#[test]
fn equal_times_list_latest_copy_first() {
    let mut db = fresh_db();
    insert_entry(&mut db, EntryKind::Text, Some("one"), None, "h1", 5).unwrap();
    insert_entry(&mut db, EntryKind::Text, Some("two"), None, "h2", 5).unwrap();
    insert_entry(&mut db, EntryKind::Text, Some("one"), None, "h1", 5).unwrap();
    let texts: Vec<String> = get_entries(&db, None)
        .iter()
        .map(|e| e.text_content.clone().unwrap())
        .collect();
    assert_eq!(texts, vec!["one".to_string(), "two".to_string()]);
}

#[test]
fn recopy_keeps_id_and_fields() {
    let mut db = fresh_db();
    let id = insert_entry(&mut db, EntryKind::Text, Some("x"), None, "hx", 1).unwrap();
    let again = insert_entry(&mut db, EntryKind::Text, Some("other text"), None, "hx", 9).unwrap();
    assert_eq!(id, again);
    let entries = get_entries(&db, None);
    assert_eq!(entries.len(), 1);
    assert_eq!(entries[0].text_content.as_deref(), Some("x"));
    assert_eq!(entries[0].created_at, 9);
    assert_eq!(db.last_id(), 1);
}

#[test]
fn ids_are_not_reused_after_delete() {
    let mut db = fresh_db();
    let a = insert_entry(&mut db, EntryKind::Text, Some("a"), None, "ha", 1).unwrap();
    let removed = delete_entry(&mut db, a).unwrap();
    assert_eq!(removed.id, a);
    assert!(delete_entry(&mut db, a).is_none());
    let b = insert_entry(&mut db, EntryKind::Text, Some("b"), None, "hb", 2).unwrap();
    assert_eq!(b, a + 1);
}

#[test]
fn history_full_is_refused() {
    let db = ClipboardDb::from_parts(Vec::new(), i64::MAX, Vec::new());
    let mut db = db.unwrap();
    let r = insert_entry(&mut db, EntryKind::Text, Some("a"), None, "ha", 1);
    assert_eq!(r, Err(DbError::HistoryFull));
    assert_eq!(get_entries(&db, None).len(), 0);
}

fn entry(id: i64, hash: &str, created_at: i64) -> ClipboardEntry {
    ClipboardEntry {
        id,
        kind: EntryKind::Text,
        text_content: Some(hash.to_string()),
        image_path: None,
        pinned: false,
        created_at,
        content_hash: hash.to_string(),
    }
}

#[test]
fn from_parts_checks_the_invariant() {
    assert!(ClipboardDb::from_parts(vec![entry(1, "a", 0), entry(2, "b", 0)], 2, Vec::new()).is_some());
    // duplicate id
    assert!(ClipboardDb::from_parts(vec![entry(1, "a", 0), entry(1, "b", 0)], 2, Vec::new()).is_none());
    // duplicate hash
    assert!(ClipboardDb::from_parts(vec![entry(1, "a", 0), entry(2, "a", 0)], 2, Vec::new()).is_none());
    // id above the last one handed out
    assert!(ClipboardDb::from_parts(vec![entry(3, "a", 0)], 2, Vec::new()).is_none());
    // duplicate setting key
    let cfg = vec![("k".to_string(), "1".to_string()), ("k".to_string(), "2".to_string())];
    assert!(ClipboardDb::from_parts(Vec::new(), 0, cfg).is_none());
}

#[test]
fn prune_keeps_newest_unpinned_and_returns_removed() {
    let mut db = fresh_db();
    for (i, h) in ["h1", "h2", "h3", "h4"].iter().enumerate() {
        insert_entry(&mut db, EntryKind::Text, Some(h), None, h, i as i64).unwrap();
    }
    toggle_pin_entry(&mut db, 1);
    let removed = prune_entries(&mut db, 2);
    let removed_ids: Vec<i64> = removed.iter().map(|e| e.id).collect();
    assert_eq!(removed_ids, vec![2]);
    let ids: Vec<i64> = get_entries(&db, None).iter().map(|e| e.id).collect();
    assert_eq!(ids, vec![1, 4, 3]);
    let removed_all = prune_entries(&mut db, 0);
    assert_eq!(removed_all.len(), 2);
    assert_eq!(get_entries(&db, None).len(), 1);
}

#[test]
fn settings_read_back_and_defaults() {
    let mut db = fresh_db();
    assert_eq!(get_config_val(&db, "history_limit").as_deref(), Some("200"));
    assert_eq!(get_config_val(&db, "shortcut").as_deref(), Some("<Super>v"));
    assert_eq!(get_config_val(&db, "autostart").as_deref(), Some("true"));
    assert_eq!(get_config_val(&db, "missing"), None);
    set_config_val(&mut db, "shortcut", "<Ctrl>k");
    assert_eq!(get_config_val(&db, "shortcut").as_deref(), Some("<Ctrl>k"));
    create_schema(&mut db);
    assert_eq!(get_config_val(&db, "shortcut").as_deref(), Some("<Ctrl>k"));
    let values = load_settings(&db);
    assert!(values.autostart);
    assert_eq!(values.shortcut, "<Ctrl>k");
    assert_eq!(values.history_limit, "200");
}

#[test]
fn save_settings_prunes_when_limit_parses() {
    let mut db = fresh_db();
    for (i, h) in ["a", "b", "c"].iter().enumerate() {
        insert_entry(&mut db, EntryKind::Text, Some(h), None, h, i as i64).unwrap();
    }
    let removed = save_settings(&mut db, false, "<Alt>v", " 1 ");
    assert_eq!(removed.len(), 2);
    assert_eq!(get_config_val(&db, "autostart").as_deref(), Some("false"));
    assert_eq!(get_config_val(&db, "history_limit").as_deref(), Some(" 1 "));
    let removed2 = save_settings(&mut db, true, "<Alt>v", "lots");
    assert_eq!(removed2.len(), 0);
    assert_eq!(get_entries(&db, None).len(), 1);
    assert!(!load_settings(&db).autostart || get_config_val(&db, "autostart").as_deref() == Some("true"));
}

#[test]
fn usize_parsing() {
    assert_eq!(parse_usize_exec("200"), Some(200));
    assert_eq!(parse_usize_exec("+7"), Some(7));
    assert_eq!(parse_usize_exec("+"), None);
    assert_eq!(parse_usize_exec(""), None);
    assert_eq!(parse_usize_exec("-1"), None);
    assert_eq!(parse_usize_exec("1a"), None);
    assert_eq!(parse_usize_exec("18446744073709551615"), Some(usize::MAX));
    assert_eq!(parse_usize_exec("18446744073709551616"), None);
    assert_eq!(parse_history_limit("  42\n"), Some(42));
}

#[test]
fn text_hash_is_sha256_hex() {
    assert_eq!(
        compute_text_hash(""),
        "e3b0c44298fc1c149afbf4c8996fb92427ae41e4649b934ca495991b7852b855"
    );
    assert_eq!(
        compute_text_hash("abc"),
        "ba7816bf8f01cfea414140de5dae2223b00361a396177a9cb410ff61f20015ad"
    );
}

#[test]
fn image_hash_covers_size_and_pixels() {
    let a = compute_image_hash(1, 2, &[1, 2, 3, 4]);
    let b = compute_image_hash(2, 1, &[1, 2, 3, 4]);
    let c = compute_image_hash(1, 2, &[1, 2, 3, 5]);
    assert_eq!(a.len(), 64);
    assert_ne!(a, b);
    assert_ne!(a, c);
    let mut data = Vec::new();
    data.extend_from_slice(&1usize.to_ne_bytes());
    data.extend_from_slice(&2usize.to_ne_bytes());
    data.extend_from_slice(&[1, 2, 3, 4]);
    let expected: String = sha2::Sha256::digest(&data).iter().map(|b| format!("{:02x}", b)).collect();
    assert_eq!(a, expected);
}

#[test]
fn human_shortcuts() {
    assert_eq!(gtk_to_human("<Super>j"), "Super + J");
    assert_eq!(gtk_to_human("<Shift><Ctrl>F5"), "Ctrl + Shift + F5");
    assert_eq!(gtk_to_human("<Super>"), "Super");
    assert_eq!(gtk_to_human(""), "");
    assert_eq!(gtk_to_human("<Alt><Alt>x"), "Alt + X");
    let (labels, rest) = split_accelerator("<Ctrl><Alt>delete");
    assert_eq!(labels, vec!["Ctrl".to_string(), "Alt".to_string()]);
    assert_eq!(rest, "delete");
}

#[test]
fn recording_keys() {
    assert!(matches!(record_key(true, false, true, false, false, false, KeyText::Char('j')), RecordOutcome::Cancel));
    assert!(matches!(record_key(false, true, true, false, false, false, KeyText::Unknown), RecordOutcome::Ignore));
    assert!(matches!(
        record_key(false, false, false, false, false, true, KeyText::Char('j')),
        RecordOutcome::NeedModifier
    ));
    match record_key(false, false, true, false, false, true, KeyText::Char('J')) {
        RecordOutcome::Captured(a) => assert_eq!(a, "<Super><Shift>j"),
        _ => panic!("expected a captured accelerator"),
    }
    match record_key(false, false, false, true, true, false, KeyText::Named("F5".to_string())) {
        RecordOutcome::Captured(a) => assert_eq!(gtk_to_human(&a), "Ctrl + Alt + F5"),
        _ => panic!("expected a captured accelerator"),
    }
}

const CLIPPY: &str = "/org/gnome/settings-daemon/plugins/media-keys/custom-keybindings/clippy/";

#[test]
fn keybinding_lists() {
    assert!(parse_keybinding_list("@as []\n").is_empty());
    assert!(parse_keybinding_list("").is_empty());
    assert_eq!(
        parse_keybinding_list("['/a/', '/b/']\n"),
        vec!["/a/".to_string(), "/b/".to_string()]
    );
    assert_eq!(parse_keybinding_list("[\"/a/\",,]"), vec!["/a/".to_string()]);
    assert_eq!(
        format_keybinding_list(&vec!["/a/".to_string(), "/b/".to_string()]),
        "['/a/', '/b/']"
    );
    assert_eq!(format_keybinding_list(&Vec::new()), "[]");
}

#[test]
fn shortcut_plans() {
    let p = plan_shortcut_update("@as []", "<Super>j");
    assert_eq!(p.new_list, Some(format!("['{}']", CLIPPY)));
    assert!(p.register);
    let listed = format!("['/a/', '{}']", CLIPPY);
    let p2 = plan_shortcut_update(&listed, "<Super>j");
    assert_eq!(p2.new_list, None);
    assert!(p2.register);
    let p3 = plan_shortcut_update(&listed, "  ");
    assert_eq!(p3.new_list, Some("['/a/']".to_string()));
    assert!(!p3.register);
    let p4 = plan_shortcut_update("['/a/']", "");
    assert_eq!(p4.new_list, None);
    assert!(!p4.register);
}

#[test]
fn ages() {
    let min = 60_000_000i64;
    assert_eq!(classify_age(0, 59_999_999), AgeLabel::JustNow);
    assert_eq!(classify_age(100, 0), AgeLabel::JustNow);
    assert_eq!(classify_age(0, min), AgeLabel::MinutesAgo(1));
    assert_eq!(classify_age(0, 59 * min + 1), AgeLabel::MinutesAgo(59));
    assert_eq!(classify_age(0, 60 * min), AgeLabel::HoursAgo(1));
    assert_eq!(classify_age(0, 24 * 60 * min), AgeLabel::Date);
    assert_eq!(format_timestamp(0, 5 * min).as_deref(), Some("5m ago"));
    assert_eq!(format_timestamp(0, 3 * 60 * min).as_deref(), Some("3h ago"));
    assert_eq!(format_timestamp(0, 30 * min - 1).as_deref(), Some("29m ago"));
    assert_eq!(format_timestamp(0, 10).as_deref(), Some("Just now"));
    // 2021-01-01T00:00:00Z seen two days later
    let t = 1_609_459_200_000_000i64;
    assert_eq!(format_timestamp(t, t + 2 * 24 * 60 * min).as_deref(), Some("Jan 01, 00:00"));
}

#[test]
fn decimals_and_trim() {
    assert_eq!(u64_to_decimal(0), "0");
    assert_eq!(u64_to_decimal(1234567890), "1234567890");
    assert_eq!(u64_to_decimal(u64::MAX), u64::MAX.to_string());
    assert_eq!(trim_str("\u{3000} a b \t\n"), "a b");
    assert_eq!(trim_str("   "), "");
}

#[test]
fn paths_join_like_std() {
    assert_eq!(join_path("/home/u", "images"), "/home/u/images");
    assert_eq!(join_path("/home/u/", "images"), "/home/u/images");
    assert_eq!(join_path("", "images"), "images");
    assert_eq!(join_path("/home/u", "/abs"), "/abs");
    assert_eq!(get_images_dir("/data/clippy"), "/data/clippy/images");
    assert_eq!(database_path("/data/clippy"), "/data/clippy/clippy.db");
    assert_eq!(image_file_path("/d/images", "abc"), "/d/images/abc.png");
    assert_eq!(get_data_dir(Some("/home/u/.local/share"), Some("/home/u")), "/home/u/.local/share/clippy");
    assert_eq!(get_data_dir(Some("/x/y"), Some("/home/u")), "/x/y/clippy");
    assert_eq!(get_data_dir(None, Some("/home/u")), "/home/u/.local/share/clippy");
    assert_eq!(get_data_dir(None, None), "./.local/share/clippy");
}

#[test]
fn previews() {
    assert_eq!(preview_text("first\nsecond"), "first");
    assert_eq!(preview_text("dos\r\nline"), "dos");
    assert_eq!(preview_text("ends with cr\r"), "ends with cr\r");
    assert_eq!(preview_text(""), "");
    let long: String = std::iter::repeat('x').take(300).collect();
    assert_eq!(preview_text(&long).chars().count(), 200);
    let expected: String = "x".repeat(3).lines().take(1).collect::<Vec<_>>().join("\n");
    assert_eq!(preview_text("xxx"), expected);
}

#[test]
fn window_commands_and_flags() {
    assert_eq!(window_command(false, false, false, false, true), WindowCommand::Build { show: false });
    assert_eq!(window_command(false, false, false, false, false), WindowCommand::Build { show: true });
    assert_eq!(window_command(true, true, true, true, false), WindowCommand::CloseUnpinning);
    assert_eq!(window_command(true, true, false, true, false), WindowCommand::Hide);
    assert_eq!(window_command(true, false, false, true, false), WindowCommand::Present);
    assert_eq!(window_command(true, true, false, false, false), WindowCommand::Present);
    assert_eq!(window_command(true, true, false, false, true), WindowCommand::Nothing);
    let args = vec!["clippy".to_string(), "-b".to_string(), "--toggle".to_string()];
    assert_eq!(command_flags(&args), (true, true));
    assert_eq!(command_flags(&vec!["clippy".to_string()]), (false, false));
    assert_eq!(pin_window_state(true), "add,above");
    assert_eq!(pin_window_state(false), "remove,above");
}

#[test]
fn autostart_entry_text() {
    let text = autostart_desktop_entry("/home/u");
    assert!(text.starts_with("[Desktop Entry]\nVersion=1.0\n"));
    assert!(text.contains("Exec=/home/u/.local/bin/clippy --background\n"));
    assert!(text.ends_with("StartupWMClass=org.gnome.Clippy\n"));
}

#[test]
fn poller_decisions() {
    let mut st = PollerState::starting(None, 50);
    assert_eq!(st.last_seen_hash, "");
    assert_eq!(st.last_seen_time, 50);
    assert!(matches!(st.on_text("  \n"), TextAction::CheckImage));
    let h = match st.on_text("hello") {
        TextAction::Record(h) => h,
        _ => panic!("new text must be recorded"),
    };
    assert_eq!(h, compute_text_hash("hello"));
    st.record_stored(h.clone(), 60);
    assert_eq!(st.last_seen_time, 60);
    assert!(matches!(st.on_text("hello"), TextAction::Unchanged));
    st.sync_with_latest(Some(("older".to_string(), 55)));
    assert_eq!(st.last_seen_hash, h);
    st.sync_with_latest(Some(("newer".to_string(), 70)));
    assert_eq!(st.last_seen_hash, "newer");
    assert_eq!(st.last_seen_time, 70);
    let img = st.on_image(1, 1, &[0, 0, 0, 0]).unwrap();
    st.record_stored(img.clone(), 80);
    assert_eq!(st.on_image(1, 1, &[0, 0, 0, 0]), None);
}

#[test]
fn newest_and_record_copy() {
    let mut db = fresh_db();
    assert!(newest_entry(&db).is_none());
    insert_entry(&mut db, EntryKind::Text, Some("a"), None, "ha", 30).unwrap();
    let b = insert_entry(&mut db, EntryKind::Text, Some("b"), None, "hb", 40).unwrap();
    toggle_pin_entry(&mut db, b);
    insert_entry(&mut db, EntryKind::Text, Some("c"), None, "hc", 35).unwrap();
    assert_eq!(newest_entry(&db).unwrap().id, b);
    set_config_val(&mut db, "history_limit", "1");
    let (id, removed) = record_copy(&mut db, EntryKind::Text, Some("d"), None, "hd", 50).unwrap();
    assert_eq!(id, 4);
    assert_eq!(removed.len(), 2);
    let ids: Vec<i64> = get_entries(&db, None).iter().map(|e| e.id).collect();
    assert_eq!(ids, vec![b, 4]);
    assert!(insert_entry(&mut db, EntryKind::Text, Some("e"), None, "he", 60).is_ok());
}

#[test]
fn keybinding_list_round_trip() {
    let paths = vec![
        "/org/gnome/settings-daemon/plugins/media-keys/custom-keybindings/custom0/".to_string(),
        CLIPPY.to_string(),
    ];
    assert_eq!(parse_keybinding_list(&format_keybinding_list(&paths)), paths);
    assert!(parse_keybinding_list(&format_keybinding_list(&Vec::new())).is_empty());
}

#[test]
fn dates_older_than_a_day() {
    let day = 86_400_000_000i64;
    let cases = [
        (1_709_210_040_000_000i64, "Feb 29, 12:34"),
        (951_868_859_000_000, "Mar 01, 00:00"),
        (-60_000_000, "Dec 31, 23:59"),
        (-2_203_952_100_000_000, "Feb 28, 07:05"),
        (4_133_980_740_000_000, "Dec 31, 23:59"),
    ];
    for (t, text) in cases {
        assert_eq!(format_timestamp(t, t + 2 * day).as_deref(), Some(text));
    }
    assert_eq!(format_timestamp(0, day - 1).as_deref(), Some("23h ago"));
}

#[test]
fn record_copy_prunes_to_the_configured_limit() {
    let mut db = fresh_db();
    for i in 0..5i64 {
        let h = format!("h{}", i);
        insert_entry(&mut db, EntryKind::Text, Some(&h), None, &h, i).unwrap();
    }
    set_config_val(&mut db, "history_limit", " 3 ");
    let (_, removed) = record_copy(&mut db, EntryKind::Text, Some("new"), None, "hn", 10).unwrap();
    assert_eq!(removed.len(), 3);
    assert_eq!(get_entries(&db, None).len(), 3);
    // a limit that does not read as a number counts as the default of 200
    set_config_val(&mut db, "history_limit", "many");
    let (_, removed) = record_copy(&mut db, EntryKind::Text, Some("more"), None, "hm", 11).unwrap();
    assert!(removed.is_empty());
    assert_eq!(get_entries(&db, None).len(), 4);
}

#[test]
fn pruning_again_removes_nothing() {
    let mut db = fresh_db();
    for i in 0..6i64 {
        let h = format!("p{}", i);
        insert_entry(&mut db, EntryKind::Text, Some(&h), None, &h, i).unwrap();
    }
    toggle_pin_entry(&mut db, 2);
    let first = prune_entries(&mut db, 2);
    assert_eq!(first.len(), 3);
    let before: Vec<i64> = get_entries(&db, None).iter().map(|e| e.id).collect();
    assert!(prune_entries(&mut db, 2).is_empty());
    assert!(prune_entries(&mut db, 5).is_empty());
    let after: Vec<i64> = get_entries(&db, None).iter().map(|e| e.id).collect();
    assert_eq!(before, after);
}

#[test]
fn default_shortcut_is_super_v() {
    let db = ClipboardDb::new();
    assert_eq!(load_settings(&db).shortcut, "<Super>v");
    assert_eq!(load_settings(&db).history_limit, "200");
}

#[test]
fn rows_are_put_in_copy_order() {
    let rows = vec![entry(3, "c", 20), entry(1, "a", 10), entry(4, "d", 20), entry(2, "b", 5)];
    let ordered: Vec<i64> = order_by_copy(rows).iter().map(|e| e.id).collect();
    assert_eq!(ordered, vec![2, 1, 3, 4]);
    assert!(order_by_copy(Vec::new()).is_empty());
}

#[test]
fn image_byte_counts() {
    assert!(image_bytes_fit(2, 3, 24));
    assert!(image_bytes_fit(2, 3, 25));
    assert!(!image_bytes_fit(2, 3, 23));
    assert!(image_bytes_fit(0, 7, 0));
    assert!(!image_bytes_fit(1usize << 33, 1, usize::MAX));
    assert!(!image_bytes_fit(usize::MAX / 4, 8, usize::MAX));
}
