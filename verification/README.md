# Clippy history

Clippy is a clipboard history manager for GNOME. This crate holds its core,
written in Verus and proved against its contracts: the clipboard history and
its settings, searching and ordering, pinning, pruning, content hashing, the
global-shortcut bookkeeping and the decisions of the clipboard watcher.

## Layout

- `src/` — the verified library (`clippy_history`):
  - `entry.rs`: history entries and their kinds;
  - `model.rs`: the database as a mathematical value and what each
    operation does to it;
  - `store.rs`: `ClipboardDb` and its operations (recording a copy,
    listing and searching, pinning, deleting, pruning, clearing, settings);
  - `like_match.rs`: the search pattern matcher;
  - `laws.rs`: properties that hold across operations;
  - `hashing.rs`: SHA-256 content hashes in hexadecimal;
  - `clock.rs`: how an entry's age and date are shown;
  - `shortcut.rs`: recording, showing and registering the global shortcut;
  - `settings.rs`: loading and saving the settings panel;
  - `poller.rs`: what the clipboard watcher records;
  - `paths.rs`, `display.rs`, `text.rs`: file locations, window decisions,
    string helpers.
- `app/` — the GTK application around the library: windows and widgets,
  the SQLite file that stores the database, the clock, the clipboard, `gsettings`,
  and the autostart file.
- `tests/` — tests of the library.
