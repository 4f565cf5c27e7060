//! The settings panel: reading and saving settings, and the autostart entry.
use vstd::prelude::*;

use crate::entry::{entry_views, ClipboardEntry};
use crate::model::{prune_drop_fn, prune_keep_fn, select};
use crate::store::{config_get, get_config_val, prune_entries, set_config_val, ClipboardDb};
use crate::text::{chars_of, contains_seq, push_str, str_eq, trim};

verus! {

/// Whether a character is an ASCII decimal digit.
pub open spec fn is_digit(c: char) -> bool {
    '0' <= c && c <= '9'
}

/// Whether every character is a decimal digit.
pub open spec fn all_digits(s: Seq<char>) -> bool {
    forall|i: int| 0 <= i < s.len() ==> is_digit(#[trigger] s[i])
}

/// The value of a string of decimal digits.
pub open spec fn digits_value(s: Seq<char>) -> nat
    decreases s.len(),
{
    if s.len() == 0 {
        0
    } else {
        digits_value(s.drop_last()) * 10 + (s.last() as nat - 48) as nat
    }
}

/// What `str::parse::<usize>` gives: an optional `+`, then one or more
/// decimal digits whose value fits in a `usize`; anything else is refused.
pub open spec fn parse_usize(s: Seq<char>) -> Option<nat> {
    let d = if s.len() > 0 && s[0] == '+' {
        s.drop_first()
    } else {
        s
    };
    if d.len() == 0 || !all_digits(d) {
        None
    } else if digits_value(d) > usize::MAX {
        None
    } else {
        Some(digits_value(d))
    }
}

proof fn lemma_digits_value_monotone(s: Seq<char>, i: int)
    requires
        0 <= i <= s.len(),
        forall|k: int| 0 <= k < s.len() ==> is_digit(#[trigger] s[k]),
    ensures
        digits_value(s.take(i)) <= digits_value(s),
    decreases s.len() - i,
{
    if i < s.len() {
        assert(s.drop_last().take(i) =~= s.take(i));
        lemma_digits_value_monotone(s.drop_last(), i);
        assert(digits_value(s) >= digits_value(s.drop_last()));
    } else {
        assert(s.take(i) =~= s);
    }
}

/// Parses a decimal `usize` as `str::parse::<usize>` does.
pub fn parse_usize_exec(s: &str) -> (res: Option<usize>)
    ensures
        match res {
            Some(n) => parse_usize(s@) == Some(n as nat),
            None => parse_usize(s@) is None,
        },
{
    let cs = chars_of(s);
    let ghost d = if s@.len() > 0 && s@[0] == '+' {
        s@.drop_first()
    } else {
        s@
    };
    let start: usize = if cs.len() > 0 && cs[0] == '+' {
        1
    } else {
        0
    };
    assert(d =~= cs@.skip(start as int));
    if start >= cs.len() {
        return None;
    }
    let mut value: usize = 0;
    let mut i = start;
    while i < cs.len()
        invariant
            start <= i <= cs.len(),
            cs@ == s@,
            d == cs@.skip(start as int),
            d == (if s@.len() > 0 && s@[0] == '+' {
                s@.drop_first()
            } else {
                s@
            }),
            d.len() > 0,
            forall|k: int| 0 <= k < i - start ==> is_digit(#[trigger] d[k]),
            value as nat == digits_value(d.take(i - start)),
        decreases cs.len() - i,
    {
        let c = cs[i];
        if !('0' <= c && c <= '9') {
            assert(!is_digit(d[i - start]));
            assert(!all_digits(d));
            assert(parse_usize(s@) is None);
            return None;
        }
        let digit = (c as u32 - 48) as usize;
        proof {
            let t = d.take(i - start + 1);
            assert(t.drop_last() =~= d.take(i - start));
            assert(t.last() == c);
        }
        proof {
            assert forall|k: int| 0 <= k < i - start + 1 implies is_digit(#[trigger] d[k]) by {
                if k == i - start {
                    assert(d[k] == c);
                }
            }
        }
        let m = value.checked_mul(10);
        let next = match m {
            None => None,
            Some(v10) => v10.checked_add(digit),
        };
        match next {
            None => {
                proof {
                    assert(digits_value(d.take(i - start + 1)) > usize::MAX);
                    if all_digits(d) {
                        lemma_digits_value_monotone(d, i - start + 1);
                        assert(digits_value(d) > usize::MAX);
                    }
                    assert(parse_usize(s@) is None);
                }
                return None;
            },
            Some(v) => {
                value = v;
            },
        }
        i = i + 1;
    }
    assert(d.take(i - start) =~= d);
    Some(value)
}


/// The history limit typed in the settings panel: the text trimmed, then
/// parsed as a `usize`.
pub fn parse_history_limit(text: &str) -> (res: Option<usize>)
    ensures
        match res {
            Some(n) => parse_usize(trim(text@)) == Some(n as nat),
            None => parse_usize(trim(text@)) is None,
        },
{
    let t = crate::text::trim_str(text);
    parse_usize_exec(t.as_str())
}

/// The stored value of a setting, or its default when it is not set.
pub open spec fn value_or(
    config: Map<Seq<char>, Seq<char>>,
    key: Seq<char>,
    default: Seq<char>,
) -> Seq<char> {
    match config_get(config, key) {
        Some(v) => v,
        None => default,
    }
}

/// The settings as the panel shows them.
pub struct SettingsValues {
    pub autostart: bool,
    pub shortcut: String,
    pub history_limit: String,
}

fn config_or(db: &ClipboardDb, key: &str, default: &str) -> (res: String)
    requires
        db.wf(),
    ensures
        res@ == value_or(db@.config, key@, default@),
{
    match get_config_val(db, key) {
        Some(v) => v,
        None => default.to_owned(),
    }
}

/// The settings to show: autostart (on unless stored as something other
/// than `true`), the shortcut (default `<Super>v`) and the history limit as
/// text (default `200`).
pub fn load_settings(db: &ClipboardDb) -> (res: SettingsValues)
    requires
        db.wf(),
    ensures
        res.autostart == (value_or(db@.config, "autostart"@, "true"@) == "true"@),
        res.shortcut@ == value_or(db@.config, "shortcut"@, "<Super>v"@),
        res.history_limit@ == value_or(db@.config, "history_limit"@, "200"@),
{
    let autostart = config_or(db, "autostart", "true");
    let shortcut = config_or(db, "shortcut", "<Super>v");
    let history_limit = config_or(db, "history_limit", "200");
    SettingsValues { autostart: str_eq(autostart.as_str(), "true"), shortcut, history_limit }
}

/// The history limit in force: the stored `history_limit` (`200` when it is
/// not set), trimmed and read as a number; 200 when it does not read as one.
pub open spec fn history_limit_setting(config: Map<Seq<char>, Seq<char>>) -> nat {
    match parse_usize(trim(value_or(config, "history_limit"@, "200"@))) {
        Some(n) => n,
        None => 200,
    }
}

/// The history limit in force (see `history_limit_setting`).
pub fn configured_history_limit(db: &ClipboardDb) -> (res: usize)
    requires
        db.wf(),
    ensures
        res as nat == history_limit_setting(db@.config),
{
    let text = config_or(db, "history_limit", "200");
    match parse_history_limit(text.as_str()) {
        Some(n) => n,
        None => 200,
    }
}

/// The stored form of the autostart switch.
pub open spec fn bool_text(b: bool) -> Seq<char> {
    if b {
        "true"@
    } else {
        "false"@
    }
}

/// The settings after saving the panel.
pub open spec fn saved_config(
    config: Map<Seq<char>, Seq<char>>,
    autostart: bool,
    shortcut: Seq<char>,
    history_limit: Seq<char>,
) -> Map<Seq<char>, Seq<char>> {
    config.insert("autostart"@, bool_text(autostart)).insert("shortcut"@, shortcut).insert(
        "history_limit"@,
        history_limit,
    )
}

/// Saves the settings panel: stores the three settings as given and, when
/// the history limit reads as a number, prunes the unpinned entries to it.
/// Returns the entries pruned.
pub fn save_settings(
    db: &mut ClipboardDb,
    autostart: bool,
    shortcut: &str,
    history_limit: &str,
) -> (removed: Vec<ClipboardEntry>)
    requires
        old(db).wf(),
    ensures
        final(db).wf(),
        final(db)@.last_id == old(db)@.last_id,
        final(db)@.config == saved_config(
            old(db)@.config,
            autostart,
            shortcut@,
            history_limit@,
        ),
        match parse_usize(trim(history_limit@)) {
            Some(n) => final(db)@.entries == select(old(db)@.entries, prune_keep_fn(old(db)@.entries, n as int))
                && entry_views(removed@) == select(
                old(db)@.entries,
                prune_drop_fn(old(db)@.entries, n as int),
            ),
            None => final(db)@.entries == old(db)@.entries && removed@.len() == 0,
        },
{
    let flag = if autostart {
        "true"
    } else {
        "false"
    };
    set_config_val(db, "autostart", flag);
    set_config_val(db, "shortcut", shortcut);
    set_config_val(db, "history_limit", history_limit);
    match parse_history_limit(history_limit) {
        Some(n) => prune_entries(db, n),
        None => Vec::new(),
    }
}

/// The autostart desktop entry, starting `$HOME/.local/bin/clippy` in the
/// background at login.
pub open spec fn desktop_entry_text(home: Seq<char>) -> Seq<char> {
    "[Desktop Entry]\nVersion=1.0\nType=Application\nName=Clippy\nComment=A native clipboard manager for GNOME/Linux\nExec="@
        + home + "/.local/bin/clippy --background\nIcon=clippy\nTerminal=false\nHidden=false\nNoDisplay=false\nX-GNOME-Autostart-enabled=true\nStartupWMClass=org.gnome.Clippy\n"@
}

/// The content of the autostart desktop entry for the given home directory.
pub fn autostart_desktop_entry(home: &str) -> (res: String)
    ensures
        res@ == desktop_entry_text(home@),
        contains_seq(res@, "\nX-GNOME-Autostart-enabled=true\n"@),
        contains_seq(res@, "\nHidden=false\n"@),
        contains_seq(res@, "\nExec="@ + home@ + "/.local/bin/clippy --background\n"@),
{
    proof {
        crate::laws::law_autostart_entry_is_enabled(home@);
    }
    let mut res = String::new();
    push_str(
        &mut res,
        "[Desktop Entry]\nVersion=1.0\nType=Application\nName=Clippy\nComment=A native clipboard manager for GNOME/Linux\nExec=",
    );
    push_str(&mut res, home);
    push_str(
        &mut res,
        "/.local/bin/clippy --background\nIcon=clippy\nTerminal=false\nHidden=false\nNoDisplay=false\nX-GNOME-Autostart-enabled=true\nStartupWMClass=org.gnome.Clippy\n",
    );
    res
}

} // verus!
