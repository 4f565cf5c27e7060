//! The global shortcut: recording a key combination, showing it, and
//! registering it with GNOME's custom keybindings.
use vstd::prelude::*;

use crate::model::{lemma_select_step, select};
use crate::text::{
    chars_of, contains_exec, contains_seq, join_strings, join_with, push_str, remove_all,
    remove_all_exec, string_from_chars, string_views, strip_both, strip_both_exec, strip_end,
    strip_end_exec, strip_start, strip_start_exec, trim, trim_bounds, trim_str,
};

verus! {

// ---------------------------------------------------------------------------
// Showing a shortcut

/// What `str::to_uppercase` gives for a string (Unicode upper case).
pub uninterp spec fn uppercase_spec(s: Seq<char>) -> Seq<char>;

/// `str::to_uppercase`: the string in Unicode upper case.
#[verifier::external_body]
fn to_uppercase(s: &str) -> (res: String)
    ensures
        res@ == uppercase_spec(s@),
{
    s.to_uppercase()
}

/// One modifier step: when `tag` occurs in the rest, its label is added and
/// every occurrence of `tag` is removed from the rest.
pub open spec fn take_modifier(
    st: (Seq<Seq<char>>, Seq<char>),
    tag: Seq<char>,
    label: Seq<char>,
) -> (Seq<Seq<char>>, Seq<char>) {
    if contains_seq(st.1, tag) {
        (st.0.push(label), remove_all(st.1, tag))
    } else {
        st
    }
}

/// An accelerator such as `<Super>j` split into the labels of its modifiers
/// (Super, Ctrl, Alt, Shift, in that order) and what is left: the key.
pub open spec fn accel_parts(accel: Seq<char>) -> (Seq<Seq<char>>, Seq<char>) {
    take_modifier(
        take_modifier(
            take_modifier(take_modifier((Seq::empty(), accel), "<Super>"@, "Super"@), "<Ctrl>"@,
            "Ctrl"@),
            "<Alt>"@,
            "Alt"@,
        ),
        "<Shift>"@,
        "Shift"@,
    )
}

fn take_modifier_exec(
    labels: &mut Vec<String>,
    rest: &mut Vec<char>,
    tag: &str,
    label: &str,
)
    ensures
        (string_views(final(labels)@), final(rest)@) == take_modifier(
            (string_views(old(labels)@), old(rest)@),
            tag@,
            label@,
        ),
{
    let t = chars_of(tag);
    if contains_exec(rest, &t) {
        let ghost before = labels@;
        labels.push(label.to_owned());
        assert(string_views(labels@) =~= string_views(before).push(label@));
        let r = remove_all_exec(rest, &t);
        *rest = r;
    }
}

/// The labels of an accelerator's modifiers and its remaining key text.
pub fn split_accelerator(accel: &str) -> (res: (Vec<String>, String))
    ensures
        (string_views(res.0@), res.1@) == accel_parts(accel@),
{
    let mut labels: Vec<String> = Vec::new();
    let mut rest = chars_of(accel);
    assert(string_views(labels@) =~= Seq::<Seq<char>>::empty());
    take_modifier_exec(&mut labels, &mut rest, "<Super>", "Super");
    take_modifier_exec(&mut labels, &mut rest, "<Ctrl>", "Ctrl");
    take_modifier_exec(&mut labels, &mut rest, "<Alt>", "Alt");
    take_modifier_exec(&mut labels, &mut rest, "<Shift>", "Shift");
    let n = rest.len();
    let s = string_from_chars(&rest, 0, n);
    assert(rest@.subrange(0, n as int) =~= rest@);
    (labels, s)
}

/// The parts of a shortcut label: the modifier labels, then the key when
/// there is one.
pub open spec fn label_parts(labels: Seq<Seq<char>>, key: Seq<char>) -> Seq<Seq<char>> {
    if key.len() > 0 {
        labels.push(key)
    } else {
        labels
    }
}

/// Shows modifier labels and a key as `Super + Ctrl + J`.
pub fn join_shortcut_parts(labels: Vec<String>, key: String) -> (res: String)
    ensures
        res@ == join_with(label_parts(string_views(labels@), key@), " + "@),
{
    let mut parts = labels;
    let ghost before = parts@;
    if !key.as_str().is_empty() {
        parts.push(key);
        assert(string_views(parts@) =~= string_views(before).push(key@));
    } else {
        proof {
            if key@.len() > 0 {
                assert(key@.len() > 0);
            }
        }
    }
    join_strings(&parts, " + ")
}

/// An accelerator as a person reads it: `<Super>j` becomes `Super + J`.
pub open spec fn human_shortcut(accel: Seq<char>) -> Seq<char> {
    let (labels, rest) = accel_parts(accel);
    join_with(
        label_parts(labels, if rest.len() > 0 { uppercase_spec(rest) } else { rest }),
        " + "@,
    )
}

/// Converts an accelerator to the form a person reads: `<Super>j` becomes
/// `Super + J`; the key is upper-cased as `str::to_uppercase` does.
pub fn gtk_to_human(accel: &str) -> (res: String)
    ensures
        res@ == human_shortcut(accel@),
{
    let (labels, rest) = split_accelerator(accel);
    if !rest.as_str().is_empty() {
        let key = to_uppercase(rest.as_str());
        join_shortcut_parts(labels, key)
    } else {
        proof {
            if rest@.len() > 0 {
                assert(rest@.len() > 0);
            }
        }
        join_shortcut_parts(labels, rest)
    }
}

// ---------------------------------------------------------------------------
// Recording a shortcut

/// The key of a key press: a character it types, its name, or neither.
pub enum KeyText {
    Char(char),
    Named(String),
    Unknown,
}

/// What the recorder does with a key press.
pub enum RecordOutcome {
    /// Escape: close the recorder.
    Cancel,
    /// A modifier key alone: wait for the rest of the combination.
    Ignore,
    /// No Super, Ctrl or Alt held: ask for one.
    NeedModifier,
    /// The accelerator recorded.
    Captured(String),
}

/// What `char::to_lowercase` gives for a character (Unicode lower case, one
/// or more characters).
pub uninterp spec fn lowercase_spec(c: char) -> Seq<char>;

/// `char::to_lowercase`: the lower case of `c`, collected into a string.
#[verifier::external_body]
fn char_to_lowercase(c: char) -> (res: String)
    ensures
        res@ == lowercase_spec(c),
{
    c.to_lowercase().collect()
}

/// The first character of a lower-case mapping, or the character itself
/// when the mapping is empty (`to_lowercase().next().unwrap_or(c)`).
pub open spec fn first_or(lower: Seq<char>, c: char) -> char {
    if lower.len() > 0 {
        lower[0]
    } else {
        c
    }
}

/// The accelerator for held modifiers and a key: `<Super>`, `<Ctrl>`,
/// `<Alt>`, `<Shift>` as held, in that order, then the key.
pub open spec fn accel_text(
    super_held: bool,
    ctrl: bool,
    alt: bool,
    shift: bool,
    key: Seq<char>,
) -> Seq<char> {
    (if super_held {
        "<Super>"@
    } else {
        Seq::empty()
    }) + (if ctrl {
        "<Ctrl>"@
    } else {
        Seq::empty()
    }) + (if alt {
        "<Alt>"@
    } else {
        Seq::empty()
    }) + (if shift {
        "<Shift>"@
    } else {
        Seq::empty()
    }) + key
}

/// The text a key contributes to an accelerator.
pub open spec fn key_chars(key: KeyText) -> Seq<char> {
    match key {
        KeyText::Char(c) => seq![first_or(lowercase_spec(c), c)],
        KeyText::Named(n) => n@,
        KeyText::Unknown => Seq::empty(),
    }
}

/// The text a typed character contributes: the first character of its
/// lower case (`lower`), or `c` itself when that is empty.
pub fn key_char_text(lower: &str, c: char) -> (res: String)
    ensures
        res@ == seq![first_or(lower@, c)],
{
    let cs = chars_of(lower);
    let first = if cs.len() > 0 {
        cs[0]
    } else {
        c
    };
    let mut res = String::new();
    crate::text::push_char(&mut res, first);
    assert(res@ =~= seq![first_or(lower@, c)]);
    res
}

/// The accelerator for the held modifiers and the key text.
pub fn build_accelerator(
    super_held: bool,
    ctrl: bool,
    alt: bool,
    shift: bool,
    key: &str,
) -> (res: String)
    ensures
        res@ == accel_text(super_held, ctrl, alt, shift, key@),
{
    let mut accel = String::new();
    if super_held {
        push_str(&mut accel, "<Super>");
    }
    if ctrl {
        push_str(&mut accel, "<Ctrl>");
    }
    if alt {
        push_str(&mut accel, "<Alt>");
    }
    if shift {
        push_str(&mut accel, "<Shift>");
    }
    push_str(&mut accel, key);
    assert(accel@ =~= accel_text(super_held, ctrl, alt, shift, key@));
    accel
}

/// Handles a key press in the shortcut recorder: Escape cancels, a modifier
/// key alone is let through, a combination without Super, Ctrl or Alt is
/// refused, and anything else is recorded as an accelerator.
pub fn record_key(
    escape: bool,
    bare_modifier: bool,
    super_held: bool,
    ctrl: bool,
    alt: bool,
    shift: bool,
    key: KeyText,
) -> (res: RecordOutcome)
    ensures
        escape ==> res is Cancel,
        !escape && bare_modifier ==> res is Ignore,
        !escape && !bare_modifier && !(super_held || ctrl || alt) ==> res is NeedModifier,
        !escape && !bare_modifier && (super_held || ctrl || alt) ==> (res matches RecordOutcome::Captured(
            a,
        ) && a@ == accel_text(super_held, ctrl, alt, shift, key_chars(key))),
{
    if escape {
        return RecordOutcome::Cancel;
    }
    if bare_modifier {
        return RecordOutcome::Ignore;
    }
    if !(super_held || ctrl || alt) {
        return RecordOutcome::NeedModifier;
    }
    let key_text = match key {
        KeyText::Char(c) => {
            let lower = char_to_lowercase(c);
            key_char_text(lower.as_str(), c)
        },
        KeyText::Named(n) => n,
        KeyText::Unknown => String::new(),
    };
    let accel = build_accelerator(super_held, ctrl, alt, shift, key_text.as_str());
    RecordOutcome::Captured(accel)
}

// ---------------------------------------------------------------------------
// GNOME custom keybindings

/// The settings path of this application's custom keybinding.
pub open spec fn keybinding_path() -> Seq<char> {
    "/org/gnome/settings-daemon/plugins/media-keys/custom-keybindings/clippy/"@
}

/// The settings path of this application's custom keybinding.
pub fn clippy_keybinding_path() -> (res: &'static str)
    ensures
        res@ == keybinding_path(),
{
    "/org/gnome/settings-daemon/plugins/media-keys/custom-keybindings/clippy/"
}

/// `s` split at every `c` (`str::split(c)`): one piece more than there are
/// copies of `c`.
pub open spec fn split_char(s: Seq<char>, c: char) -> Seq<Seq<char>>
    decreases s.len(),
{
    if s.len() == 0 {
        seq![Seq::empty()]
    } else {
        let r = split_char(s.drop_last(), c);
        if s.last() == c {
            r.push(Seq::empty())
        } else {
            r.update(r.len() - 1, r.last().push(s.last()))
        }
    }
}

pub proof fn lemma_split_char_nonempty(s: Seq<char>, c: char)
    ensures
        split_char(s, c).len() >= 1,
    decreases s.len(),
{
    if s.len() > 0 {
        lemma_split_char_nonempty(s.drop_last(), c);
    }
}

/// The values of a vector of character vectors.
pub open spec fn char_vec_views(v: Seq<Vec<char>>) -> Seq<Seq<char>> {
    v.map_values(|x: Vec<char>| x@)
}

fn split_char_exec(cs: &Vec<char>, c: char) -> (res: Vec<Vec<char>>)
    ensures
        char_vec_views(res@) == split_char(cs@, c),
{
    let mut pieces: Vec<Vec<char>> = Vec::new();
    let mut current: Vec<char> = Vec::new();
    let mut i: usize = 0;
    assert(cs@.take(0) =~= Seq::<char>::empty());
    assert(char_vec_views(pieces@).push(current@) =~= split_char(cs@.take(0), c));
    while i < cs.len()
        invariant
            i <= cs.len(),
            char_vec_views(pieces@).push(current@) == split_char(cs@.take(i as int), c),
        decreases cs.len() - i,
    {
        let ghost t = cs@.take(i + 1);
        proof {
            assert(t.drop_last() =~= cs@.take(i as int));
            assert(t.last() == cs@[i as int]);
            lemma_split_char_nonempty(cs@.take(i as int), c);
        }
        if cs[i] == c {
            let finished = current;
            pieces.push(finished);
            current = Vec::new();
            assert(char_vec_views(pieces@).push(current@) =~= split_char(t, c));
        } else {
            current.push(cs[i]);
            assert(char_vec_views(pieces@).push(current@) =~= split_char(t, c));
        }
        i = i + 1;
    }
    assert(cs@.take(cs.len() as int) =~= cs@);
    let ghost before = pieces@;
    pieces.push(current);
    assert(char_vec_views(pieces@) =~= char_vec_views(before).push(current@));
    pieces
}

/// One listed path cleaned up: trimmed, then stripped of single quotes, then
/// of double quotes.
pub open spec fn clean_path(p: Seq<char>) -> Seq<char> {
    strip_both(strip_both(trim(p), '\''), '"')
}

pub open spec fn nonempty_fn(s: Seq<Seq<char>>) -> spec_fn(int) -> bool {
    |k: int| s[k].len() > 0
}

/// The custom keybinding paths listed in `gsettings get` output such as
/// `['/a/', '/b/']`; `@as []` and empty output list none.
pub open spec fn keybinding_list(output: Seq<char>) -> Seq<Seq<char>> {
    let t = trim(output);
    if t == "@as []"@ || t.len() == 0 {
        Seq::empty()
    } else {
        let cleaned = split_char(strip_end(strip_start(t, '['), ']'), ',').map_values(
            |p: Seq<char>| clean_path(p),
        );
        select(cleaned, nonempty_fn(cleaned))
    }
}

/// Reads the custom keybinding paths out of `gsettings get` output.
pub fn parse_keybinding_list(output: &str) -> (res: Vec<String>)
    ensures
        string_views(res@) == keybinding_list(output@),
{
    let t = trim_str(output);
    if crate::text::str_eq(t.as_str(), "@as []") || t.as_str().is_empty() {
        let empty: Vec<String> = Vec::new();
        assert(string_views(empty@) =~= Seq::<Seq<char>>::empty());
        return empty;
    }
    let tc = chars_of(t.as_str());
    let inner = strip_end_exec(strip_start_exec(tc, '['), ']');
    let pieces = split_char_exec(&inner, ',');
    let ghost cleaned = split_char(strip_end(strip_start(t@, '['), ']'), ',').map_values(
        |p: Seq<char>| clean_path(p),
    );
    let mut res: Vec<String> = Vec::new();
    let mut k: usize = 0;
    assert(cleaned.take(0) =~= Seq::<Seq<char>>::empty());
    assert(string_views(res@) =~= Seq::<Seq<char>>::empty());
    while k < pieces.len()
        invariant
            k <= pieces.len(),
            cleaned.len() == pieces.len(),
            forall|j: int|
                0 <= j < pieces.len() ==> #[trigger] cleaned[j] == clean_path(pieces@[j]@),
            string_views(res@) == select(cleaned.take(k as int), nonempty_fn(cleaned)),
        decreases pieces.len() - k,
    {
        let (a, b) = trim_bounds(&pieces[k]);
        let n = string_from_chars(&pieces[k], a, b);
        let nc = chars_of(n.as_str());
        let p = strip_both_exec(strip_both_exec(nc, '\''), '"');
        proof {
            lemma_select_step(cleaned, nonempty_fn(cleaned), k as int);
        }
        if p.len() > 0 {
            let len = p.len();
            let ps = string_from_chars(&p, 0, len);
            assert(p@.subrange(0, len as int) =~= p@);
            let ghost before = res@;
            res.push(ps);
            assert(string_views(res@) =~= string_views(before).push(ps@));
        }
        k = k + 1;
    }
    assert(cleaned.take(pieces.len() as int) =~= cleaned);
    res
}

/// A path as `gsettings` lists it: in single quotes.
pub open spec fn quoted(p: Seq<char>) -> Seq<char> {
    seq!['\''] + p + seq!['\'']
}

/// The list value for `gsettings set`: `['/a/', '/b/']`.
pub open spec fn keybinding_list_text(paths: Seq<Seq<char>>) -> Seq<char> {
    seq!['['] + join_with(paths.map_values(|p: Seq<char>| quoted(p)), ", "@) + seq![']']
}

/// Writes paths as a `gsettings` list value.
pub fn format_keybinding_list(paths: &Vec<String>) -> (res: String)
    ensures
        res@ == keybinding_list_text(string_views(paths@)),
{
    let mut quoted_paths: Vec<String> = Vec::new();
    let mut k: usize = 0;
    let ghost target = string_views(paths@).map_values(|p: Seq<char>| quoted(p));
    assert(string_views(quoted_paths@) =~= target.take(0));
    while k < paths.len()
        invariant
            k <= paths.len(),
            target == string_views(paths@).map_values(|p: Seq<char>| quoted(p)),
            string_views(quoted_paths@) == target.take(k as int),
        decreases paths.len() - k,
    {
        let mut q = String::new();
        push_str(&mut q, "'");
        push_str(&mut q, paths[k].as_str());
        push_str(&mut q, "'");
        let ghost before = quoted_paths@;
        quoted_paths.push(q);
        proof {
            reveal_strlit("'");
            assert(q@ =~= quoted(paths@[k as int]@));
            assert(string_views(quoted_paths@) =~= string_views(before).push(q@));
            assert(target[k as int] == quoted(paths@[k as int]@));
            assert(string_views(quoted_paths@) =~= target.take(k + 1));
        }
        k = k + 1;
    }
    assert(target.take(paths.len() as int) =~= target);
    let body = join_strings(&quoted_paths, ", ");
    let mut res = String::new();
    push_str(&mut res, "[");
    push_str(&mut res, body.as_str());
    push_str(&mut res, "]");
    proof {
        reveal_strlit("[");
        reveal_strlit("]");
        assert(res@ =~= keybinding_list_text(string_views(paths@)));
    }
    res
}

/// What registering a shortcut asks of `gsettings`.
pub struct ShortcutPlan {
    /// A new value for the list of custom keybindings, when it must change.
    pub new_list: Option<String>,
    /// Whether to set the keybinding's name, command and binding.
    pub register: bool,
}

pub open spec fn is_not_path_fn(paths: Seq<Seq<char>>) -> spec_fn(int) -> bool {
    |k: int| paths[k] != keybinding_path()
}

/// The plan for binding `binding` (or, when it is blank, for removing the
/// keybinding), given the current `gsettings get` output: a blank binding
/// takes this application's path out of the list if it is there; another
/// binding adds the path if it is missing and sets the keybinding.
pub open spec fn shortcut_plan(output: Seq<char>, binding: Seq<char>) -> (Option<Seq<char>>, bool) {
    let paths = keybinding_list(output);
    let has = paths.contains(keybinding_path());
    if trim(binding).len() == 0 {
        (
            if has {
                Some(keybinding_list_text(select(paths, is_not_path_fn(paths))))
            } else {
                None
            },
            false,
        )
    } else {
        (
            if has {
                None
            } else {
                Some(keybinding_list_text(paths.push(keybinding_path())))
            },
            true,
        )
    }
}

proof fn lemma_push_contains(s: Seq<Seq<char>>, x: Seq<char>, y: Seq<char>)
    ensures
        s.push(x).contains(y) == (s.contains(y) || x == y),
{
    if s.contains(y) {
        let j = choose|j: int| 0 <= j < s.len() && s[j] == y;
        assert(s.push(x)[j] == y);
    }
    if x == y {
        assert(s.push(x)[s.len() as int] == y);
    }
    if s.push(x).contains(y) {
        let j = choose|j: int| 0 <= j < s.push(x).len() && s.push(x)[j] == y;
        if j < s.len() {
            assert(s[j] == y);
        }
    }
}

/// Plans the `gsettings` calls that bind `binding` to this application
/// (or remove its keybinding when `binding` is blank).
pub fn plan_shortcut_update(current_list: &str, binding: &str) -> (res: ShortcutPlan)
    ensures
        (res.new_list.deep_view(), res.register) == shortcut_plan(current_list@, binding@),
{
    let mut paths = parse_keybinding_list(current_list);
    let ghost pv = string_views(paths@);
    let path = clippy_keybinding_path().to_owned();
    let mut has = false;
    let mut others: Vec<String> = Vec::new();
    let mut k: usize = 0;
    assert(pv.take(0) =~= Seq::<Seq<char>>::empty());
    assert(string_views(others@) =~= Seq::<Seq<char>>::empty());
    while k < paths.len()
        invariant
            k <= paths.len(),
            pv == string_views(paths@),
            path@ == keybinding_path(),
            has == pv.take(k as int).contains(keybinding_path()),
            string_views(others@) == select(pv.take(k as int), is_not_path_fn(pv)),
        decreases paths.len() - k,
    {
        proof {
            lemma_select_step(pv, is_not_path_fn(pv), k as int);
            assert(pv.take(k + 1) =~= pv.take(k as int).push(pv[k as int]));
            lemma_push_contains(pv.take(k as int), pv[k as int], keybinding_path());
        }
        if paths[k] == path {
            has = true;
        } else {
            let ghost before = others@;
            others.push(paths[k].clone());
            assert(string_views(others@) =~= string_views(before).push(pv[k as int]));
        }
        k = k + 1;
    }
    assert(pv.take(paths.len() as int) =~= pv);
    if crate::text::is_blank(binding) {
        let new_list = if has {
            Some(format_keybinding_list(&others))
        } else {
            None
        };
        ShortcutPlan { new_list, register: false }
    } else {
        let new_list = if has {
            None
        } else {
            paths.push(path);
            assert(string_views(paths@) =~= pv.push(keybinding_path()));
            Some(format_keybinding_list(&paths))
        };
        ShortcutPlan { new_list, register: true }
    }
}

} // verus!
