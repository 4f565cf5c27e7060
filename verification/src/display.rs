//! What the window shows and how it answers the command line.
use vstd::prelude::*;

use crate::text::{chars_of, str_eq, string_from_chars, string_views};

verus! {

/// The first line of a text as `str::lines` yields it: up to the first `\n`,
/// without a `\r` just before that `\n`; an empty text has no line.
pub open spec fn first_line(t: Seq<char>) -> Seq<char> {
    if exists|i: int| 0 <= i < t.len() && t[i] == '\n' {
        let i = choose|i: int|
            0 <= i < t.len() && t[i] == '\n' && forall|j: int| 0 <= j < i ==> t[j] != '\n';
        let l = t.take(i);
        if l.len() > 0 && l.last() == '\r' {
            l.drop_last()
        } else {
            l
        }
    } else {
        t
    }
}

/// The preview of a text entry: its first line, cut to 200 characters.
pub open spec fn preview(t: Seq<char>) -> Seq<char> {
    let l = first_line(t);
    if l.len() > 200 {
        l.take(200)
    } else {
        l
    }
}

/// The preview shown on a text entry's card.
pub fn preview_text(text: &str) -> (res: String)
    ensures
        res@ == preview(text@),
{
    let cs = chars_of(text);
    let n = cs.len();
    let mut i: usize = 0;
    while i < n && cs[i] != '\n'
        invariant
            i <= n,
            n == cs.len(),
            forall|j: int| 0 <= j < i ==> cs@[j] != '\n',
        decreases n - i,
    {
        i = i + 1;
    }
    let mut end = i;
    if i < n {
        proof {
            let c = choose|c: int|
                0 <= c < cs@.len() && cs@[c] == '\n' && forall|j: int| 0 <= j < c ==> cs@[j] != '\n';
            assert(cs@[i as int] == '\n');
            if c < i {
                assert(cs@[c] != '\n');
            }
            if c > i {
                assert(cs@[i as int] != '\n');
            }
            assert(c == i);
        }
        if i > 0 && cs[i - 1] == '\r' {
            end = i - 1;
        }
    }
    if end > 200 {
        end = 200;
    }
    let res = string_from_chars(&cs, 0, end);
    proof {
        if i < n {
            if i > 0 {
                assert(cs@.take(i as int).drop_last() =~= cs@.take(i - 1));
                assert(cs@.take(i as int).last() == cs@[i - 1]);
            }
        } else {
            assert(cs@.take(n as int) =~= cs@);
        }
        assert(res@ =~= preview(text@));
    }
    res
}

/// What to do with the window when the application is started (again) with
/// the given flags.
#[derive(Debug, Clone, Copy, PartialEq, Eq, Structural)]
pub enum WindowCommand {
    /// First start: build the window, then show it or keep it hidden.
    Build { show: bool },
    /// Show the window.
    Present,
    /// Hide the window.
    Hide,
    /// Close the window, which also takes it off always-on-top.
    CloseUnpinning,
    /// Leave the window as it is.
    Nothing,
}

/// The window command for a start with `--toggle` and/or `--background`:
/// the first start builds the window (shown unless in the background); later
/// starts toggle it, or show it unless in the background.
pub open spec fn window_command_spec(
    has_window: bool,
    visible: bool,
    pinned: bool,
    toggle: bool,
    background: bool,
) -> WindowCommand {
    if !has_window {
        WindowCommand::Build { show: !background }
    } else if toggle {
        if visible {
            if pinned {
                WindowCommand::CloseUnpinning
            } else {
                WindowCommand::Hide
            }
        } else {
            WindowCommand::Present
        }
    } else if !background {
        WindowCommand::Present
    } else {
        WindowCommand::Nothing
    }
}

/// Decides what a start of the application does with the window.
pub fn window_command(
    has_window: bool,
    visible: bool,
    pinned: bool,
    toggle: bool,
    background: bool,
) -> (res: WindowCommand)
    ensures
        res == window_command_spec(has_window, visible, pinned, toggle, background),
        !has_window ==> res == (WindowCommand::Build { show: !background }),
{
    if !has_window {
        WindowCommand::Build { show: !background }
    } else if toggle {
        if visible {
            if pinned {
                WindowCommand::CloseUnpinning
            } else {
                WindowCommand::Hide
            }
        } else {
            WindowCommand::Present
        }
    } else if !background {
        WindowCommand::Present
    } else {
        WindowCommand::Nothing
    }
}

/// The flags of a command line: whether `--background` (or `-b`) and
/// whether `--toggle` (or `-t`) is among the arguments.
pub open spec fn command_flags_spec(args: Seq<Seq<char>>) -> (bool, bool) {
    (
        exists|i: int| 0 <= i < args.len() && (args[i] == "--background"@ || args[i] == "-b"@),
        exists|i: int| 0 <= i < args.len() && (args[i] == "--toggle"@ || args[i] == "-t"@),
    )
}

/// Reads `--background`/`-b` and `--toggle`/`-t` from the arguments.
pub fn command_flags(args: &Vec<String>) -> (res: (bool, bool))
    ensures
        res == command_flags_spec(string_views(args@)),
{
    let ghost a = string_views(args@);
    let mut background = false;
    let mut toggle = false;
    let mut k: usize = 0;
    while k < args.len()
        invariant
            k <= args.len(),
            a == string_views(args@),
            background == exists|i: int|
                0 <= i < k && (a[i] == "--background"@ || a[i] == "-b"@),
            toggle == exists|i: int| 0 <= i < k && (a[i] == "--toggle"@ || a[i] == "-t"@),
        decreases args.len() - k,
    {
        let s = args[k].as_str();
        assert(a[k as int] == s@);
        if str_eq(s, "--background") || str_eq(s, "-b") {
            background = true;
        }
        if str_eq(s, "--toggle") || str_eq(s, "-t") {
            toggle = true;
        }
        k = k + 1;
    }
    (background, toggle)
}

/// The window-manager state change for pinning (`add,above`) or unpinning
/// (`remove,above`) the window.
pub fn pin_window_state(pinned: bool) -> (res: &'static str)
    ensures
        res@ == if pinned {
            "add,above"@
        } else {
            "remove,above"@
        },
{
    if pinned {
        "add,above"
    } else {
        "remove,above"
    }
}

} // verus!
