use vstd::prelude::*;

use crate::text::str_eq;

verus! {

/// What a history entry holds: a piece of text or an image stored on disk.
#[derive(Debug, Clone, Copy, PartialEq, Eq, Structural)]
pub enum EntryKind {
    Text,
    Image,
}

/// The name under which a kind is stored.
pub open spec fn kind_name(kind: EntryKind) -> Seq<char> {
    match kind {
        EntryKind::Text => "text"@,
        EntryKind::Image => "image"@,
    }
}

/// The kind stored under a name, if any.
pub open spec fn kind_from_name(s: Seq<char>) -> Option<EntryKind> {
    if s == "text"@ {
        Some(EntryKind::Text)
    } else if s == "image"@ {
        Some(EntryKind::Image)
    } else {
        None
    }
}

impl EntryKind {
    /// The name under which this kind is stored.
    pub fn as_str(&self) -> (res: &'static str)
        ensures
            res@ == kind_name(*self),
    {
        match self {
            EntryKind::Text => "text",
            EntryKind::Image => "image",
        }
    }

    /// Reads a stored kind name back; any other name gives `None`.
    pub fn from_str(s: &str) -> (res: Option<Self>)
        ensures
            res == kind_from_name(s@),
    {
        if str_eq(s, "text") {
            Some(EntryKind::Text)
        } else if str_eq(s, "image") {
            Some(EntryKind::Image)
        } else {
            None
        }
    }
}

/// One row of the clipboard history.
///
/// `created_at` is the time of the last copy of this content, in microseconds
/// since the Unix epoch.
#[derive(Debug, Clone)]
pub struct ClipboardEntry {
    pub id: i64,
    pub kind: EntryKind,
    pub text_content: Option<String>,
    pub image_path: Option<String>,
    pub pinned: bool,
    pub created_at: i64,
    pub content_hash: String,
}

/// The mathematical value of a history entry.
pub struct EntryView {
    pub id: int,
    pub kind: EntryKind,
    pub text_content: Option<Seq<char>>,
    pub image_path: Option<Seq<char>>,
    pub pinned: bool,
    pub created_at: int,
    pub content_hash: Seq<char>,
}

impl View for ClipboardEntry {
    type V = EntryView;

    open spec fn view(&self) -> EntryView {
        EntryView {
            id: self.id as int,
            kind: self.kind,
            text_content: self.text_content.deep_view(),
            image_path: self.image_path.deep_view(),
            pinned: self.pinned,
            created_at: self.created_at as int,
            content_hash: self.content_hash@,
        }
    }
}

/// The values of a sequence of entries.
pub open spec fn entry_views(s: Seq<ClipboardEntry>) -> Seq<EntryView> {
    s.map_values(|e: ClipboardEntry| e@)
}

pub(crate) fn clone_opt_string(o: &Option<String>) -> (res: Option<String>)
    ensures
        res.deep_view() == o.deep_view(),
{
    match o {
        Some(s) => Some(s.clone()),
        None => None,
    }
}

impl ClipboardEntry {
    /// A copy of this entry with the same value.
    pub(crate) fn duplicate(&self) -> (res: ClipboardEntry)
        ensures
            res@ == self@,
    {
        ClipboardEntry {
            id: self.id,
            kind: self.kind,
            text_content: clone_opt_string(&self.text_content),
            image_path: clone_opt_string(&self.image_path),
            pinned: self.pinned,
            created_at: self.created_at,
            content_hash: self.content_hash.clone(),
        }
    }
}

} // verus!
