//! The clipboard watcher's decisions: which clipboard contents are new and
//! must be recorded.
use vstd::prelude::*;

use crate::hashing::{compute_image_hash, compute_text_hash, hex_lower, image_hash_input, sha256_spec};
use crate::text::{is_blank, trim};
use vstd::string::StringSliceAdditionalSpecFns;

verus! {

/// Whether `len` bytes hold an RGBA image of `width` by `height` pixels
/// (four bytes a pixel) whose sides fit in a `u32`, as the PNG encoder needs.
pub fn image_bytes_fit(width: usize, height: usize, len: usize) -> (res: bool)
    ensures
        res == (width <= u32::MAX && height <= u32::MAX && 4 * width * height <= len),
{
    if width > 4294967295 || height > 4294967295 {
        return false;
    }
    if width == 0 || height == 0 {
        assert(4 * width * height == 0) by (nonlinear_arith)
            requires
                width == 0 || height == 0,
        ;
        return true;
    }
    match 4usize.checked_mul(width) {
        Some(a) => match a.checked_mul(height) {
            Some(b) => b <= len,
            None => {
                assert(4 * width * height > usize::MAX) by (nonlinear_arith)
                    requires
                        a == 4 * width,
                        a * height > usize::MAX,
                ;
                false
            },
        },
        None => {
            assert(4 * width * height > usize::MAX) by (nonlinear_arith)
                requires
                    4 * width > usize::MAX,
                    height >= 1,
            ;
            false
        },
    }
}

/// What the watcher last recorded or saw recorded: a content hash and the
/// time of that copy (microseconds since the Unix epoch).
pub struct PollerState {
    pub last_seen_hash: String,
    pub last_seen_time: i64,
}

/// What to do with the text on the clipboard.
pub enum TextAction {
    /// No text, or only white space: look at the clipboard's image instead.
    CheckImage,
    /// The same content as last seen: nothing to do.
    Unchanged,
    /// New text, to be recorded under this hash.
    Record(String),
}

impl PollerState {
    /// The state when the watcher starts at time `now`: the newest stored
    /// entry's hash and time when there is one, otherwise no hash and `now`.
    pub fn starting(latest: Option<(String, i64)>, now: i64) -> (res: PollerState)
        ensures
            match latest {
                Some((h, t)) => res.last_seen_hash@ == h@ && res.last_seen_time == t,
                None => res.last_seen_hash@ == Seq::<char>::empty() && res.last_seen_time == now,
            },
    {
        match latest {
            Some((h, t)) => PollerState { last_seen_hash: h, last_seen_time: t },
            None => PollerState { last_seen_hash: String::new(), last_seen_time: now },
        }
    }

    /// Follows the newest stored entry when it is strictly newer than what was
    /// last seen (so that clearing the history does not bring back an older
    /// pinned entry's hash).
    pub fn sync_with_latest(&mut self, latest: Option<(String, i64)>)
        ensures
            match latest {
                Some((h, t)) => if t > old(self).last_seen_time {
                    final(self).last_seen_hash@ == h@ && final(self).last_seen_time == t
                } else {
                    final(self).last_seen_hash@ == old(self).last_seen_hash@
                        && final(self).last_seen_time == old(self).last_seen_time
                },
                None => final(self).last_seen_hash@ == old(self).last_seen_hash@
                    && final(self).last_seen_time == old(self).last_seen_time,
            },
    {
        match latest {
            Some((h, t)) => {
                if t > self.last_seen_time {
                    self.last_seen_hash = h;
                    self.last_seen_time = t;
                }
            },
            None => {},
        }
    }

    /// Decides about the text on the clipboard: blank text sends the watcher
    /// to the image; text whose hash is the one last seen is left alone; other
    /// text is recorded under its hash.
    pub fn on_text(&self, text: &str) -> (res: TextAction)
        ensures
            trim(text@).len() == 0 ==> res is CheckImage,
            trim(text@).len() != 0 ==> {
                let h = hex_lower(sha256_spec(text.spec_bytes()));
                if h == self.last_seen_hash@ {
                    res is Unchanged
                } else {
                    res matches TextAction::Record(r) && r@ == h
                }
            },
    {
        if is_blank(text) {
            return TextAction::CheckImage;
        }
        let hash = compute_text_hash(text);
        if hash == self.last_seen_hash {
            TextAction::Unchanged
        } else {
            TextAction::Record(hash)
        }
    }

    /// Decides about the image on the clipboard: `None` when its hash is the
    /// one last seen, otherwise the hash to record it under.
    pub fn on_image(&self, width: usize, height: usize, bytes: &[u8]) -> (res: Option<String>)
        ensures
            exists|little_endian: bool|
                {
                    let h = #[trigger] hex_lower(
                        sha256_spec(image_hash_input(width, height, bytes@, little_endian)),
                    );
                    if h == self.last_seen_hash@ {
                        res is None
                    } else {
                        res matches Some(r) && r@ == h
                    }
                },
    {
        let hash = compute_image_hash(width, height, bytes);
        if hash == self.last_seen_hash {
            None
        } else {
            Some(hash)
        }
    }

    /// Notes that content with this hash was recorded at time `now`.
    pub fn record_stored(&mut self, hash: String, now: i64)
        ensures
            final(self).last_seen_hash@ == hash@,
            final(self).last_seen_time == now,
    {
        self.last_seen_hash = hash;
        self.last_seen_time = now;
    }
}

} // verus!
