//! Where the application keeps its files.
use vstd::prelude::*;

use crate::text::{chars_of, push_chars, push_str};

verus! {

/// `base` joined with the relative path `part` as `Path::join` does on Unix:
/// a `/` goes between them unless `base` is empty or already ends in `/`;
/// an absolute `part` (starting with `/`) replaces `base`.
pub open spec fn path_join(base: Seq<char>, part: Seq<char>) -> Seq<char> {
    if part.len() > 0 && part[0] == '/' {
        part
    } else if base.len() == 0 || base.last() == '/' {
        base + part
    } else {
        base + seq!['/'] + part
    }
}

/// Joins two paths as `Path::join` does on Unix.
pub fn join_path(base: &str, part: &str) -> (res: String)
    ensures
        res@ == path_join(base@, part@),
{
    let b = chars_of(base);
    let p = chars_of(part);
    if p.len() > 0 && p[0] == '/' {
        let mut res = String::new();
        push_chars(&mut res, &p);
        assert(res@ =~= path_join(base@, part@));
        return res;
    }
    let mut res = String::new();
    push_chars(&mut res, &b);
    if b.len() > 0 && b[b.len() - 1] != '/' {
        crate::text::push_char(&mut res, '/');
    }
    push_chars(&mut res, &p);
    assert(res@ =~= path_join(base@, part@));
    res
}

/// The data directory used when the platform's one is unknown:
/// `$HOME/.local/share/clippy`, with `.` for a missing home.
pub open spec fn fallback_data_dir(home: Option<Seq<char>>) -> Seq<char> {
    let h = match home {
        Some(h) => h,
        None => "."@,
    };
    path_join(path_join(path_join(h, ".local"@), "share"@), "clippy"@)
}

/// The application's data directory: `clippy` in the user's data directory
/// (`$XDG_DATA_HOME`, or `$HOME/.local/share`) when that is known, otherwise
/// `$HOME/.local/share/clippy`, with `.` for a missing home.
pub fn get_data_dir(user_data_dir: Option<&str>, home: Option<&str>) -> (res: String)
    ensures
        res@ == match user_data_dir {
            Some(d) => path_join(d@, "clippy"@),
            None => fallback_data_dir(match home {
                Some(h) => Some(h@),
                None => None,
            }),
        },
{
    match user_data_dir {
        Some(d) => join_path(d, "clippy"),
        None => {
            let h = match home {
                Some(h) => h,
                None => ".",
            };
            let a = join_path(h, ".local");
            let b = join_path(a.as_str(), "share");
            join_path(b.as_str(), "clippy")
        },
    }
}

/// The directory where copied images are saved: `images` in the data
/// directory.
pub fn get_images_dir(data_dir: &str) -> (res: String)
    ensures
        res@ == path_join(data_dir@, "images"@),
{
    join_path(data_dir, "images")
}

/// The database file: `clippy.db` in the data directory.
pub fn database_path(data_dir: &str) -> (res: String)
    ensures
        res@ == path_join(data_dir@, "clippy.db"@),
{
    join_path(data_dir, "clippy.db")
}

/// The file a copied image is saved to: `<hash>.png` in the images directory.
pub fn image_file_path(images_dir: &str, content_hash: &str) -> (res: String)
    ensures
        res@ == path_join(images_dir@, content_hash@ + ".png"@),
{
    let mut name = content_hash.to_owned();
    push_str(&mut name, ".png");
    join_path(images_dir, name.as_str())
}

} // verus!
