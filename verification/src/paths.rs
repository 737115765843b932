//! File system paths held as text.

use vstd::prelude::*;

use crate::text::{last_index_of, push_str};

verus! {

/// `base` joined with `rel`, as `PathBuf::join` does on Unix: an absolute
/// `rel` replaces `base`; otherwise a `/` is put between them unless `base`
/// is empty or already ends with one.
pub open spec fn joined(base: Seq<char>, rel: Seq<char>) -> Seq<char> {
    if rel.len() > 0 && rel[0] == '/' {
        rel
    } else if base.len() == 0 || base.last() == '/' {
        base + rel
    } else {
        base + "/"@ + rel
    }
}

/// Joins a path and a further path.
pub fn join_path(base: &str, rel: &str) -> (r: String)
    ensures
        r@ == joined(base@, rel@),
{
    let rel_chars = crate::text::chars_of(rel);
    if rel_chars.len() > 0 && rel_chars[0] == '/' {
        return rel.to_owned();
    }
    let base_chars = crate::text::chars_of(base);
    let mut v: Vec<char> = Vec::new();
    push_str(&mut v, base);
    if !(base_chars.len() == 0 || base_chars[base_chars.len() - 1] == '/') {
        push_str(&mut v, "/");
    }
    push_str(&mut v, rel);
    proof {
        assert(v@ =~= joined(base@, rel@));
    }
    crate::text::string_of(&v)
}

/// What `Path::file_name` gives for a path, as text: the last component,
/// or `None` when the path ends in `..` or has no component.
pub uninterp spec fn file_name_text(path: Seq<char>) -> Option<Seq<char>>;

/// Calls `Path::file_name`.  The contract only names the result, which
/// depends on the path's characters alone.
#[verifier::external_body]
pub(crate) fn file_name(path: &str) -> (r: Option<String>)
    ensures
        match r {
            Some(s) => file_name_text(path@) == Some(s@),
            None => file_name_text(path@).is_none(),
        },
{
    std::path::Path::new(path).file_name().and_then(|f| f.to_str()).map(|s| s.to_owned())
}

/// Where the extension of a file name begins: the position of its last
/// `.`, when that `.` is not the name's first character; otherwise none
/// (`-1` when the name holds no `.`, `0` for a name such as `.bashrc`).
pub open spec fn extension_dot(name: Seq<char>) -> int {
    last_index_of(name, '.')
}

/// What `Path::extension` gives for a path, as its documentation states
/// it: nothing without a file name; nothing when the file name has no `.`
/// or its only `.` is its first character; otherwise the part of the file
/// name after its last `.`.
pub open spec fn extension_text(path: Seq<char>) -> Option<Seq<char>> {
    match file_name_text(path) {
        Some(name) => if extension_dot(name) > 0 {
            Some(name.skip(extension_dot(name) + 1))
        } else {
            None
        },
        None => None,
    }
}

/// Calls `Path::extension`.  The contract states the result over the file
/// name as `Path::extension`'s documentation describes it.
#[verifier::external_body]
pub(crate) fn extension(path: &str) -> (r: Option<String>)
    ensures
        match r {
            Some(s) => extension_text(path@) == Some(s@),
            None => extension_text(path@).is_none(),
        },
{
    std::path::Path::new(path).extension().and_then(|e| e.to_str()).map(|s| s.to_owned())
}

/// What `Path::file_stem` gives for a path, as its documentation states
/// it: nothing without a file name; the whole file name when it has no `.`
/// or its only `.` is its first character; otherwise the part of the file
/// name before its last `.`.
pub open spec fn file_stem_text(path: Seq<char>) -> Option<Seq<char>> {
    match file_name_text(path) {
        Some(name) => if extension_dot(name) > 0 {
            Some(name.take(extension_dot(name)))
        } else {
            Some(name)
        },
        None => None,
    }
}

/// Calls `Path::file_stem`.  The contract states the result over the file
/// name as `Path::file_stem`'s documentation describes it.
#[verifier::external_body]
pub(crate) fn file_stem(path: &str) -> (r: Option<String>)
    ensures
        match r {
            Some(s) => file_stem_text(path@) == Some(s@),
            None => file_stem_text(path@).is_none(),
        },
{
    std::path::Path::new(path).file_stem().and_then(|f| f.to_str()).map(|s| s.to_owned())
}

} // verus!
