//! Filesystem-facing helpers shared across commands: case-insensitive extension matching,
//! hidden/system-file filtering, the pruning rule of directory walks, and the record of a
//! walked file that the planning functions take.

use vstd::prelude::*;
use crate::path::{extension, path_extension, chars_of};
use crate::text::{ascii_lower, ascii_lower_char, eq_ignore_case, has_prefix};

verus! {

/// macOS Finder metadata file.
pub const DS_STORE: &'static str = ".DS_Store";

/// Windows thumbnail-cache file.
pub const THUMBS_DB: &'static str = "Thumbs.db";

/// Prefix of macOS AppleDouble resource-fork sidecars (e.g. `._DSC_0001.NEF`).
pub const APPLEDOUBLE_PREFIX: &'static str = "._";

/// Separator used when building object keys (forward slash, S3-style).
pub const KEY_SEPARATOR: &'static str = "/";

/// A regular file found by a directory walk, with what was read about it.
#[derive(Debug)]
pub struct FileEntry {
    /// The file's path, as the walk produced it.
    pub path: String,
    /// Its size in bytes, or `None` if its metadata could not be read.
    pub size: Option<u64>,
    /// The size of its `.xmp` sidecar (`<path>.xmp`) when that is a regular file; `None`
    /// when it is not (or when sidecars were not looked at).
    pub sidecar_size: Option<u64>,
}

/// Some entry of `extensions` equals `ext`, ignoring ASCII case.
pub open spec fn matches_any(ext: Seq<char>, extensions: Seq<String>) -> bool {
    exists|i: int| 0 <= i < extensions.len() && eq_ignore_case(#[trigger] extensions[i]@, ext)
}

/// The path's extension (the final `.ext`, case-insensitive) is in `extensions`.
pub open spec fn spec_has_extension(path: Seq<char>, extensions: Seq<String>) -> bool {
    match extension(path) {
        Some(e) => matches_any(e, extensions),
        None => false,
    }
}

/// `str::eq_ignore_ascii_case`.
pub fn eq_ignore_ascii_case(a: &str, b: &str) -> (r: bool)
    ensures
        r == eq_ignore_case(a@, b@),
{
    let ca = chars_of(a);
    let cb = chars_of(b);
    if ca.len() != cb.len() {
        return false;
    }
    let mut i: usize = 0;
    while i < ca.len()
        invariant
            ca@ == a@,
            cb@ == b@,
            ca@.len() == cb@.len(),
            i <= ca@.len(),
            forall|j: int| 0 <= j < i ==> ascii_lower(ca@[j]) == ascii_lower(cb@[j]),
        decreases ca@.len() - i,
    {
        if ascii_lower_char(ca[i]) != ascii_lower_char(cb[i]) {
            return false;
        }
        i = i + 1;
    }
    true
}

/// Some entry of `names` equals `name`, ignoring ASCII case.
pub fn contains_ignore_case(names: &[String], name: &str) -> (r: bool)
    ensures
        r == matches_any(name@, names@),
{
    let mut i: usize = 0;
    while i < names.len()
        invariant
            i <= names@.len(),
            forall|j: int| 0 <= j < i ==> !eq_ignore_case(#[trigger] names@[j]@, name@),
        decreases names@.len() - i,
    {
        if eq_ignore_ascii_case(names[i].as_str(), name) {
            assert(eq_ignore_case(names@[i as int]@, name@));
            return true;
        }
        i = i + 1;
    }
    false
}

/// True if `path`'s extension (the final `.ext`, case-insensitive) is in `extensions`.
///
/// `extensions` are bare extensions without the dot, e.g. `["nef", "mov"]`.
pub fn has_extension(path: &str, extensions: &[String]) -> (r: bool)
    ensures
        r == spec_has_extension(path@, extensions@),
{
    match path_extension(path) {
        Some(ext) => contains_ignore_case(extensions, ext.as_str()),
        None => false,
    }
}

/// `s` starts with `prefix`.
pub fn starts_with(s: &str, prefix: &str) -> (r: bool)
    ensures
        r == has_prefix(s@, prefix@),
{
    let cs = chars_of(s);
    let cp = chars_of(prefix);
    if cp.len() > cs.len() {
        return false;
    }
    let mut i: usize = 0;
    while i < cp.len()
        invariant
            cs@ == s@,
            cp@ == prefix@,
            cp@.len() <= cs@.len(),
            i <= cp@.len(),
            forall|j: int| 0 <= j < i ==> cs@[j] == cp@[j],
        decreases cp@.len() - i,
    {
        if cs[i] != cp[i] {
            assert(s@.take(prefix@.len() as int)[i as int] != prefix@[i as int]);
            return false;
        }
        i = i + 1;
    }
    assert(s@.take(prefix@.len() as int) =~= prefix@);
    true
}

/// Dotfiles, AppleDouble files, `.DS_Store` and `Thumbs.db` (the last two in any ASCII
/// case).
pub open spec fn spec_is_hidden_name(name: Seq<char>) -> bool {
    ||| name.len() > 0 && name[0] == '.'
    ||| has_prefix(name, APPLEDOUBLE_PREFIX@)
    ||| eq_ignore_case(name, DS_STORE@)
    ||| eq_ignore_case(name, THUMBS_DB@)
}

/// True for dotfiles, AppleDouble files, `.DS_Store`, and `Thumbs.db`. These are never
/// counted, cleaned, or uploaded.
pub fn is_hidden_name(name: &str) -> (r: bool)
    ensures
        r == spec_is_hidden_name(name@),
{
    let dotfile = name.unicode_len() > 0 && name.get_char(0) == '.';
    dotfile || starts_with(name, APPLEDOUBLE_PREFIX) || eq_ignore_ascii_case(name, DS_STORE)
        || eq_ignore_ascii_case(name, THUMBS_DB)
}

/// A walk neither reports nor descends into an entry with this name: hidden entries, and
/// directories whose name is in `exclude_dir_names` (case-insensitive).
pub open spec fn spec_skip_entry(name: Seq<char>, is_dir: bool, exclude_dir_names: Seq<String>) -> bool {
    spec_is_hidden_name(name) || (is_dir && matches_any(name, exclude_dir_names))
}

/// The pruning rule of the walks: true for a hidden entry, or for a directory whose name
/// (case-insensitive) is in `exclude_dir_names`. Such an entry is neither visited nor
/// descended into.
pub fn skip_entry(name: &str, is_dir: bool, exclude_dir_names: &[String]) -> (r: bool)
    ensures
        r == spec_skip_entry(name@, is_dir, exclude_dir_names@),
{
    is_hidden_name(name) || (is_dir && contains_ignore_case(exclude_dir_names, name))
}

} // verus!
