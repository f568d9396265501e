//! What the source watcher does with a file event: re-split the source,
//! drop its index files, or ignore it.

use vstd::prelude::*;
use crate::slashpath::{extension, join, path_extension, path_join, path_strip_extension, strip_extension};
use crate::text::{chars_of, find_chars, find_sub, str_eq};

verus! {

/// What a file event leads to.
#[derive(Debug, Clone, Copy, PartialEq, Eq)]
pub enum WatchAction {
    Ignore,
    /// Split the source again and write its index files.
    Resplit,
    /// Remove the source's index files.
    Remove,
}

/// The extension of a path, empty when it has none.
pub open spec fn ext_or_empty(p: Seq<char>) -> Seq<char> {
    match extension(p) {
        Some(e) => e,
        None => seq![],
    }
}

/// What an event on `path` leads to: events other than writes and removals
/// are ignored, and so are files with an extension not watched and files
/// inside a `.wiki` directory.
pub open spec fn watch_action_spec(path: Seq<char>, exts: Seq<Seq<char>>, is_write: bool, is_remove: bool) -> WatchAction {
    if !is_write && !is_remove {
        WatchAction::Ignore
    } else if !exts.contains(ext_or_empty(path)) || find_sub(path, ".wiki/"@) >= 0 || find_sub(path, ".wiki\\"@) >= 0 {
        WatchAction::Ignore
    } else if is_remove {
        WatchAction::Remove
    } else {
        WatchAction::Resplit
    }
}

/// What an event on `path` leads to (see `watch_action_spec`); `exts` are
/// the watched extensions.
pub fn watch_action(path: &str, exts: &Vec<String>, is_write: bool, is_remove: bool) -> (r: WatchAction)
    ensures
        r == watch_action_spec(path@, exts@.map_values(|e: String| e@), is_write, is_remove),
{
    if !is_write && !is_remove {
        return WatchAction::Ignore;
    }
    let e = match path_extension(path) {
        Some(e) => e,
        None => String::new(),
    };
    let ghost ev = exts@.map_values(|x: String| x@);
    let mut known = false;
    let mut i: usize = 0;
    while i < exts.len()
        invariant
            i <= exts@.len(),
            ev == exts@.map_values(|x: String| x@),
            e@ == ext_or_empty(path@),
            known == exists|k: int| 0 <= k < i && ev[k] == e@,
        decreases exts@.len() - i,
    {
        assert(ev[i as int] == exts@[i as int]@);
        if str_eq(exts[i].as_str(), e.as_str()) {
            known = true;
        }
        i = i + 1;
    }
    let cs = chars_of(path);
    let in_wiki = find_chars(cs.as_slice(), chars_of(".wiki/").as_slice()).is_some() || find_chars(
        cs.as_slice(),
        chars_of(".wiki\\").as_slice(),
    ).is_some();
    if !known || in_wiki {
        WatchAction::Ignore
    } else if is_remove {
        WatchAction::Remove
    } else {
        WatchAction::Resplit
    }
}

/// The directory holding the body files of a source:
/// `<index>/<ext>/functions/<key without extension>`.
pub open spec fn body_dir_spec(key: Seq<char>, index_dir: Seq<char>) -> Seq<char> {
    join(join(join(index_dir, ext_or_empty(key)), "functions"@), strip_extension(key))
}

/// The directory holding the body files of a source (see `body_dir_spec`);
/// `key` is the source's index key.
pub fn body_dir(key: &str, index_dir: &str) -> (r: String)
    ensures
        r@ == body_dir_spec(key@, index_dir@),
{
    let e = match path_extension(key) {
        Some(e) => e,
        None => String::new(),
    };
    let a = path_join(index_dir, e.as_str());
    let b = path_join(a.as_str(), "functions");
    let stem = path_strip_extension(key);
    path_join(b.as_str(), stem.as_str())
}

} // verus!
