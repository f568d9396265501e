//! Names of the bundled documentation pages: the name a page file is
//! listed under, and the files a requested name is looked up in.

use vstd::prelude::*;
use crate::code::splitter::{to_slash, to_slash_spec};
use crate::text::{char_range, chars_of, push_chars, push_str_chars, string_of, trim_start_char, trim_start_char_chars};

verus! {

/// The name a page file is listed under: its path without the `.md`
/// suffix, with forward slashes; none for other files.
pub open spec fn page_name_spec(path: Seq<char>) -> Option<Seq<char>> {
    if path.len() >= 3 && path.subrange(path.len() - 3, path.len() as int) == ".md"@ {
        Some(to_slash_spec(path.subrange(0, path.len() - 3)))
    } else {
        None
    }
}

/// The name a page file is listed under (see `page_name_spec`).
pub fn page_name(path: &str) -> (r: Option<String>)
    ensures
        match r {
            Some(n) => page_name_spec(path@) == Some(n@),
            None => page_name_spec(path@) is None,
        },
{
    let cs = chars_of(path);
    let n = cs.len();
    proof {
        reveal_strlit(".md");
    }
    if n >= 3 && cs[n - 3] == '.' && cs[n - 2] == 'm' && cs[n - 1] == 'd' {
        assert(cs@.subrange(n - 3, n as int) =~= ".md"@);
        let stem = string_of(char_range(cs.as_slice(), 0, n - 3).as_slice());
        Some(to_slash(stem.as_str()))
    } else {
        proof {
            if n >= 3 && cs@.subrange(n - 3, n as int) == ".md"@ {
                assert(cs@.subrange(n - 3, n as int)[0] == cs@[n - 3]);
                assert(cs@.subrange(n - 3, n as int)[1] == cs@[n - 2]);
                assert(cs@.subrange(n - 3, n as int)[2] == cs@[n - 1]);
            }
        }
        None
    }
}

/// The page files a requested name is looked up in, in order: the name
/// (leading `/` dropped, forward slashes) with `.md`, then under `tools/`,
/// then under `concepts/`.
pub open spec fn page_files_spec(name: Seq<char>) -> Seq<Seq<char>> {
    let key = to_slash_spec(trim_start_char(name, '/'));
    seq![key + ".md"@, "tools/"@ + key + ".md"@, "concepts/"@ + key + ".md"@]
}

/// The page files a requested name is looked up in (see
/// `page_files_spec`).
pub fn page_files(name: &str) -> (r: Vec<String>)
    ensures
        r@.map_values(|s: String| s@) == page_files_spec(name@),
{
    let cs = chars_of(name);
    let trimmed = string_of(trim_start_char_chars(cs.as_slice(), '/').as_slice());
    let key = to_slash(trimmed.as_str());
    let kc = chars_of(key.as_str());
    let mut a: Vec<char> = Vec::new();
    push_chars(&mut a, kc.as_slice());
    push_str_chars(&mut a, ".md");
    let mut b: Vec<char> = chars_of("tools/");
    push_chars(&mut b, kc.as_slice());
    push_str_chars(&mut b, ".md");
    let mut c: Vec<char> = chars_of("concepts/");
    push_chars(&mut c, kc.as_slice());
    push_str_chars(&mut c, ".md");
    let out = vec![string_of(a.as_slice()), string_of(b.as_slice()), string_of(c.as_slice())];
    assert(out@.map_values(|s: String| s@) =~= page_files_spec(name@));
    out
}

} // verus!
