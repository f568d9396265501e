//! Paths held as `/`-separated text: joining, file names and extensions,
//! following `std::path` on relative file paths such as `src/main.rs`.

use vstd::prelude::*;
use crate::text::{chars_of, push_chars, string_of};

verus! {

/// Index of the last `c` in `s`, or -1.
pub open spec fn last_index_of(s: Seq<char>, c: char) -> int
    decreases s.len(),
{
    if s.len() == 0 {
        -1
    } else if s.last() == c {
        s.len() - 1
    } else {
        last_index_of(s.drop_last(), c)
    }
}

pub proof fn lemma_last_index_of(s: Seq<char>, c: char)
    ensures
        -1 <= last_index_of(s, c) < s.len(),
        last_index_of(s, c) >= 0 ==> s[last_index_of(s, c)] == c,
        forall|k: int| last_index_of(s, c) < k < s.len() ==> s[k] != c,
    decreases s.len(),
{
    if s.len() > 0 && s.last() != c {
        lemma_last_index_of(s.drop_last(), c);
        assert forall|k: int| last_index_of(s, c) < k < s.len() implies s[k] != c by {
            if k < s.len() - 1 {
                assert(s.drop_last()[k] == s[k]);
            }
        }
    }
}

/// Where the last component starts.
pub open spec fn name_start(p: Seq<char>) -> int {
    last_index_of(p, '/') + 1
}

/// The last component.
pub open spec fn file_name(p: Seq<char>) -> Seq<char> {
    p.subrange(name_start(p), p.len() as int)
}

pub open spec fn dot_dot() -> Seq<char> {
    seq!['.', '.']
}

/// Position in `p` of the dot that starts the extension: the last dot of
/// the file name, unless the name starts with its only dot or is `..`.
pub open spec fn ext_dot(p: Seq<char>) -> Option<int> {
    let n = file_name(p);
    let d = last_index_of(n, '.');
    if d <= 0 || n == dot_dot() {
        None
    } else {
        Some(name_start(p) + d)
    }
}

/// `Path::extension`.
pub open spec fn extension(p: Seq<char>) -> Option<Seq<char>> {
    match ext_dot(p) {
        Some(d) => Some(p.subrange(d + 1, p.len() as int)),
        None => None,
    }
}

/// `Path::with_extension("")`: the path without its extension.
pub open spec fn strip_extension(p: Seq<char>) -> Seq<char> {
    match ext_dot(p) {
        Some(d) => p.subrange(0, d),
        None => p,
    }
}

/// `Path::with_extension(e)` for a non-empty `e`.
pub open spec fn with_extension(p: Seq<char>, e: Seq<char>) -> Seq<char> {
    if file_name(p).len() == 0 || file_name(p) == dot_dot() {
        p
    } else {
        strip_extension(p) + seq!['.'] + e
    }
}

/// `Path::join`: `rel` replaces `base` when absolute; otherwise the two are
/// joined by one separator.
pub open spec fn join(base: Seq<char>, rel: Seq<char>) -> Seq<char> {
    if rel.len() > 0 && rel[0] == '/' {
        rel
    } else if base.len() == 0 {
        rel
    } else if base.last() == '/' {
        base + rel
    } else {
        base + seq!['/'] + rel
    }
}

fn last_index(s: &[char], c: char) -> (r: Option<usize>)
    ensures
        match r {
            Some(i) => i as int == last_index_of(s@, c) && i < s@.len(),
            None => last_index_of(s@, c) == -1,
        },
{
    proof {
        lemma_last_index_of(s@, c);
    }
    let mut i: usize = s.len();
    assert(s@.subrange(0, s@.len() as int) =~= s@);
    while i > 0
        invariant
            i <= s@.len(),
            last_index_of(s@.subrange(0, i as int), c) == last_index_of(s@, c),
        decreases i,
    {
        let ghost t = s@.subrange(0, i as int);
        assert(t.drop_last() =~= s@.subrange(0, i - 1));
        if s[i - 1] == c {
            return Some(i - 1);
        }
        i = i - 1;
    }
    proof {
        assert(s@.subrange(0, s@.len() as int) =~= s@);
    }
    None
}

/// Start of the last component and position of the extension dot.
fn name_and_dot(p: &[char]) -> (r: (usize, Option<usize>))
    ensures
        r.0 as int == name_start(p@),
        r.0 <= p@.len(),
        match r.1 {
            Some(d) => ext_dot(p@) == Some(d as int) && r.0 < d < p@.len(),
            None => ext_dot(p@) is None,
        },
{
    proof {
        lemma_last_index_of(p@, '/');
    }
    let start = match last_index(p, '/') {
        Some(i) => {
            assert(i < p.len());
            i + 1
        },
        None => 0,
    };
    let mut name: Vec<char> = Vec::new();
    let mut k = start;
    while k < p.len()
        invariant
            start <= k <= p@.len(),
            name@ =~= p@.subrange(start as int, k as int),
        decreases p@.len() - k,
    {
        name.push(p[k]);
        k = k + 1;
    }
    let is_dot_dot = name.len() == 2 && name[0] == '.' && name[1] == '.';
    assert(is_dot_dot == (name@ == dot_dot())) by {
        if name@ == dot_dot() {
            assert(name@[0] == '.' && name@[1] == '.');
        }
        if is_dot_dot {
            assert(name@ =~= dot_dot());
        }
    }
    let d = last_index(name.as_slice(), '.');
    let dot = match d {
        Some(j) => if j == 0 || is_dot_dot {
            None
        } else {
            Some(start + j)
        },
        None => None,
    };
    (start, dot)
}

/// The extension of `p`, if it has one.
pub fn path_extension(p: &str) -> (r: Option<String>)
    ensures
        match r {
            Some(e) => extension(p@) == Some(e@),
            None => extension(p@) is None,
        },
{
    let cs = chars_of(p);
    let (_start, dot) = name_and_dot(cs.as_slice());
    match dot {
        Some(d) => {
            proof {
                lemma_last_index_of(file_name(p@), '.');
            }
            let mut out: Vec<char> = Vec::new();
            let mut k = d + 1;
            while k < cs.len()
                invariant
                    d + 1 <= k <= cs@.len(),
                    out@ =~= cs@.subrange(d + 1, k as int),
                decreases cs@.len() - k,
            {
                out.push(cs[k]);
                k = k + 1;
            }
            Some(string_of(out.as_slice()))
        },
        None => None,
    }
}

fn prefix_chars(s: &[char], end: usize) -> (r: Vec<char>)
    requires
        end <= s@.len(),
    ensures
        r@ == s@.subrange(0, end as int),
{
    let mut out: Vec<char> = Vec::new();
    let mut k: usize = 0;
    while k < end
        invariant
            k <= end <= s@.len(),
            out@ =~= s@.subrange(0, k as int),
        decreases end - k,
    {
        out.push(s[k]);
        k = k + 1;
    }
    out
}

/// `p` without its extension.
pub fn path_strip_extension(p: &str) -> (r: String)
    ensures
        r@ == strip_extension(p@),
{
    let cs = chars_of(p);
    let (_start, dot) = name_and_dot(cs.as_slice());
    match dot {
        Some(d) => {
            proof {
                lemma_last_index_of(file_name(p@), '.');
            }
            let v = prefix_chars(cs.as_slice(), d);
            string_of(v.as_slice())
        },
        None => p.to_owned(),
    }
}

/// `p` with its extension replaced by `e` (or `e` added).
pub fn path_with_extension(p: &str, e: &str) -> (r: String)
    ensures
        r@ == with_extension(p@, e@),
{
    let cs = chars_of(p);
    let (start, dot) = name_and_dot(cs.as_slice());
    let name_len = cs.len() - start;
    let is_dot_dot = name_len == 2 && cs[start] == '.' && cs[start + 1] == '.';
    proof {
        let n = file_name(p@);
        assert(cs@ == p@);
        assert(n.len() == cs@.len() - start);
        if n == dot_dot() {
            assert(n.len() == 2);
            assert(n[0] == p@[start as int]);
            assert(n[1] == p@[start + 1]);
        }
        if is_dot_dot {
            assert(n =~= dot_dot());
        }
    }
    if name_len == 0 || is_dot_dot {
        return p.to_owned();
    }
    let mut v = match dot {
        Some(d) => {
            proof {
                lemma_last_index_of(file_name(p@), '.');
            }
            prefix_chars(cs.as_slice(), d)
        },
        None => {
            let w = prefix_chars(cs.as_slice(), cs.len());
            assert(cs@.subrange(0, cs@.len() as int) =~= cs@);
            w
        },
    };
    v.push('.');
    let ecs = chars_of(e);
    push_chars(&mut v, ecs.as_slice());
    string_of(v.as_slice())
}

/// `base` joined with `rel`.
pub fn path_join(base: &str, rel: &str) -> (r: String)
    ensures
        r@ == join(base@, rel@),
{
    let b = chars_of(base);
    let rc = chars_of(rel);
    if rc.len() > 0 && rc[0] == '/' {
        return rel.to_owned();
    }
    if b.len() == 0 {
        return rel.to_owned();
    }
    let mut v = prefix_chars(b.as_slice(), b.len());
    assert(b@.subrange(0, b@.len() as int) =~= b@);
    if b[b.len() - 1] != '/' {
        v.push('/');
    }
    push_chars(&mut v, rc.as_slice());
    string_of(v.as_slice())
}

/// `Path::file_stem`: the file name without its extension.
pub open spec fn file_stem(p: Seq<char>) -> Seq<char> {
    strip_extension(file_name(p))
}

/// The file name of `p` without its extension.
pub fn path_file_stem(p: &str) -> (r: String)
    ensures
        r@ == file_stem(p@),
{
    let cs = chars_of(p);
    let (start, _dot) = name_and_dot(cs.as_slice());
    let mut v: Vec<char> = Vec::new();
    let mut k = start;
    while k < cs.len()
        invariant
            start <= k <= cs@.len(),
            v@ =~= cs@.subrange(start as int, k as int),
        decreases cs@.len() - k,
    {
        v.push(cs[k]);
        k = k + 1;
    }
    let name = string_of(v.as_slice());
    path_strip_extension(name.as_str())
}

} // verus!
