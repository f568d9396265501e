//! Vault file-name hygiene: Obsidian wikilinks break on file names with
//! spaces, punctuation or mixed case, so document stems are kept equal to
//! their slugs.

use vstd::prelude::*;
use vstd::string::StringSliceAdditionalSpecFns;
use crate::store::{
    ascii_slug_char, dash_join, dash_join_from, max_slug_chars, slug_ascii_spec, slugify, slugify_spec,
};
use crate::text::{byte_range, from_utf8_lossy, str_eq, trim, trim_str, utf8_lossy};
use crate::pattern::{captures_all, lemma_match_at, matches_view, matches_wf, regex_captures, span_view, Span};
use crate::unicode::{lowercase, to_lowercase};
use crate::unicode::{all_ascii, ascii_lower, ascii_lower_char};

verus! {

/// A stem is clean when it is non-empty, at most 200 bytes long, and equal
/// to its slug.
pub open spec fn is_clean_stem_spec(stem: &str) -> bool {
    stem@.len() > 0 && stem.spec_bytes().len() <= 200 && slugify_spec(stem@) == stem@
}

/// Whether `stem` needs no renaming.
pub fn is_clean_stem(stem: &str) -> (r: bool)
    ensures
        r == is_clean_stem_spec(stem),
{
    if stem.is_empty() || stem.as_bytes().len() > 200 {
        return false;
    }
    let s = slugify(stem);
    str_eq(s.as_str(), stem)
}

/// The slug a dirty stem is renamed to.
pub fn clean_stem(stem: &str) -> (r: String)
    ensures
        r@ == slugify_spec(stem@),
        all_ascii(stem@) ==> r@ == slug_ascii_spec(stem@),
{
    slugify(stem)
}

/// What was renamed, which links were rewritten, and what was skipped
/// during a sanitizing pass.
#[derive(Debug, Default)]
pub struct SanitizeReport {
    /// `(from, to)` for each renamed file.
    pub renamed: Vec<(String, String)>,
    /// `(file, count)` of link rewrites applied per file.
    pub link_rewrites: Vec<(String, usize)>,
    /// `(path, reason)` for each skipped file.
    pub skipped: Vec<(String, String)>,
}

/// What to do with a document file given its stem.
#[derive(Debug, Clone, PartialEq, Eq)]
pub enum StemAction {
    /// Already clean.
    Keep,
    /// Its slug is empty, so it cannot be renamed.
    SkipEmptySlug,
    /// Rename to this slug (before collision suffixes).
    Rename(String),
}

/// Decides how a document file with this stem is sanitized.
pub fn plan_stem(stem: &str) -> (r: StemAction)
    ensures
        is_clean_stem_spec(stem) ==> r == StemAction::Keep,
        !is_clean_stem_spec(stem) && slugify_spec(stem@).len() == 0 ==> r == StemAction::SkipEmptySlug,
        !is_clean_stem_spec(stem) && slugify_spec(stem@).len() > 0 ==> (r matches StemAction::Rename(s)
            && s@ == slugify_spec(stem@)),
{
    if is_clean_stem(stem) {
        return StemAction::Keep;
    }
    let s = clean_stem(stem);
    if s.as_str().is_empty() {
        StemAction::SkipEmptySlug
    } else {
        StemAction::Rename(s)
    }
}

// ── Idempotence ─────────────────────────────────────────────────────────

/// Dashes only between two non-dash characters.
pub open spec fn dash_clean(t: Seq<char>) -> bool {
    forall|k: int|
        0 <= k < t.len() && #[trigger] t[k] == '-' ==> 0 < k < t.len() - 1 && t[k - 1] != '-' && t[k
            + 1] != '-'
}

proof fn lemma_dash_join_from_shape(s: Seq<char>, i: int, st: bool, p: bool)
    requires
        p ==> st,
    ensures
        ({
            let r = dash_join_from(s, i, st, p);
            &&& r.len() > 0 && r[0] == '-' ==> st && r.len() > 1 && r[1] != '-'
            &&& r.len() > 0 ==> r.last() != '-'
            &&& forall|k: int| 0 <= k < r.len() - 1 && #[trigger] r[k] == '-' ==> r[k + 1] != '-'
            &&& forall|k: int| 0 <= k < r.len() ==> #[trigger] r[k] == '-' || exists|j: int|
                i <= j < s.len() && s[j] == r[k]
            &&& i < s.len() ==> r.len() <= s.len() - i + if p { 1int } else { 0int }
            &&& i >= s.len() ==> r.len() == 0
        }),
    decreases s.len() - i,
{
    if i < 0 || i >= s.len() {
    } else if s[i] == '-' {
        lemma_dash_join_from_shape(s, i + 1, st, st);
        let r = dash_join_from(s, i, st, p);
        assert forall|k: int| 0 <= k < r.len() implies #[trigger] r[k] == '-' || exists|j: int|
            i <= j < s.len() && s[j] == r[k] by {
            if r[k] != '-' {
                let j = choose|j: int| i + 1 <= j < s.len() && s[j] == r[k];
            }
        }
    } else {
        let rest = dash_join_from(s, i + 1, true, false);
        lemma_dash_join_from_shape(s, i + 1, true, false);
        let head: Seq<char> = if p {
            seq!['-', s[i]]
        } else {
            seq![s[i]]
        };
        let r = dash_join_from(s, i, st, p);
        assert(r =~= head + rest);
        assert forall|k: int| 0 <= k < r.len() - 1 && #[trigger] r[k] == '-' implies r[k + 1] != '-' by {
            if k >= head.len() {
                assert(r[k] == rest[k - head.len()]);
                assert(r[k + 1] == rest[k + 1 - head.len()]);
            }
        }
        assert forall|k: int| 0 <= k < r.len() implies #[trigger] r[k] == '-' || exists|j: int|
            i <= j < s.len() && s[j] == r[k] by {
            if k >= head.len() {
                assert(r[k] == rest[k - head.len()]);
                if rest[k - head.len()] != '-' {
                    let j = choose|j: int| i + 1 <= j < s.len() && s[j] == rest[k - head.len()];
                }
            } else if r[k] != '-' {
                assert(s[i] == r[k]);
            }
        }
        if rest.len() > 0 {
            assert(r.last() == rest.last());
        }
    }
}

proof fn lemma_dash_join_clean(s: Seq<char>)
    ensures
        dash_clean(dash_join(s)),
        dash_join(s).len() <= s.len(),
        forall|k: int| 0 <= k < dash_join(s).len() ==> #[trigger] dash_join(s)[k] == '-' || exists|j: int|
            0 <= j < s.len() && s[j] == dash_join(s)[k],
{
    lemma_dash_join_from_shape(s, 0, false, false);
}

proof fn lemma_dash_join_identity(t: Seq<char>, i: int, st: bool)
    requires
        dash_clean(t),
        0 <= i <= t.len(),
        i == 0 ==> !st,
        i > 0 ==> st && t[i - 1] != '-',
    ensures
        dash_join_from(t, i, st, false) == t.subrange(i, t.len() as int),
    decreases t.len() - i,
{
    if i >= t.len() {
        assert(t.subrange(i, t.len() as int) =~= Seq::<char>::empty());
    } else if t[i] == '-' {
        assert(0 < i < t.len() - 1 && t[i + 1] != '-');
        lemma_dash_join_identity(t, i + 2, true);
        assert(dash_join_from(t, i + 1, st, st) == seq!['-', t[i + 1]] + dash_join_from(t, i + 2, true, false));
        assert(t.subrange(i, t.len() as int) =~= seq!['-', t[i + 1]] + t.subrange(i + 2, t.len() as int));
    } else {
        lemma_dash_join_identity(t, i + 1, true);
        assert(t.subrange(i, t.len() as int) =~= seq![t[i]] + t.subrange(i + 1, t.len() as int));
    }
}

/// Slugging a slug changes nothing, for ASCII stems of at most 200
/// characters; the slug of such a stem is ASCII again.
pub proof fn law_clean_stem_idempotent(s: Seq<char>)
    requires
        all_ascii(s),
        s.len() <= max_slug_chars(),
    ensures
        all_ascii(slug_ascii_spec(s)),
        slug_ascii_spec(slug_ascii_spec(s)) == slug_ascii_spec(s),
{
    let m = ascii_lower(s).map_values(|c: char| ascii_slug_char(c));
    let t = dash_join(m);
    lemma_dash_join_clean(m);
    assert(slug_ascii_spec(s) == t);
    assert(all_ascii(t)) by {
        assert forall|k: int| 0 <= k < t.len() implies (#[trigger] t[k] as u32) < 128 by {
            if t[k] != '-' {
                let j = choose|j: int| 0 <= j < m.len() && m[j] == t[k];
                assert((s[j] as u32) < 128);
            }
        }
    }
    assert(ascii_lower(t) =~= t) by {
        assert forall|k: int| 0 <= k < t.len() implies ascii_lower_char(#[trigger] t[k]) == t[k] by {
            if t[k] != '-' {
                let j = choose|j: int| 0 <= j < m.len() && m[j] == t[k];
                assert(!('A' <= ascii_lower_char(s[j]) && ascii_lower_char(s[j]) <= 'Z'));
            }
        }
    }
    let m2 = ascii_lower(t).map_values(|c: char| ascii_slug_char(c));
    assert(m2 =~= t) by {
        assert forall|k: int| 0 <= k < t.len() implies ascii_slug_char(#[trigger] t[k]) == t[k] by {
            if t[k] != '-' {
                let j = choose|j: int| 0 <= j < m.len() && m[j] == t[k];
                assert(m[j] == ascii_slug_char(ascii_lower(s)[j]));
            }
        }
    }
    lemma_dash_join_identity(t, 0, false);
    assert(t.subrange(0, t.len() as int) =~= t);
}

// ── Link rewriting after renames ────────────────────────────────────────

/// A wikilink: target, optional `#anchor`, optional `|alias`.
pub open spec fn wiki_link_pattern() -> Seq<char> {
    "\\[\\[([^\\]\\|#]+)((?:#[^\\]\\|]*)?)((?:\\|[^\\]]*)?)\\]\\]"@
}

/// A relative markdown link to a `.md` file, with an optional anchor.
pub open spec fn md_link_pattern() -> Seq<char> {
    "\\]\\(([^)#\\s]+?)\\.md(#[^)\\s]*)?\\)"@
}

/// The new stem recorded for a lowercased old stem (the first entry).
pub open spec fn rename_of(renames: Seq<(Seq<char>, Seq<char>)>, key: Seq<char>) -> Option<Seq<char>>
    decreases renames.len(),
{
    if renames.len() == 0 {
        None
    } else if renames[0].0 == key {
        Some(renames[0].1)
    } else {
        rename_of(renames.drop_first(), key)
    }
}

/// Bytes of group `j` of a match (empty when it did not take part).
pub open spec fn group_at(bytes: Seq<u8>, g: Seq<Option<(int, int)>>, j: int) -> Seq<u8> {
    if j < g.len() && g[j] is Some {
        bytes.subrange((g[j]->0).0, (g[j]->0).1)
    } else {
        seq![]
    }
}

/// The replacement of one wikilink match, when its target was renamed.
pub open spec fn wiki_repl(bytes: Seq<u8>, g: Seq<Option<(int, int)>>, renames: Seq<(Seq<char>, Seq<char>)>) -> Option<
    Seq<u8>,
> {
    let key = lowercase(trim(utf8_lossy(group_at(bytes, g, 1))));
    match rename_of(renames, key) {
        Some(n) => Some(
            seq![91u8, 91u8] + vstd::utf8::encode_utf8(n) + group_at(bytes, g, 2) + group_at(bytes, g, 3) + seq![
                93u8,
                93u8,
            ],
        ),
        None => None,
    }
}

/// Index of the last `/` in `b`, or -1.
pub open spec fn last_slash(b: Seq<u8>) -> int
    decreases b.len(),
{
    if b.len() == 0 {
        -1
    } else if b.last() == 47u8 {
        b.len() - 1
    } else {
        last_slash(b.drop_last())
    }
}

/// The replacement of one markdown link match, when its file was renamed:
/// the directory part is kept and the file name replaced.
pub open spec fn md_repl(bytes: Seq<u8>, g: Seq<Option<(int, int)>>, renames: Seq<(Seq<char>, Seq<char>)>) -> Option<
    Seq<u8>,
> {
    let stem = group_at(bytes, g, 1);
    let k = last_slash(stem);
    let prefix = if k >= 0 {
        stem.subrange(0, k + 1)
    } else {
        seq![]
    };
    let base = stem.subrange(k + 1, stem.len() as int);
    match rename_of(renames, lowercase(utf8_lossy(base))) {
        Some(n) => Some(
            seq![93u8, 40u8] + prefix + vstd::utf8::encode_utf8(n) + seq![46u8, 109u8, 100u8] + group_at(
                bytes,
                g,
                2,
            ) + seq![41u8],
        ),
        None => None,
    }
}

/// The bytes from `pos` with matches `k..` replaced by `f`'s answer (kept
/// when it has none), and how many were replaced; `wiki` picks the
/// wikilink rule, else the markdown link rule.
pub open spec fn relink_from(
    bytes: Seq<u8>,
    caps: Seq<Seq<Option<(int, int)>>>,
    renames: Seq<(Seq<char>, Seq<char>)>,
    wiki: bool,
    k: int,
    pos: int,
) -> (Seq<u8>, nat)
    decreases caps.len() - k,
{
    if k < 0 || k >= caps.len() {
        (bytes.subrange(pos, bytes.len() as int), 0)
    } else {
        let m = caps[k][0]->0;
        let rest = relink_from(bytes, caps, renames, wiki, k + 1, m.1);
        let r = if wiki {
            wiki_repl(bytes, caps[k], renames)
        } else {
            md_repl(bytes, caps[k], renames)
        };
        match r {
            Some(x) => (bytes.subrange(pos, m.0) + x + rest.0, rest.1 + 1),
            None => (bytes.subrange(pos, m.0) + bytes.subrange(m.0, m.1) + rest.0, rest.1),
        }
    }
}

/// One pass over a text: `None` when the pattern does not compile.
pub open spec fn relink_pass(text: Seq<char>, renames: Seq<(Seq<char>, Seq<char>)>, wiki: bool) -> Option<
    (Seq<char>, nat),
> {
    let pat = if wiki {
        wiki_link_pattern()
    } else {
        md_link_pattern()
    };
    match regex_captures(pat, text) {
        Some(caps) => {
            let r = relink_from(vstd::utf8::encode_utf8(text), caps, renames, wiki, 0, 0);
            Some((utf8_lossy(r.0), r.1))
        },
        None => None,
    }
}

/// A document's text with its wikilinks and relative `.md` links to
/// renamed stems pointed at the new stems (`renames` maps lowercased old
/// stems to new ones), and the number of links rewritten (saturating at
/// the largest `usize`).
pub open spec fn relink_spec(text: Seq<char>, renames: Seq<(Seq<char>, Seq<char>)>) -> Option<(Seq<char>, nat)> {
    match relink_pass(text, renames, true) {
        Some((t1, c1)) => match relink_pass(t1, renames, false) {
            Some((t2, c2)) => Some(
                (
                    t2,
                    if c1 + c2 <= usize::MAX {
                        c1 + c2
                    } else {
                        usize::MAX as nat
                    },
                ),
            ),
            None => None,
        },
        None => None,
    }
}

pub open spec fn renames_view(v: Seq<(String, String)>) -> Seq<(Seq<char>, Seq<char>)> {
    v.map_values(|p: (String, String)| (p.0@, p.1@))
}

fn rename_lookup(renames: &Vec<(String, String)>, key: &str) -> (r: Option<String>)
    ensures
        match r {
            Some(n) => rename_of(renames_view(renames@), key@) == Some(n@),
            None => rename_of(renames_view(renames@), key@) is None,
        },
{
    let ghost rv = renames_view(renames@);
    let mut i: usize = 0;
    assert(rv.subrange(0, rv.len() as int) =~= rv);
    while i < renames.len()
        invariant
            i <= renames@.len(),
            rv == renames_view(renames@),
            rename_of(rv, key@) == rename_of(rv.subrange(i as int, rv.len() as int), key@),
        decreases renames@.len() - i,
    {
        let ghost t = rv.subrange(i as int, rv.len() as int);
        assert(t.drop_first() =~= rv.subrange(i + 1, rv.len() as int));
        assert(t[0] == (renames@[i as int].0@, renames@[i as int].1@));
        if str_eq(renames[i].0.as_str(), key) {
            return Some(renames[i].1.clone());
        }
        i = i + 1;
    }
    None
}

fn push_bytes(out: &mut Vec<u8>, src: &[u8])
    ensures
        final(out)@ == old(out)@ + src@,
{
    let mut t: usize = 0;
    while t < src.len()
        invariant
            t <= src@.len(),
            out@ == old(out)@ + src@.subrange(0, t as int),
        decreases src@.len() - t,
    {
        out.push(src[t]);
        t = t + 1;
        assert(out@ =~= old(out)@ + src@.subrange(0, t as int));
    }
    assert(src@.subrange(0, src@.len() as int) =~= src@);
}

fn group_bytes_at(bytes: &[u8], g: &Vec<Option<Span>>, j: usize) -> (r: Vec<u8>)
    requires
        forall|i: int| 0 <= i < g@.len() ==> (#[trigger] g@[i] matches Some((a, b)) ==> a <= b <= bytes@.len()),
    ensures
        r@ == group_at(bytes@, crate::pattern::groups_view(*g), j as int),
{
    if j < g.len() {
        match g[j] {
            Some((a, b)) => {
                assert(crate::pattern::groups_view(*g)[j as int] == Some((a as int, b as int)));
                byte_range(bytes, a, b)
            },
            None => {
                assert(crate::pattern::groups_view(*g)[j as int] is None);
                Vec::new()
            },
        }
    } else {
        Vec::new()
    }
}

fn last_slash_exec(b: &Vec<u8>) -> (r: Option<usize>)
    ensures
        match r {
            Some(k) => last_slash(b@) == k as int && k < b@.len(),
            None => last_slash(b@) == -1,
        },
{
    let mut j: usize = b.len();
    assert(b@.subrange(0, b@.len() as int) =~= b@);
    while j > 0 && b[j - 1] != 47u8
        invariant
            j <= b@.len(),
            last_slash(b@) == last_slash(b@.subrange(0, j as int)),
        decreases j,
    {
        let ghost t = b@.subrange(0, j as int);
        assert(t.drop_last() =~= b@.subrange(0, j - 1));
        j = j - 1;
    }
    if j == 0 {
        assert(b@.subrange(0, 0).len() == 0);
        None
    } else {
        Some(j - 1)
    }
}

fn repl_for(bytes: &[u8], g: &Vec<Option<Span>>, renames: &Vec<(String, String)>, wiki: bool) -> (r: Option<Vec<u8>>)
    requires
        forall|i: int| 0 <= i < g@.len() ==> (#[trigger] g@[i] matches Some((a, b)) ==> a <= b <= bytes@.len()),
    ensures
        match r {
            Some(x) => (if wiki {
                wiki_repl(bytes@, crate::pattern::groups_view(*g), renames_view(renames@))
            } else {
                md_repl(bytes@, crate::pattern::groups_view(*g), renames_view(renames@))
            }) == Some(x@),
            None => (if wiki {
                wiki_repl(bytes@, crate::pattern::groups_view(*g), renames_view(renames@))
            } else {
                md_repl(bytes@, crate::pattern::groups_view(*g), renames_view(renames@))
            }) is None,
        },
{
    let ghost gv = crate::pattern::groups_view(*g);
    if wiki {
        let target = group_bytes_at(bytes, g, 1);
        let t = from_utf8_lossy(target.as_slice());
        let key = to_lowercase(trim_str(t.as_str()).as_str());
        match rename_lookup(renames, key.as_str()) {
            Some(n) => {
                let mut out: Vec<u8> = Vec::new();
                out.push(91u8);
                out.push(91u8);
                push_bytes(&mut out, n.as_str().as_bytes());
                let a = group_bytes_at(bytes, g, 2);
                push_bytes(&mut out, a.as_slice());
                let al = group_bytes_at(bytes, g, 3);
                push_bytes(&mut out, al.as_slice());
                out.push(93u8);
                out.push(93u8);
                assert(out@ =~= seq![91u8, 91u8] + vstd::utf8::encode_utf8(n@) + group_at(bytes@, gv, 2) + group_at(
                    bytes@,
                    gv,
                    3,
                ) + seq![93u8, 93u8]);
                Some(out)
            },
            None => None,
        }
    } else {
        let stem = group_bytes_at(bytes, g, 1);
        let (prefix, base) = match last_slash_exec(&stem) {
            Some(k) => (byte_range(stem.as_slice(), 0, k + 1), byte_range(stem.as_slice(), k + 1, stem.len())),
            None => (Vec::new(), byte_range(stem.as_slice(), 0, stem.len())),
        };
        proof {
            let k = last_slash(stem@);
            if k < 0 {
                assert(prefix@ =~= Seq::<u8>::empty());
                assert(stem@.subrange(k + 1, stem@.len() as int) =~= stem@.subrange(0, stem@.len() as int));
            }
        }
        let b = from_utf8_lossy(base.as_slice());
        let key = to_lowercase(b.as_str());
        match rename_lookup(renames, key.as_str()) {
            Some(n) => {
                let mut out: Vec<u8> = Vec::new();
                out.push(93u8);
                out.push(40u8);
                push_bytes(&mut out, prefix.as_slice());
                push_bytes(&mut out, n.as_str().as_bytes());
                out.push(46u8);
                out.push(109u8);
                out.push(100u8);
                let a = group_bytes_at(bytes, g, 2);
                push_bytes(&mut out, a.as_slice());
                out.push(41u8);
                assert(out@ =~= seq![93u8, 40u8] + prefix@ + vstd::utf8::encode_utf8(n@) + seq![46u8, 109u8, 100u8]
                    + group_at(bytes@, gv, 2) + seq![41u8]);
                Some(out)
            },
            None => None,
        }
    }
}

fn relink_once(text: &str, renames: &Vec<(String, String)>, wiki: bool) -> (r: Option<(String, usize)>)
    ensures
        match relink_pass(text@, renames_view(renames@), wiki) {
            Some((t, c)) => r matches Some((x, n)) && x@ == t && n as nat == c,
            None => r is None,
        },
{
    let caps = match captures_all(
        if wiki {
            "\\[\\[([^\\]\\|#]+)((?:#[^\\]\\|]*)?)((?:\\|[^\\]]*)?)\\]\\]"
        } else {
            "\\]\\(([^)#\\s]+?)\\.md(#[^)\\s]*)?\\)"
        },
        text,
    ) {
        Some(c) => c,
        None => {
            return None;
        },
    };
    let ghost cv = matches_view(caps@);
    let ghost rv = renames_view(renames@);
    let bytes = text.as_bytes();
    let n = bytes.len();
    let mut out: Vec<u8> = Vec::new();
    let mut count: usize = 0;
    let mut pos: usize = 0;
    let mut k: usize = 0;
    while k < caps.len()
        invariant
            k <= caps@.len(),
            cv == matches_view(caps@),
            rv == renames_view(renames@),
            matches_wf(caps@, n as int),
            bytes@ == text.spec_bytes(),
            n == bytes@.len(),
            pos <= n,
            count <= k,
            k > 0 ==> pos as int == ((caps@[k - 1]@[0])->0).1,
            k == 0 ==> pos == 0,
            out@ + relink_from(bytes@, cv, rv, wiki, k as int, pos as int).0 == relink_from(bytes@, cv, rv, wiki, 0, 0).0,
            count + relink_from(bytes@, cv, rv, wiki, k as int, pos as int).1 == relink_from(bytes@, cv, rv, wiki, 0, 0).1,
        decreases caps@.len() - k,
    {
        proof {
            lemma_match_at(caps@, n as int, k as int);
        }
        let g = &caps[k];
        let m: Span = match g[0] {
            Some(m) => m,
            None => (pos, pos),
        };
        proof {
            assert(*g == caps@[k as int]);
            assert(caps@[k as int]@[0] == Some(m));
            if k > 0 {
                assert(pos as int == ((caps@[k - 1]@[0])->0).1);
            }
            assert(cv[k as int] == crate::pattern::groups_view(caps@[k as int]));
            assert(cv[k as int][0] == span_view(g@[0]));
        }
        assert(pos <= m.0 && m.0 <= m.1 && m.1 <= n);
        let ghost before = out@;
        let seg = byte_range(bytes, pos, m.0);
        push_bytes(&mut out, seg.as_slice());
        match repl_for(bytes, g, renames, wiki) {
            Some(x) => {
                push_bytes(&mut out, x.as_slice());
                count = count + 1;
            },
            None => {
                let whole = byte_range(bytes, m.0, m.1);
                push_bytes(&mut out, whole.as_slice());
            },
        }
        pos = m.1;
        k = k + 1;
    }
    let tail = byte_range(bytes, pos, n);
    push_bytes(&mut out, tail.as_slice());
    Some((from_utf8_lossy(out.as_slice()), count))
}

/// Points a document's links at renamed stems (see `relink_spec`).
pub fn rewrite_vault_links(text: &str, renames: &Vec<(String, String)>) -> (r: Option<(String, usize)>)
    ensures
        match relink_spec(text@, renames_view(renames@)) {
            Some((t, c)) => r matches Some((x, n)) && x@ == t && n as nat == c,
            None => r is None,
        },
{
    match relink_once(text, renames, true) {
        None => None,
        Some((t1, c1)) => match relink_once(t1.as_str(), renames, false) {
            None => None,
            Some((t2, c2)) => {
                if c2 > usize::MAX - c1 {
                    return Some((t2, usize::MAX));
                }
                Some((t2, c1 + c2))
            },
        },
    }
}

} // verus!
