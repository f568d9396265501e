//! The decisions of the editor hooks: which prompts they act on, the
//! sub-queries they search, how linked documents are looked up, how
//! snippets are cut, and when a prompt is kept as a question.

use vstd::prelude::*;
use vstd::string::StringSliceAdditionalSpecFns;
use crate::text::{
    char_range, chars_of, collapse_ws, collapse_ws_str, find_chars, find_sub, push_chars, push_str_chars, str_eq,
    string_of, trim, trim_str,
};
use crate::unicode::{ascii_lower, lowercase, to_lowercase};

verus! {

/// Whether the prompt hook acts on a prompt: trimmed, it is at least eight
/// bytes long and starts with neither `/` nor `!`.
pub open spec fn prompt_qualifies_spec(prompt: Seq<char>) -> bool {
    let t = trim(prompt);
    vstd::utf8::encode_utf8(t).len() >= 8 && !(t.len() > 0 && (t[0] == '/' || t[0] == '!'))
}

pub fn prompt_qualifies(prompt: &str) -> (r: bool)
    ensures
        r == prompt_qualifies_spec(prompt@),
{
    let t = trim_str(prompt);
    if t.as_str().as_bytes().len() < 8 {
        return false;
    }
    let tc = chars_of(t.as_str());
    !(tc.len() > 0 && (tc[0] == '/' || tc[0] == '!'))
}

/// ASCII case-insensitive equality (`str::eq_ignore_ascii_case`).
pub open spec fn eq_ascii_ci(a: Seq<char>, b: Seq<char>) -> bool {
    ascii_lower(a) == ascii_lower(b)
}

fn lower_ascii_char(c: char) -> (r: char)
    ensures
        r == crate::unicode::ascii_lower_char(c),
{
    if 'A' <= c && c <= 'Z' {
        ((c as u32) + 32) as u8 as char
    } else {
        c
    }
}

fn ascii_ci_eq(a: &str, b: &str) -> (r: bool)
    ensures
        r == eq_ascii_ci(a@, b@),
{
    let x = chars_of(a);
    let y = chars_of(b);
    if x.len() != y.len() {
        assert(ascii_lower(a@).len() == a@.len());
        assert(ascii_lower(b@).len() == b@.len());
        return false;
    }
    let mut i: usize = 0;
    while i < x.len()
        invariant
            i <= x@.len(),
            x@.len() == y@.len(),
            x@ == a@,
            y@ == b@,
            forall|k: int| 0 <= k < i ==> crate::unicode::ascii_lower_char(#[trigger] x@[k])
                == crate::unicode::ascii_lower_char(y@[k]),
        decreases x@.len() - i,
    {
        if lower_ascii_char(x[i]) != lower_ascii_char(y[i]) {
            assert(ascii_lower(a@)[i as int] != ascii_lower(b@)[i as int]);
            return false;
        }
        i = i + 1;
    }
    assert(ascii_lower(a@) =~= ascii_lower(b@));
    true
}

/// The queries the prompt hook searches: the prompt, then each expansion
/// that differs (ignoring ASCII case) from all before it.
pub open spec fn subqueries_spec(prompt: Seq<char>, extra: Seq<Seq<char>>) -> Seq<Seq<char>>
    decreases extra.len(),
{
    if extra.len() == 0 {
        seq![prompt]
    } else {
        let prev = subqueries_spec(prompt, extra.drop_last());
        let q = extra.last();
        if exists|k: int| 0 <= k < prev.len() && eq_ascii_ci(#[trigger] prev[k], q) {
            prev
        } else {
            prev.push(q)
        }
    }
}

pub open spec fn strs(v: Seq<String>) -> Seq<Seq<char>> {
    v.map_values(|s: String| s@)
}

/// The queries the prompt hook searches (see `subqueries_spec`).
pub fn merge_subqueries(prompt: &str, extra: &Vec<String>) -> (r: Vec<String>)
    ensures
        strs(r@) == subqueries_spec(prompt@, strs(extra@)),
{
    let ghost ev = strs(extra@);
    let mut out: Vec<String> = Vec::new();
    out.push(string_of(chars_of(prompt).as_slice()));
    assert(strs(out@) =~= seq![prompt@]);
    let mut i: usize = 0;
    while i < extra.len()
        invariant
            i <= extra@.len(),
            ev == strs(extra@),
            strs(out@) == subqueries_spec(prompt@, ev.subrange(0, i as int)),
        decreases extra@.len() - i,
    {
        let ghost t = ev.subrange(0, i + 1);
        assert(t.drop_last() =~= ev.subrange(0, i as int));
        assert(t.last() == extra@[i as int]@);
        let ghost ov = strs(out@);
        let mut dup = false;
        let mut j: usize = 0;
        while j < out.len()
            invariant
                j <= out@.len(),
                i < extra@.len(),
                ov == strs(out@),
                dup == exists|k: int| 0 <= k < j && eq_ascii_ci(#[trigger] ov[k], extra@[i as int]@),
            decreases out@.len() - j,
        {
            let e = ascii_ci_eq(out[j].as_str(), extra[i].as_str());
            proof {
                if e {
                    assert(eq_ascii_ci(ov[j as int], extra@[i as int]@));
                }
            }
            dup = dup || e;
            j = j + 1;
        }
        if !dup {
            out.push(extra[i].clone());
            assert(strs(out@) =~= ov.push(extra@[i as int]@));
        }
        i = i + 1;
    }
    assert(ev.subrange(0, extra@.len() as int) =~= ev);
    out
}

/// How the prompt hook looks up a linked document: `kind/id` gives the
/// kind and the id; a bare target is an id looked up in every kind.
pub open spec fn hook_link_spec(target: Seq<char>) -> (Option<Seq<char>>, Seq<char>) {
    let t = trim(target);
    let k = find_sub(t, seq!['/']);
    if k < 0 {
        (None, t)
    } else {
        (Some(t.subrange(0, k)), t.subrange(k + 1, t.len() as int))
    }
}

/// How the prompt hook looks up a linked document (see `hook_link_spec`).
pub fn hook_link_target(target: &str) -> (r: (Option<String>, String))
    ensures
        (match r.0 {
            Some(k) => Some(k@),
            None => None,
        }, r.1@) == hook_link_spec(target@),
{
    let t = trim_str(target);
    let tc = chars_of(t.as_str());
    let slash: Vec<char> = vec!['/'];
    assert(slash@ =~= seq!['/']);
    match find_chars(tc.as_slice(), slash.as_slice()) {
        None => (None, t),
        Some(k) => {
            let n = tc.len();
            assert(k + 1 <= n);
            (Some(string_of(char_range(tc.as_slice(), 0, k).as_slice())), string_of(
                char_range(tc.as_slice(), k + 1, n).as_slice(),
            ))
        },
    }
}

/// The kinds the prompt hook tries for a bare link target, in order.
pub fn hook_doc_types() -> (r: Vec<&'static str>)
    ensures
        r@.len() == 6,
        r@[0]@ == "entities"@ && r@[1]@ == "thoughts"@ && r@[2]@ == "conclusions"@ && r@[3]@ == "reasons"@
            && r@[4]@ == "questions"@ && r@[5]@ == "purposes"@,
{
    vec!["entities", "thoughts", "conclusions", "reasons", "questions", "purposes"]
}

/// `s` when it has at most `max` characters, else its first `max`
/// characters and `…`.
pub open spec fn clip_spec(s: Seq<char>, max: nat) -> Seq<char> {
    if s.len() <= max {
        s
    } else {
        s.subrange(0, max as int) + seq!['…']
    }
}

/// A snippet cut to `max` characters (see `clip_spec`).
pub fn take_chars(s: &str, max: usize) -> (r: String)
    ensures
        r@ == clip_spec(s@, max as nat),
{
    let cs = chars_of(s);
    if cs.len() <= max {
        return string_of(cs.as_slice());
    }
    let mut v = char_range(cs.as_slice(), 0, max);
    v.push('…');
    string_of(v.as_slice())
}

/// A question's text normalized for comparison: words joined by single
/// spaces, lowercased.
pub open spec fn normalize_question_spec(s: Seq<char>) -> Seq<char> {
    lowercase(collapse_ws(s))
}

pub fn normalize_question(s: &str) -> (r: String)
    ensures
        r@ == normalize_question_spec(s@),
{
    let c = collapse_ws_str(s);
    to_lowercase(c.as_str())
}

/// Whether the stop hook keeps a pending prompt as a question: trimmed, it
/// is at least sixteen bytes long and no existing question has the same
/// normalized text.
pub open spec fn keep_prompt_spec(prompt: Seq<char>, existing: Seq<Seq<char>>) -> bool {
    let t = trim(prompt);
    vstd::utf8::encode_utf8(t).len() >= 16 && !(exists|k: int|
        0 <= k < existing.len() && normalize_question_spec(#[trigger] existing[k]) == normalize_question_spec(t))
}

/// Whether the stop hook keeps a pending prompt (see `keep_prompt_spec`);
/// `existing` are the texts of the question documents.
pub fn keep_prompt(prompt: &str, existing: &Vec<String>) -> (r: bool)
    ensures
        r == keep_prompt_spec(prompt@, strs(existing@)),
{
    let t = trim_str(prompt);
    if t.as_str().as_bytes().len() < 16 {
        return false;
    }
    let pn = normalize_question(t.as_str());
    let ghost ev = strs(existing@);
    let mut i: usize = 0;
    while i < existing.len()
        invariant
            i <= existing@.len(),
            ev == strs(existing@),
            pn@ == normalize_question_spec(t@),
            t@ == trim(prompt@),
            vstd::utf8::encode_utf8(t@).len() >= 16,
            forall|k: int| 0 <= k < i ==> normalize_question_spec(#[trigger] ev[k]) != pn@,
        decreases existing@.len() - i,
    {
        let e = normalize_question(existing[i].as_str());
        assert(ev[i as int] == existing@[i as int]@);
        if str_eq(e.as_str(), pn.as_str()) {
            assert(normalize_question_spec(ev[i as int]) == normalize_question_spec(t@));
            return false;
        }
        i = i + 1;
    }
    true
}

/// Linked documents the prompt hook adds, at most this many.
pub const HOOK_LINKED_MAX: usize = 8;

/// The depth-1 linked documents of the top hits: walking their wikilinks in
/// order (each looked up to `(kind, id)` or not found), the documents that
/// are not hits themselves, each once, until eight are found.
pub open spec fn hook_linked_spec(found: Seq<Option<(Seq<char>, Seq<char>)>>, primary: Seq<Seq<char>>) -> Seq<
    (Seq<char>, Seq<char>),
>
    decreases found.len(),
{
    if found.len() == 0 {
        seq![]
    } else {
        let prev = hook_linked_spec(found.drop_last(), primary);
        if prev.len() >= 8 {
            prev
        } else {
            match found.last() {
                Some(d) => if primary.contains(d.1) || prev.map_values(|p: (Seq<char>, Seq<char>)| p.1).contains(
                    d.1,
                ) {
                    prev
                } else {
                    prev.push(d)
                },
                None => prev,
            }
        }
    }
}

fn has_id(v: &Vec<String>, x: &str) -> (r: bool)
    ensures
        r == v@.map_values(|s: String| s@).contains(x@),
{
    let ghost w = v@.map_values(|s: String| s@);
    let mut i: usize = 0;
    while i < v.len()
        invariant
            i <= v@.len(),
            w == v@.map_values(|s: String| s@),
            forall|k: int| 0 <= k < i ==> (#[trigger] w[k]) != x@,
        decreases v@.len() - i,
    {
        if crate::text::str_eq(v[i].as_str(), x) {
            assert(w[i as int] == x@);
            return true;
        }
        i = i + 1;
    }
    false
}

fn has_linked_id(v: &Vec<(String, String)>, x: &str) -> (r: bool)
    ensures
        r == v@.map_values(|p: (String, String)| (p.0@, p.1@)).map_values(|p: (Seq<char>, Seq<char>)| p.1).contains(x@),
{
    let ghost w = v@.map_values(|p: (String, String)| (p.0@, p.1@)).map_values(|p: (Seq<char>, Seq<char>)| p.1);
    let mut i: usize = 0;
    while i < v.len()
        invariant
            i <= v@.len(),
            w == v@.map_values(|p: (String, String)| (p.0@, p.1@)).map_values(|p: (Seq<char>, Seq<char>)| p.1),
            forall|k: int| 0 <= k < i ==> (#[trigger] w[k]) != x@,
        decreases v@.len() - i,
    {
        assert(w[i as int] == v@[i as int].1@);
        if crate::text::str_eq(v[i].1.as_str(), x) {
            return true;
        }
        i = i + 1;
    }
    false
}

pub open spec fn found_view(v: Seq<Option<(String, String)>>) -> Seq<Option<(Seq<char>, Seq<char>)>> {
    v.map_values(|o: Option<(String, String)>| match o {
        Some(p) => Some((p.0@, p.1@)),
        None => None,
    })
}

/// The linked documents the prompt hook adds (see `hook_linked_spec`):
/// `found` holds, for each wikilink of the top hits in order, the
/// `(kind, id)` it was found as, and `primary` the ids of the hits.
pub fn hook_linked(found: &Vec<Option<(String, String)>>, primary: &Vec<String>) -> (r: Vec<(String, String)>)
    ensures
        r@.map_values(|p: (String, String)| (p.0@, p.1@)) == hook_linked_spec(
            found_view(found@),
            primary@.map_values(|s: String| s@),
        ),
{
    let ghost fv = found_view(found@);
    let ghost pv = primary@.map_values(|s: String| s@);
    let mut out: Vec<(String, String)> = Vec::new();
    let mut i: usize = 0;
    while i < found.len()
        invariant
            i <= found@.len(),
            fv == found_view(found@),
            pv == primary@.map_values(|s: String| s@),
            out@.map_values(|p: (String, String)| (p.0@, p.1@)) == hook_linked_spec(fv.subrange(0, i as int), pv),
        decreases found@.len() - i,
    {
        let ghost t = fv.subrange(0, i + 1);
        assert(t.drop_last() =~= fv.subrange(0, i as int));
        let ghost before = out@.map_values(|p: (String, String)| (p.0@, p.1@));
        if out.len() < HOOK_LINKED_MAX {
            match &found[i] {
                Some(d) => {
                    assert(t.last() == Some((d.0@, d.1@)));
                    if !has_id(primary, d.1.as_str()) && !has_linked_id(&out, d.1.as_str()) {
                        out.push((d.0.clone(), d.1.clone()));
                        assert(out@.map_values(|p: (String, String)| (p.0@, p.1@)) =~= before.push((d.0@, d.1@)));
                    }
                },
                None => {
                    assert(t.last() is None);
                },
            }
        }
        i = i + 1;
    }
    assert(fv.subrange(0, found@.len() as int) =~= fv);
    out
}

} // verus!
