//! Wikilink handling: the text regions that linking must not touch, the
//! kind of edge a wikilink stands for, the generated relations block of a
//! document, and the wiki path of a code reference.

use vstd::prelude::*;
use vstd::string::StringSliceAdditionalSpecFns;
use crate::code::splitter::{to_slash, to_slash_spec};
use crate::cache::ReasonAdjacency;
use crate::pattern::{
    captures_all, escape, find_spans, lemma_match_at, match_spans, matches_view, matches_wf, regex_captures,
    regex_escaped, Span,
};
use crate::slashpath::{
    extension, file_name, file_stem, join, last_index_of, lemma_last_index_of, name_start, path_extension, path_join,
    path_strip_extension, strip_extension,
};
use crate::text::{byte_range, from_utf8_lossy, utf8_lossy, trim, trim_str};
use crate::unicode::{lowercase, to_lowercase};
use crate::learn::infra::EntityRef;
use crate::store::{free_stem, is_first_free};
use crate::config::{nonempty_pieces, split_all, split_nonempty, split_on};
use crate::text::{is_ws, char_is_whitespace};
use crate::text::{
    char_range, chars_of, find_chars, find_sub, lemma_find_from, push_chars, push_str_chars, str_eq,
    string_of, trim_end, trim_end_from,
};

verus! {

pub open spec fn spans_view(v: Seq<Span>) -> Seq<(int, int)> {
    v.map_values(|s: Span| (s.0 as int, s.1 as int))
}

/// Order of spans: by start, then by end.
pub open spec fn span_le(a: (int, int), b: (int, int)) -> bool {
    a.0 < b.0 || (a.0 == b.0 && a.1 <= b.1)
}

pub open spec fn insert_span(t: Seq<(int, int)>, x: (int, int)) -> Seq<(int, int)>
    decreases t.len(),
{
    if t.len() == 0 {
        seq![x]
    } else if span_le(t.last(), x) {
        t.push(x)
    } else {
        insert_span(t.drop_last(), x).push(t.last())
    }
}

/// Spans in ascending order (`slice::sort` on pairs).
pub open spec fn sort_spans(s: Seq<(int, int)>) -> Seq<(int, int)>
    decreases s.len(),
{
    if s.len() == 0 {
        s
    } else {
        insert_span(sort_spans(s.drop_last()), s.last())
    }
}

proof fn lemma_insert_span(t: Seq<(int, int)>, x: (int, int), pos: int)
    requires
        0 <= pos <= t.len(),
        forall|k: int| pos <= k < t.len() ==> !span_le(#[trigger] t[k], x),
        pos == 0 || span_le(t[pos - 1], x),
    ensures
        insert_span(t, x) == t.insert(pos, x),
    decreases t.len(),
{
    if t.len() == 0 {
        assert(t.insert(pos, x) =~= seq![x]);
    } else if pos == t.len() {
        assert(t.insert(pos, x) =~= t.push(x));
    } else {
        assert(!span_le(t[t.len() - 1], x));
        let d = t.drop_last();
        assert forall|k: int| pos <= k < d.len() implies !span_le(#[trigger] d[k], x) by {
            assert(d[k] == t[k]);
        }
        if pos > 0 {
            assert(d[pos - 1] == t[pos - 1]);
        }
        lemma_insert_span(d, x, pos);
        assert(t.insert(pos, x) =~= d.insert(pos, x).push(t.last()));
    }
}

fn sort_span_vec(v: &Vec<Span>) -> (r: Vec<Span>)
    ensures
        spans_view(r@) == sort_spans(spans_view(v@)),
{
    let ghost sv = spans_view(v@);
    let mut out: Vec<Span> = Vec::new();
    let mut i: usize = 0;
    while i < v.len()
        invariant
            i <= v@.len(),
            sv == spans_view(v@),
            spans_view(out@) == sort_spans(sv.subrange(0, i as int)),
        decreases v@.len() - i,
    {
        let x = v[i];
        let ghost xv = (x.0 as int, x.1 as int);
        let ghost t = spans_view(out@);
        let mut pos: usize = out.len();
        while pos > 0 && !(out[pos - 1].0 < x.0 || (out[pos - 1].0 == x.0 && out[pos - 1].1 <= x.1))
            invariant
                pos <= out@.len(),
                t == spans_view(out@),
                xv == (x.0 as int, x.1 as int),
                forall|k: int| pos <= k < t.len() ==> !span_le(#[trigger] t[k], xv),
            decreases pos,
        {
            assert(t[pos - 1] == (out@[pos - 1].0 as int, out@[pos - 1].1 as int));
            pos = pos - 1;
        }
        proof {
            if pos > 0 {
                assert(t[pos - 1] == (out@[pos - 1].0 as int, out@[pos - 1].1 as int));
            }
            lemma_insert_span(t, xv, pos as int);
            let s = sv.subrange(0, i + 1);
            assert(s.drop_last() =~= sv.subrange(0, i as int));
            assert(s.last() == xv);
        }
        out.insert(pos, x);
        assert(spans_view(out@) =~= t.insert(pos as int, xv));
        i = i + 1;
    }
    assert(sv.subrange(0, v@.len() as int) =~= sv);
    out
}

fn append_spans(out: &mut Vec<Span>, more: &Vec<Span>)
    ensures
        spans_view(final(out)@) == spans_view(old(out)@) + spans_view(more@),
{
    let mut i: usize = 0;
    while i < more.len()
        invariant
            i <= more@.len(),
            spans_view(out@) == spans_view(old(out)@) + spans_view(more@).subrange(0, i as int),
        decreases more@.len() - i,
    {
        let ghost before = spans_view(out@);
        out.push(more[i]);
        assert(spans_view(out@) =~= before.push((more@[i as int].0 as int, more@[i as int].1 as int)));
        assert(spans_view(more@).subrange(0, i + 1) =~= spans_view(more@).subrange(0, i as int).push(
            (more@[i as int].0 as int, more@[i as int].1 as int),
        ));
        i = i + 1;
    }
    assert(spans_view(more@).subrange(0, more@.len() as int) =~= spans_view(more@));
}

/// Regions linking leaves alone: fenced code blocks, inline code,
/// wikilinks and markdown links, sorted.
pub open spec fn protected_spec(text: Seq<char>) -> Seq<(int, int)> {
    sort_spans(
        match_spans("(?ms)^```.*?^```"@, text) + match_spans("`[^`\\n]+`"@, text) + match_spans(
            "\\[\\[[^\\]]*\\]\\]"@,
            text,
        ) + match_spans("\\[[^\\]]*\\]\\([^)]*\\)"@, text),
    )
}

/// Regions that are code: fenced code blocks and inline code, sorted.
pub open spec fn code_protected_spec(text: Seq<char>) -> Seq<(int, int)> {
    sort_spans(match_spans("(?ms)^```.*?^```"@, text) + match_spans("`[^`\\n]+`"@, text))
}

/// Byte ranges of `text` that linking must not rewrite.
pub fn protected_ranges(text: &str) -> (r: Vec<Span>)
    ensures
        spans_view(r@) == protected_spec(text@),
{
    let mut all = find_spans("(?ms)^```.*?^```", text);
    let b = find_spans("`[^`\\n]+`", text);
    append_spans(&mut all, &b);
    let c = find_spans("\\[\\[[^\\]]*\\]\\]", text);
    append_spans(&mut all, &c);
    let d = find_spans("\\[[^\\]]*\\]\\([^)]*\\)", text);
    append_spans(&mut all, &d);
    sort_span_vec(&all)
}

/// Byte ranges of `text` that are code.
pub fn code_protected_ranges(text: &str) -> (r: Vec<Span>)
    ensures
        spans_view(r@) == code_protected_spec(text@),
{
    let mut all = find_spans("(?ms)^```.*?^```", text);
    let b = find_spans("`[^`\\n]+`", text);
    append_spans(&mut all, &b);
    sort_span_vec(&all)
}

/// Whether `pos` falls inside one of `ranges`.
pub fn in_protected(pos: usize, ranges: &[Span]) -> (r: bool)
    ensures
        r == exists|k: int| 0 <= k < ranges@.len() && (#[trigger] ranges@[k]).0 <= pos < ranges@[k].1,
{
    let mut k: usize = 0;
    while k < ranges.len()
        invariant
            k <= ranges@.len(),
            forall|j: int| 0 <= j < k ==> !((#[trigger] ranges@[j]).0 <= pos < ranges@[j].1),
        decreases ranges@.len() - k,
    {
        if ranges[k].0 <= pos && pos < ranges[k].1 {
            return true;
        }
        k = k + 1;
    }
    false
}

/// Kind of the edge a resolved wikilink stands for: a link opening the body
/// supports a question, or a document of the linking document's own
/// purpose; any other link references.
pub open spec fn edge_kind_spec(
    is_body_start: bool,
    target_type: Seq<char>,
    self_purpose: Option<Seq<char>>,
    target_purpose: Option<Seq<char>>,
) -> Seq<char> {
    if is_body_start && target_type == "questions"@ {
        "Supports"@
    } else if is_body_start && self_purpose is Some && target_purpose == self_purpose {
        "Supports"@
    } else {
        "References"@
    }
}

fn opt_str_eq(a: Option<&str>, b: Option<&str>) -> (r: bool)
    ensures
        r == (match (a, b) {
            (Some(x), Some(y)) => x@ == y@,
            (None, None) => true,
            _ => false,
        }),
{
    match (a, b) {
        (Some(x), Some(y)) => str_eq(x, y),
        (None, None) => true,
        _ => false,
    }
}

/// Classifies a resolved wikilink (`target_purpose` is the target
/// document's purpose, when it could be read).
pub fn classify_edge_kind(
    is_body_start: bool,
    target_type: &str,
    self_purpose: Option<&str>,
    target_purpose: Option<&str>,
) -> (r: &'static str)
    ensures
        r@ == edge_kind_spec(
            is_body_start,
            target_type@,
            match self_purpose {
                Some(p) => Some(p@),
                None => None,
            },
            match target_purpose {
                Some(p) => Some(p@),
                None => None,
            },
        ),
{
    if is_body_start && str_eq(target_type, "questions") {
        return "Supports";
    }
    if is_body_start && self_purpose.is_some() && opt_str_eq(target_purpose, self_purpose) {
        return "Supports";
    }
    "References"
}

/// The body with its relations block replaced by `block` when both
/// markers are present; otherwise `block` appended after the trimmed body
/// and a blank line (or alone when the body is blank).
pub open spec fn relations_spec(body: Seq<char>, block: Seq<char>) -> Seq<char> {
    let s = find_sub(body, "<!-- wiki-relations-start -->"@);
    let e = find_sub(body, "<!-- wiki-relations-end -->"@);
    if s >= 0 && e >= 0 {
        body.subrange(0, s) + block + body.subrange(
            e + "<!-- wiki-relations-end -->"@.len(),
            body.len() as int,
        )
    } else if trim_end(body).len() == 0 {
        block
    } else {
        trim_end(body) + "\n\n"@ + block
    }
}

/// Writes `block` as the document's relations block.
pub fn replace_relations_block(body: &str, block: &str) -> (r: String)
    ensures
        r@ == relations_spec(body@, block@),
{
    let b = chars_of(body);
    let start = chars_of("<!-- wiki-relations-start -->");
    let end = chars_of("<!-- wiki-relations-end -->");
    let bl = chars_of(block);
    match (find_chars(b.as_slice(), start.as_slice()), find_chars(b.as_slice(), end.as_slice())) {
        (Some(s), Some(e)) => {
            let mut out = char_range(b.as_slice(), 0, s);
            push_chars(&mut out, bl.as_slice());
            let n = b.len();
            assert(e + end@.len() <= n);
            let tail = char_range(b.as_slice(), e + end.len(), n);
            push_chars(&mut out, tail.as_slice());
            string_of(out.as_slice())
        },
        _ => {
            let t = trim_end_from(b.as_slice(), 0);
            assert(b@.subrange(0, b@.len() as int) =~= b@);
            if t.len() == 0 {
                block.to_owned()
            } else {
                let mut out = t;
                push_str_chars(&mut out, "\n\n");
                push_chars(&mut out, bl.as_slice());
                string_of(out.as_slice())
            }
        },
    }
}

/// Wiki path of a code reference `path/file.ext::name`:
/// `code/<ext>/functions/<path/file>/<name>`; none without `::` or without
/// an extension.
pub open spec fn code_ref_spec(code_ref: Seq<char>) -> Option<Seq<char>> {
    let i = find_sub(code_ref, "::"@);
    if i < 0 {
        None
    } else {
        let file = code_ref.subrange(0, i);
        let name = code_ref.subrange(i + 2, code_ref.len() as int);
        match extension(file) {
            Some(ext) => Some(
                "code/"@ + ext + "/functions/"@ + to_slash_spec(strip_extension(file)) + "/"@ + name,
            ),
            None => None,
        }
    }
}

/// Where the body file of a referenced function lives in the vault.
pub fn code_ref_to_wiki_path(code_ref: &str) -> (r: Option<String>)
    ensures
        match r {
            Some(p) => code_ref_spec(code_ref@) == Some(p@),
            None => code_ref_spec(code_ref@) is None,
        },
{
    let cs = chars_of(code_ref);
    let sep = chars_of("::");
    proof {
        reveal_strlit("::");
    }
    let i = match find_chars(cs.as_slice(), sep.as_slice()) {
        Some(i) => i,
        None => {
            return None;
        },
    };
    let n = cs.len();
    assert(sep@.len() == 2);
    assert(i + 2 <= n);
    let file_v = char_range(cs.as_slice(), 0, i);
    let name_v = char_range(cs.as_slice(), i + 2, n);
    let file = string_of(file_v.as_slice());
    let ext = match path_extension(file.as_str()) {
        Some(e) => e,
        None => {
            return None;
        },
    };
    let stem = path_strip_extension(file.as_str());
    let dir = to_slash(stem.as_str());
    let mut out: Vec<char> = Vec::new();
    push_str_chars(&mut out, "code/");
    push_str_chars(&mut out, ext.as_str());
    push_str_chars(&mut out, "/functions/");
    push_str_chars(&mut out, dir.as_str());
    push_str_chars(&mut out, "/");
    push_chars(&mut out, name_v.as_slice());
    Some(string_of(out.as_slice()))
}

/// The directory part of a `/`-separated path (empty for a bare name).
pub open spec fn dir_part(p: Seq<char>) -> Seq<char> {
    if name_start(p) > 0 {
        p.subrange(0, name_start(p) - 1)
    } else {
        seq![]
    }
}

/// Name of the directory holding the file at `p`.
pub open spec fn parent_name(p: Seq<char>) -> Seq<char> {
    file_name(dir_part(p))
}

/// Components that mark a question as already moved out of the open tree.
pub open spec fn resolved_component(p: Seq<char>) -> bool {
    crate::learn::migrate::has_component(p, "graveyard"@) || crate::learn::migrate::has_component(
        p,
        "answered"@,
    ) || crate::learn::migrate::has_component(p, "dropped"@)
}

/// Where a question file moves: its purpose directory, its stem, and the
/// new directory (relative to the questions directory).
#[derive(Debug, Clone)]
pub struct QuestionMove {
    pub parent: String,
    pub stem: String,
    pub new_dir: String,
    pub new_stem: String,
    pub relink: Option<(String, String)>,
}

/// The wikilink target of the question `stem` filed under `dir` of the
/// questions directory: `questions/<dir>/<stem>`.
pub open spec fn question_target(dir: Seq<char>, stem: Seq<char>) -> Seq<char> {
    "questions/"@ + dir + seq!['/'] + stem
}

fn make_question_target(dir: &str, stem: &str) -> (r: String)
    ensures
        r@ == question_target(dir@, stem@),
{
    let mut v: Vec<char> = Vec::new();
    push_str_chars(&mut v, "questions/");
    push_str_chars(&mut v, dir);
    v.push('/');
    push_str_chars(&mut v, stem);
    string_of(v.as_slice())
}

fn split_file(p: &str) -> (r: (String, String))
    ensures
        r.0@ == parent_name(p@),
        r.1@ == file_stem(p@),
{
    let cs = chars_of(p);
    proof {
        lemma_last_index_of(p@, '/');
    }
    let ghost ns = name_start(p@);
    let mut k: usize = cs.len();
    while k > 0 && cs[k - 1] != '/'
        invariant
            k <= cs@.len(),
            cs@ == p@,
            forall|j: int| k <= j < cs@.len() ==> cs@[j] != '/',
        decreases k,
    {
        k = k - 1;
    }
    proof {
        if k > 0 {
            assert(cs@[k - 1] == '/');
            if last_index_of(p@, '/') != k - 1 {
                assert(last_index_of(p@, '/') > k - 1 || last_index_of(p@, '/') < k - 1);
            }
        } else {
            if last_index_of(p@, '/') >= 0 {
                assert(cs@[last_index_of(p@, '/')] == '/');
            }
        }
        assert(k as int == ns);
    }
    let name_v = char_range(cs.as_slice(), k, cs.len());
    let name = string_of(name_v.as_slice());
    assert(name@ == file_name(p@));
    let stem = path_strip_extension(name.as_str());
    let dir = if k > 0 {
        let d = char_range(cs.as_slice(), 0, k - 1);
        string_of(d.as_slice())
    } else {
        String::new()
    };
    assert(dir@ == dir_part(p@));
    let dcs = chars_of(dir.as_str());
    let mut m: usize = dcs.len();
    while m > 0 && dcs[m - 1] != '/'
        invariant
            m <= dcs@.len(),
            dcs@ == dir@,
            forall|j: int| m <= j < dcs@.len() ==> dcs@[j] != '/',
        decreases m,
    {
        m = m - 1;
    }
    proof {
        lemma_last_index_of(dir@, '/');
        if m > 0 {
            assert(dcs@[m - 1] == '/');
        } else if last_index_of(dir@, '/') >= 0 {
            assert(dcs@[last_index_of(dir@, '/')] == '/');
        }
        assert(m as int == name_start(dir@));
    }
    let pv = char_range(dcs.as_slice(), m, dcs.len());
    (string_of(pv.as_slice()), stem)
}

/// Plans moving the question at `rel_path` (relative to the questions
/// directory) under `subfolder`, into a directory that holds the file
/// names `taken`; `None` when it already sits under `graveyard`,
/// `answered` or `dropped`. The file keeps its stem unless that name is
/// taken (see `free_stem`); inbound links to it are repointed when it had
/// a parent directory.
pub fn plan_question_move(rel_path: &str, subfolder: &str, taken: &Vec<String>) -> (r: Option<QuestionMove>)
    ensures
        r is None <==> resolved_component(rel_path@),
        r matches Some(m) ==> m.parent@ == parent_name(rel_path@) && m.stem@ == file_stem(rel_path@)
            && m.new_dir@ == join(subfolder@, parent_name(rel_path@))
            && is_first_free(file_stem(rel_path@), taken@.map_values(|s: String| s@), m.new_stem@)
            && (m.relink is None <==> parent_name(rel_path@).len() == 0)
            && (m.relink matches Some(l) ==> l.0@ == question_target(m.parent@, m.stem@)
                && l.1@ == question_target(join(subfolder@, m.parent@), m.new_stem@)),
{
    if path_component(rel_path, "graveyard") || path_component(rel_path, "answered") || path_component(
        rel_path,
        "dropped",
    ) {
        return None;
    }
    let (parent, stem) = split_file(rel_path);
    let new_dir = path_join(subfolder, parent.as_str());
    let new_stem = free_stem(stem.as_str(), taken);
    let relink = if chars_of(parent.as_str()).len() == 0 {
        None
    } else {
        let old_t = make_question_target(parent.as_str(), stem.as_str());
        let new_t = make_question_target(new_dir.as_str(), new_stem.as_str());
        Some((old_t, new_t))
    };
    Some(QuestionMove { parent, stem, new_dir, new_stem, relink })
}

fn path_component(p: &str, name: &str) -> (r: bool)
    ensures
        r == crate::learn::migrate::has_component(p@, name@),
{
    crate::learn::migrate::path_has_component(p, name)
}

/// A buried question stays buried: a file put under the directory that
/// `bury_question` plans, `graveyard/<purpose>`, is itself never planned
/// to move again.
pub proof fn law_bury_once(parent: Seq<char>, name: Seq<char>)
    requires
        !(name.len() > 0 && name[0] == '/'),
        !(parent.len() > 0 && parent[0] == '/'),
    ensures
        resolved_component(join(join("graveyard"@, parent), name)),
{
    reveal_strlit("graveyard");
    let g = "graveyard"@;
    let dir = join(g, parent);
    let p = join(dir, name);
    assert(g.len() == 9 && g.last() == 'd');
    assert(dir.len() >= 9 && dir.subrange(0, 9) =~= g);
    assert(dir.len() == 9 || dir[9] == '/');
    assert(p.len() >= dir.len() && p.subrange(0, dir.len() as int) =~= dir);
    assert(p.subrange(0, 9) =~= g);
    if dir.len() == 9 {
        assert(p.len() == 9 || p[9] == '/');
    } else {
        assert(p[9] == dir[9]);
    }
    assert(crate::learn::migrate::component_at(p, g, 0));
}

/// Tagging is done once: the tags `with_tag` gives back hold the tag, so
/// a second call with the same tag answers `None`.
pub proof fn law_tag_once(tags: Seq<Seq<char>>, tag: Seq<char>)
    ensures
        tags.push(tag).contains(tag),
{
    assert(tags.push(tag)[tags.len() as int] == tag);
}

/// Plans burying a question in `graveyard/<purpose>/`, a directory that
/// holds the file names `taken` (see `plan_question_move`).
pub fn bury_question(rel_path: &str, taken: &Vec<String>) -> (r: Option<QuestionMove>)
    ensures
        r is None <==> resolved_component(rel_path@),
        r matches Some(m) ==> m.parent@ == parent_name(rel_path@) && m.stem@ == file_stem(rel_path@)
            && m.new_dir@ == join("graveyard"@, parent_name(rel_path@))
            && is_first_free(file_stem(rel_path@), taken@.map_values(|s: String| s@), m.new_stem@)
            && (m.relink is None <==> parent_name(rel_path@).len() == 0)
            && (m.relink matches Some(l) ==> l.0@ == question_target(m.parent@, m.stem@)
                && l.1@ == question_target(join("graveyard"@, m.parent@), m.new_stem@)),
{
    plan_question_move(rel_path, "graveyard", taken)
}

/// `tags` with `tag` added, or `None` when it is already there.
pub fn with_tag(tags: &Vec<String>, tag: &str) -> (r: Option<Vec<String>>)
    ensures
        r is None <==> tags@.map_values(|x: String| x@).contains(tag@),
        r matches Some(v) ==> v@.map_values(|x: String| x@) == tags@.map_values(|x: String| x@).push(tag@),
{
    let ghost tv = tags@.map_values(|x: String| x@);
    let mut out: Vec<String> = Vec::new();
    let mut i: usize = 0;
    while i < tags.len()
        invariant
            i <= tags@.len(),
            tv == tags@.map_values(|x: String| x@),
            out@.map_values(|x: String| x@) =~= tv.subrange(0, i as int),
            forall|j: int| 0 <= j < i ==> tv[j] != tag@,
        decreases tags@.len() - i,
    {
        assert(tv[i as int] == tags@[i as int]@);
        if str_eq(tags[i].as_str(), tag) {
            return None;
        }
        let ghost before = out@.map_values(|x: String| x@);
        out.push(tags[i].clone());
        assert(out@.map_values(|x: String| x@) =~= before.push(tv[i as int]));
        i = i + 1;
    }
    assert(tv.subrange(0, tags@.len() as int) =~= tv);
    let ghost before = out@.map_values(|x: String| x@);
    out.push(tag.to_owned());
    assert(out@.map_values(|x: String| x@) =~= before.push(tag@));
    Some(out)
}

/// Reason ids touching a node, arriving ones first, each once.
pub open spec fn edge_union(to: Seq<Seq<char>>, from: Seq<Seq<char>>) -> Seq<Seq<char>>
    decreases from.len(),
{
    if from.len() == 0 {
        dedup_keep_first(to)
    } else {
        let prev = edge_union(to, from.drop_last());
        if prev.contains(from.last()) {
            prev
        } else {
            prev.push(from.last())
        }
    }
}

/// `s` with later repeats of an element dropped.
pub open spec fn dedup_keep_first(s: Seq<Seq<char>>) -> Seq<Seq<char>>
    decreases s.len(),
{
    if s.len() == 0 {
        s
    } else {
        let prev = dedup_keep_first(s.drop_last());
        if prev.contains(s.last()) {
            prev
        } else {
            prev.push(s.last())
        }
    }
}

fn push_unique(out: &mut Vec<String>, s: &String)
    ensures
        final(out)@.map_values(|x: String| x@) == if old(out)@.map_values(|x: String| x@).contains(s@) {
            old(out)@.map_values(|x: String| x@)
        } else {
            old(out)@.map_values(|x: String| x@).push(s@)
        },
{
    let ghost ov = out@.map_values(|x: String| x@);
    let mut i: usize = 0;
    while i < out.len()
        invariant
            i <= out@.len(),
            ov == out@.map_values(|x: String| x@),
            out@ == old(out)@,
            forall|j: int| 0 <= j < i ==> ov[j] != s@,
        decreases out@.len() - i,
    {
        assert(ov[i as int] == out@[i as int]@);
        if str_eq(out[i].as_str(), s.as_str()) {
            return;
        }
        i = i + 1;
    }
    out.push(s.clone());
    assert(out@.map_values(|x: String| x@) =~= ov.push(s@));
}

/// Plans deleting a question with every reason touching it: `None` when
/// the question file was not found, else the reasons to delete.
pub fn delete_question_with_edges(found: bool, adj: &ReasonAdjacency) -> (r: Option<Vec<String>>)
    ensures
        r is None <==> !found,
        r matches Some(v) ==> v@.map_values(|x: String| x@) == edge_union(
            adj.to@.map_values(|x: String| x@),
            adj.from@.map_values(|x: String| x@),
        ),
{
    if !found {
        return None;
    }
    let ghost tv = adj.to@.map_values(|x: String| x@);
    let ghost fv = adj.from@.map_values(|x: String| x@);
    let mut out: Vec<String> = Vec::new();
    let mut i: usize = 0;
    while i < adj.to.len()
        invariant
            i <= adj.to@.len(),
            tv == adj.to@.map_values(|x: String| x@),
            out@.map_values(|x: String| x@) == dedup_keep_first(tv.subrange(0, i as int)),
        decreases adj.to@.len() - i,
    {
        let ghost s = tv.subrange(0, i + 1);
        assert(s.drop_last() =~= tv.subrange(0, i as int));
        push_unique(&mut out, &adj.to[i]);
        i = i + 1;
    }
    assert(tv.subrange(0, adj.to@.len() as int) =~= tv);
    let mut j: usize = 0;
    while j < adj.from.len()
        invariant
            j <= adj.from@.len(),
            tv == adj.to@.map_values(|x: String| x@),
            fv == adj.from@.map_values(|x: String| x@),
            out@.map_values(|x: String| x@) == edge_union(tv, fv.subrange(0, j as int)),
        decreases adj.from@.len() - j,
    {
        let ghost s = fv.subrange(0, j + 1);
        assert(s.drop_last() =~= fv.subrange(0, j as int));
        push_unique(&mut out, &adj.from[j]);
        j = j + 1;
    }
    assert(fv.subrange(0, adj.from@.len() as int) =~= fv);
    Some(out)
}

/// Wiki link target of a document file: `<type>/<purpose>/<stem>`.
pub open spec fn doc_target(doc_type: Seq<char>, rel_path: Seq<char>) -> Seq<char> {
    doc_type + "/"@ + parent_name(rel_path) + "/"@ + file_stem(rel_path)
}

fn doc_target_exec(doc_type: &str, rel_path: &str) -> (r: String)
    ensures
        r@ == doc_target(doc_type@, rel_path@),
{
    let (parent, stem) = split_file(rel_path);
    let mut v: Vec<char> = Vec::new();
    push_str_chars(&mut v, doc_type);
    push_str_chars(&mut v, "/");
    push_str_chars(&mut v, parent.as_str());
    push_str_chars(&mut v, "/");
    push_str_chars(&mut v, stem.as_str());
    string_of(v.as_slice())
}

/// Link targets for repointing a question's inbound links to its
/// conclusion: `(questions/<purpose>/<stem>, conclusions/<purpose>/<stem>)`
/// from the two files' paths (relative to their type directories).
pub fn repoint_inbound_to_conclusion(question_rel: &str, conclusion_rel: &str) -> (r: (String, String))
    ensures
        r.0@ == doc_target("questions"@, question_rel@),
        r.1@ == doc_target("conclusions"@, conclusion_rel@),
{
    (doc_target_exec("questions", question_rel), doc_target_exec("conclusions", conclusion_rel))
}

/// Pattern of a wikilink to `old_target` followed by `]`, `|` or `#`.
pub open spec fn inbound_pattern(old_target: Seq<char>) -> Seq<char> {
    "\\[\\["@ + regex_escaped(old_target) + "(?P<rest>[\\]|#])"@
}

pub open spec fn group_text(text: Seq<u8>, g: Option<(int, int)>) -> Seq<u8> {
    match g {
        Some((a, b)) => text.subrange(a, b),
        None => seq![],
    }
}

/// Bytes of `text` from `pos` with every match from `k` on replaced by
/// `[[`, the new target and the character that followed the old one.
pub open spec fn replaced_from(
    text: Seq<u8>,
    caps: Seq<Seq<Option<(int, int)>>>,
    new_target: Seq<u8>,
    k: int,
    pos: int,
) -> Seq<u8>
    decreases caps.len() - k,
{
    if k < 0 || k >= caps.len() {
        text.subrange(pos, text.len() as int)
    } else {
        let m = caps[k][0]->0;
        let g = if caps[k].len() > 1 {
            caps[k][1]
        } else {
            None
        };
        text.subrange(pos, m.0) + seq![91u8, 91u8] + new_target + group_text(text, g) + replaced_from(
            text,
            caps,
            new_target,
            k + 1,
            m.1,
        )
    }
}

/// The text with every wikilink to `old_target` pointed at `new_target`
/// (pattern that does not compile: the text unchanged).
pub open spec fn rewrite_inbound_spec(text: &str, old_target: Seq<char>, new_target: Seq<char>) -> Seq<char> {
    match regex_captures(inbound_pattern(old_target), text@) {
        Some(caps) => utf8_lossy(
            replaced_from(text.spec_bytes(), caps, vstd::utf8::encode_utf8(new_target), 0, 0),
        ),
        None => text@,
    }
}

fn push_bytes(out: &mut Vec<u8>, src: &[u8])
    ensures
        final(out)@ == old(out)@ + src@,
{
    let mut t: usize = 0;
    while t < src.len()
        invariant
            t <= src@.len(),
            out@ == old(out)@ + src@.subrange(0, t as int),
        decreases src@.len() - t,
    {
        out.push(src[t]);
        t = t + 1;
        assert(out@ =~= old(out)@ + src@.subrange(0, t as int));
    }
    assert(src@.subrange(0, src@.len() as int) =~= src@);
}

/// The bytes of one replaced link: `[[`, the new target, and what
/// followed the old target.
fn group_bytes(bytes: &[u8], g: &Vec<Option<Span>>) -> (r: Vec<u8>)
    requires
        forall|j: int| 0 <= j < g@.len() ==> (#[trigger] g@[j] matches Some((a, b)) ==> a <= b <= bytes@.len()),
    ensures
        r@ == group_text(
            bytes@,
            if g@.len() > 1 {
                crate::pattern::span_view(g@[1])
            } else {
                None
            },
        ),
{
    if g.len() > 1 {
        match g[1] {
            Some((a, b)) => byte_range(bytes, a, b),
            None => Vec::new(),
        }
    } else {
        Vec::new()
    }
}

/// Points the wikilinks to `old_target` in `text` at `new_target`.
pub fn rewrite_inbound_links(text: &str, old_target: &str, new_target: &str) -> (r: String)
    ensures
        r@ == rewrite_inbound_spec(text, old_target@, new_target@),
{
    let esc = escape(old_target);
    let mut pat: Vec<char> = Vec::new();
    push_str_chars(&mut pat, "\\[\\[");
    push_str_chars(&mut pat, esc.as_str());
    push_str_chars(&mut pat, "(?P<rest>[\\]|#])");
    let pattern = string_of(pat.as_slice());
    let caps = match captures_all(pattern.as_str(), text) {
        Some(c) => c,
        None => {
            return text.to_owned();
        },
    };
    let ghost cv = matches_view(caps@);
    let bytes = text.as_bytes();
    let nb = new_target.as_bytes();
    let n = bytes.len();
    let mut out: Vec<u8> = Vec::new();
    let mut pos: usize = 0;
    let mut k: usize = 0;
    while k < caps.len()
        invariant
            k <= caps@.len(),
            cv == matches_view(caps@),
            matches_wf(caps@, n as int),
            bytes@ == text.spec_bytes(),
            n == bytes@.len(),
            nb@ == new_target.spec_bytes(),
            pos <= n,
            k > 0 ==> pos as int == ((caps@[k - 1]@[0])->0).1,
            k == 0 ==> pos == 0,
            out@ + replaced_from(bytes@, cv, nb@, k as int, pos as int) == replaced_from(bytes@, cv, nb@, 0, 0),
        decreases caps@.len() - k,
    {
        proof {
            lemma_match_at(caps@, n as int, k as int);
        }
        let g = &caps[k];
        assert(g@.len() > 0 && g@[0] is Some);
        let m: Span = match g[0] {
            Some(m) => m,
            None => (pos, pos),
        };
        assert(g@[0] == Some(m));
        assert(m.0 <= m.1 <= n) by {
            assert(g@[0] == caps@[k as int]@[0]);
        }
        proof {
            assert(*g == caps@[k as int]);
            assert(caps@[k as int]@[0] == Some(m));
            assert(((caps@[k as int]@[0])->0).0 == m.0);
            if k > 0 {
                assert(pos as int == ((caps@[k - 1]@[0])->0).1);
            }
        }
        assert(pos <= m.0);
        let ghost before = out@;
        let seg = byte_range(bytes, pos, m.0);
        push_bytes(&mut out, seg.as_slice());
        out.push(91u8);
        out.push(91u8);
        push_bytes(&mut out, nb);
        let rest = group_bytes(bytes, g);
        push_bytes(&mut out, rest.as_slice());
        proof {
            assert(cv[k as int] == crate::pattern::groups_view(caps@[k as int]));
            assert(cv[k as int].len() == g@.len());
            assert(cv[k as int][0] == crate::pattern::span_view(g@[0]));
            let gg = if cv[k as int].len() > 1 {
                cv[k as int][1]
            } else {
                None
            };
            if g@.len() > 1 {
                assert(cv[k as int][1] == crate::pattern::span_view(g@[1]));
            }
            assert(out@ =~= before + bytes@.subrange(pos as int, m.0 as int) + seq![91u8, 91u8] + nb@
                + group_text(bytes@, gg));
        }
        pos = m.1;
        k = k + 1;
    }
    let tail = byte_range(bytes, pos, n);
    push_bytes(&mut out, tail.as_slice());
    from_utf8_lossy(out.as_slice())
}

// ── Entity linking ──────────────────────────────────────────────────────

/// `(entity index, name)` for the names of entity `i` (its title, then its
/// aliases), trimmed and kept when at least three bytes long.
pub open spec fn names_of(i: int, title: Seq<char>, aliases: Seq<Seq<char>>) -> Seq<(int, Seq<char>)>
    decreases aliases.len(),
{
    if aliases.len() == 0 {
        if vstd::utf8::encode_utf8(trim(title)).len() >= 3 {
            seq![(i, trim(title))]
        } else {
            seq![]
        }
    } else {
        let prev = names_of(i, title, aliases.drop_last());
        let n = trim(aliases.last());
        if vstd::utf8::encode_utf8(n).len() >= 3 {
            prev.push((i, n))
        } else {
            prev
        }
    }
}

pub open spec fn strings(v: Seq<String>) -> Seq<Seq<char>> {
    v.map_values(|s: String| s@)
}

/// The names of all entities but `self_id`, in entity order.
pub open spec fn all_names(es: Seq<EntityRef>, self_id: Seq<char>) -> Seq<(int, Seq<char>)>
    decreases es.len(),
{
    if es.len() == 0 {
        seq![]
    } else {
        let prev = all_names(es.drop_last(), self_id);
        let e = es.last();
        if e.id@ == self_id {
            prev
        } else {
            prev + names_of(es.len() - 1, e.title@, strings(e.aliases@))
        }
    }
}

/// `x` placed after every name at least as long (in bytes).
pub open spec fn ins_by_len(t: Seq<(int, Seq<char>)>, x: (int, Seq<char>)) -> Seq<(int, Seq<char>)>
    decreases t.len(),
{
    if t.len() == 0 {
        seq![x]
    } else if vstd::utf8::encode_utf8(x.1).len() > vstd::utf8::encode_utf8(t.last().1).len() {
        ins_by_len(t.drop_last(), x).push(t.last())
    } else {
        t.push(x)
    }
}

/// Names sorted longest first, ties in their order.
pub open spec fn sort_by_len(s: Seq<(int, Seq<char>)>) -> Seq<(int, Seq<char>)>
    decreases s.len(),
{
    if s.len() == 0 {
        seq![]
    } else {
        ins_by_len(sort_by_len(s.drop_last()), s.last())
    }
}

/// Text, links made, entities linked, and `(entity, surface)` alias
/// candidates.
pub type LinkState = (Seq<char>, nat, Set<Seq<char>>, Seq<(Seq<char>, Seq<char>)>);

/// The whole-word, case-insensitive pattern for a name.
pub open spec fn name_pattern(name: Seq<char>) -> Seq<char> {
    "(?i)\\b"@ + regex_escaped(name) + "\\b"@
}

/// Whether a surface form is already the entity's title or one of its
/// aliases, ignoring case.
pub open spec fn known_surface(e: EntityRef, surface: Seq<char>) -> bool {
    let s = lowercase(surface);
    lowercase(e.title@) == s || exists|k: int| 0 <= k < e.aliases@.len() && lowercase(#[trigger] e.aliases@[k]@) == s
}

/// The link written for an entity: `[[entities/<purpose>/<slug>|<surface>]]`.
pub open spec fn entity_link(e: EntityRef, surface: Seq<char>) -> Seq<char> {
    "[[entities/"@ + (match e.purpose {
        Some(p) => p@,
        None => "uncategorized"@,
    }) + "/"@ + e.slug@ + "|"@ + surface + "]]"@
}

/// One linking step: the first whole-word match of `name` outside the
/// protected regions is turned into a link to `e`, unless `e` is already
/// linked.
pub open spec fn link_step(st: LinkState, e: EntityRef, name: Seq<char>) -> LinkState {
    let (text, count, linked, cands) = st;
    if linked.contains(e.id@) {
        st
    } else {
        match regex_captures(name_pattern(name), text) {
            Some(caps) if caps.len() > 0 && caps[0].len() > 0 && caps[0][0] is Some => {
                let m = caps[0][0]->0;
                let prot = protected_spec(text);
                if exists|k: int| 0 <= k < prot.len() && (#[trigger] prot[k]).0 <= m.0 < prot[k].1 {
                    st
                } else {
                    let bytes = vstd::utf8::encode_utf8(text);
                    let surface = utf8_lossy(bytes.subrange(m.0, m.1));
                    let cands2 = if known_surface(e, surface) {
                        cands
                    } else {
                        cands.push((e.id@, surface))
                    };
                    let text2 = utf8_lossy(
                        bytes.subrange(0, m.0) + vstd::utf8::encode_utf8(entity_link(e, surface)) + bytes.subrange(
                            m.1,
                            bytes.len() as int,
                        ),
                    );
                    (text2, count + 1, linked.insert(e.id@), cands2)
                }
            },
            _ => st,
        }
    }
}

/// The state after linking the names `ns` in turn.
pub open spec fn link_all(body: Seq<char>, es: Seq<EntityRef>, ns: Seq<(int, Seq<char>)>) -> LinkState
    decreases ns.len(),
{
    if ns.len() == 0 {
        (body, 0, Set::empty(), seq![])
    } else {
        link_step(link_all(body, es, ns.drop_last()), es[ns.last().0], ns.last().1)
    }
}

/// Links the first mention of each entity in `body` (all but `self_id`),
/// longest names first, outside code and existing links: the new text, how
/// many links were made, and the surface forms that are not yet known
/// aliases, as `(entity id, surface)`.
pub open spec fn rewrite_links_spec(body: Seq<char>, es: Seq<EntityRef>, self_id: Seq<char>) -> LinkState {
    link_all(body, es, sort_by_len(all_names(es, self_id)))
}

fn trimmed_if_long(s: &str) -> (r: Option<String>)
    ensures
        match r {
            Some(t) => t@ == trim(s@) && vstd::utf8::encode_utf8(trim(s@)).len() >= 3,
            None => vstd::utf8::encode_utf8(trim(s@)).len() < 3,
        },
{
    let t = trim_str(s);
    if t.as_str().as_bytes().len() >= 3 {
        Some(t)
    } else {
        None
    }
}

proof fn lemma_ins_by_len(t: Seq<(int, Seq<char>)>, x: (int, Seq<char>), pos: int)
    requires
        0 <= pos <= t.len(),
        forall|k: int| pos <= k < t.len() ==> vstd::utf8::encode_utf8(x.1).len() > vstd::utf8::encode_utf8(
            (#[trigger] t[k]).1,
        ).len(),
        pos == 0 || vstd::utf8::encode_utf8(x.1).len() <= vstd::utf8::encode_utf8(t[pos - 1].1).len(),
    ensures
        ins_by_len(t, x) == t.insert(pos, x),
    decreases t.len(),
{
    if t.len() == 0 {
        assert(t.insert(pos, x) =~= seq![x]);
    } else if pos == t.len() {
        assert(t.insert(pos, x) =~= t.push(x));
    } else {
        let d = t.drop_last();
        assert(vstd::utf8::encode_utf8(x.1).len() > vstd::utf8::encode_utf8(t[t.len() - 1].1).len());
        assert forall|k: int| pos <= k < d.len() implies vstd::utf8::encode_utf8(x.1).len()
            > vstd::utf8::encode_utf8((#[trigger] d[k]).1).len() by {
            assert(d[k] == t[k]);
        }
        if pos > 0 {
            assert(d[pos - 1] == t[pos - 1]);
        }
        lemma_ins_by_len(d, x, pos);
        assert(t.insert(pos, x) =~= d.insert(pos, x).push(t.last()));
    }
}

pub open spec fn named_view(v: Seq<(usize, String)>) -> Seq<(int, Seq<char>)> {
    v.map_values(|p: (usize, String)| (p.0 as int, p.1@))
}

fn insert_by_len(v: &mut Vec<(usize, String)>, x: (usize, String)) -> (p: usize)
    ensures
        named_view(final(v)@) == ins_by_len(named_view(old(v)@), (x.0 as int, x.1@)),
        p <= old(v)@.len(),
        final(v)@ == old(v)@.insert(p as int, x),
{
    let ghost t = named_view(v@);
    let ghost xv = (x.0 as int, x.1@);
    let xl = x.1.as_str().as_bytes().len();
    let mut pos: usize = v.len();
    while pos > 0 && xl > v[pos - 1].1.as_str().as_bytes().len()
        invariant
            pos <= v@.len(),
            t == named_view(v@),
            v@ == old(v)@,
            xv == (x.0 as int, x.1@),
            xl == vstd::utf8::encode_utf8(x.1@).len(),
            forall|k: int| pos <= k < t.len() ==> vstd::utf8::encode_utf8(xv.1).len() > vstd::utf8::encode_utf8(
                (#[trigger] t[k]).1,
            ).len(),
        decreases pos,
    {
        assert(t[pos - 1] == (v@[pos - 1].0 as int, v@[pos - 1].1@));
        pos = pos - 1;
    }
    proof {
        if pos > 0 {
            assert(t[pos - 1] == (v@[pos - 1].0 as int, v@[pos - 1].1@));
        }
        lemma_ins_by_len(t, xv, pos as int);
    }
    v.insert(pos, x);
    assert(named_view(v@) =~= t.insert(pos as int, xv));
    pos
}

/// The names to link, longest first (see `rewrite_links_spec`).
fn sorted_names(es: &Vec<EntityRef>, self_id: &str) -> (r: Vec<(usize, String)>)
    ensures
        named_view(r@) == sort_by_len(all_names(es@, self_id@)),
        forall|k: int| 0 <= k < r@.len() ==> (#[trigger] r@[k]).0 < es@.len(),
{
    let mut out: Vec<(usize, String)> = Vec::new();
    let mut i: usize = 0;
    while i < es.len()
        invariant
            i <= es@.len(),
            named_view(out@) == sort_by_len(all_names(es@.subrange(0, i as int), self_id@)),
            forall|k: int| 0 <= k < out@.len() ==> (#[trigger] out@[k]).0 < i,
        decreases es@.len() - i,
    {
        let ghost pre = es@.subrange(0, i as int);
        let ghost cur = es@.subrange(0, i + 1);
        assert(cur.drop_last() =~= pre);
        assert(cur.last() == es@[i as int]);
        let e = &es[i];
        if !str_eq(e.id.as_str(), self_id) {
            let ghost base = all_names(pre, self_id@);
            let ghost av = strings(e.aliases@);
            let ghost ns_full = names_of(i as int, e.title@, av);
            let mut j: usize = 0;
            match trimmed_if_long(e.title.as_str()) {
                Some(t) => {
                    let ghost o = out@;
                    let p = insert_by_len(&mut out, (i, t));
                    assert forall|k: int| 0 <= k < out@.len() implies (#[trigger] out@[k]).0 < i + 1 by {
                        if k < p {
                            assert(out@[k] == o[k]);
                        } else if k > p {
                            assert(out@[k] == o[k - 1]);
                        }
                    }
                },
                None => {},
            }
            proof {
                assert(av.subrange(0, 0).len() == 0);
                lemma_sort_by_len_append(base, names_of(i as int, e.title@, av.subrange(0, 0)));
            }
            while j < e.aliases.len()
                invariant
                    j <= e.aliases@.len(),
                    i < es@.len(),
                    *e == es@[i as int],
                    av == strings(e.aliases@),
                    base == all_names(pre, self_id@),
                    named_view(out@) == sort_by_len(base + names_of(i as int, e.title@, av.subrange(0, j as int))),
                    forall|k: int| 0 <= k < out@.len() ==> (#[trigger] out@[k]).0 < i + 1,
                decreases e.aliases@.len() - j,
            {
                let ghost ta = av.subrange(0, j + 1);
                assert(ta.drop_last() =~= av.subrange(0, j as int));
                assert(ta.last() == e.aliases@[j as int]@);
                let ghost before = base + names_of(i as int, e.title@, av.subrange(0, j as int));
                match trimmed_if_long(e.aliases[j].as_str()) {
                    Some(t) => {
                        let ghost xv = (i as int, t@);
                        assert(base + names_of(i as int, e.title@, ta) =~= before.push(xv));
                        assert(before.push(xv).drop_last() =~= before);
                        let ghost o = out@;
                        let p = insert_by_len(&mut out, (i, t));
                        assert forall|k: int| 0 <= k < out@.len() implies (#[trigger] out@[k]).0 < i + 1 by {
                            if k < p {
                                assert(out@[k] == o[k]);
                            } else if k > p {
                                assert(out@[k] == o[k - 1]);
                            }
                        }
                    },
                    None => {
                        assert(base + names_of(i as int, e.title@, ta) =~= before);
                    },
                }
                j = j + 1;
            }
            assert(av.subrange(0, e.aliases@.len() as int) =~= av);
            assert(all_names(cur, self_id@) == base + ns_full);
        } else {
            assert(all_names(cur, self_id@) == all_names(pre, self_id@));
        }
        i = i + 1;
    }
    assert(es@.subrange(0, es@.len() as int) =~= es@);
    out
}

proof fn lemma_sort_by_len_append(base: Seq<(int, Seq<char>)>, first: Seq<(int, Seq<char>)>)
    requires
        first.len() <= 1,
    ensures
        sort_by_len(base + first) == if first.len() == 0 {
            sort_by_len(base)
        } else {
            ins_by_len(sort_by_len(base), first[0])
        },
{
    if first.len() == 0 {
        assert(base + first =~= base);
    } else {
        assert((base + first).drop_last() =~= base);
        assert((base + first).last() == first[0]);
    }
}

pub open spec fn id_set(v: Seq<String>) -> Set<Seq<char>> {
    strings(v).to_set()
}

pub open spec fn pairs_of(v: Seq<(String, String)>) -> Seq<(Seq<char>, Seq<char>)> {
    v.map_values(|p: (String, String)| (p.0@, p.1@))
}

fn has_string(v: &Vec<String>, x: &str) -> (r: bool)
    ensures
        r == id_set(v@).contains(x@),
{
    let ghost w = strings(v@);
    let mut i: usize = 0;
    while i < v.len()
        invariant
            i <= v@.len(),
            w == strings(v@),
            forall|k: int| 0 <= k < i ==> (#[trigger] w[k]) != x@,
        decreases v@.len() - i,
    {
        if str_eq(v[i].as_str(), x) {
            assert(w[i as int] == x@);
            return true;
        }
        i = i + 1;
    }
    assert(!w.contains(x@));
    false
}

fn is_known_surface(e: &EntityRef, surface: &str) -> (r: bool)
    ensures
        r == known_surface(*e, surface@),
{
    let s = to_lowercase(surface);
    let t = to_lowercase(e.title.as_str());
    if str_eq(t.as_str(), s.as_str()) {
        return true;
    }
    let mut k: usize = 0;
    while k < e.aliases.len()
        invariant
            k <= e.aliases@.len(),
            s@ == lowercase(surface@),
            forall|j: int| 0 <= j < k ==> lowercase((#[trigger] e.aliases@[j])@) != s@,
        decreases e.aliases@.len() - k,
    {
        let a = to_lowercase(e.aliases[k].as_str());
        if str_eq(a.as_str(), s.as_str()) {
            return true;
        }
        k = k + 1;
    }
    false
}

fn entity_link_text(e: &EntityRef, surface: &str) -> (r: String)
    ensures
        r@ == entity_link(*e, surface@),
{
    let mut v: Vec<char> = Vec::new();
    push_str_chars(&mut v, "[[entities/");
    match &e.purpose {
        Some(p) => push_str_chars(&mut v, p.as_str()),
        None => push_str_chars(&mut v, "uncategorized"),
    }
    push_str_chars(&mut v, "/");
    push_str_chars(&mut v, e.slug.as_str());
    push_str_chars(&mut v, "|");
    push_str_chars(&mut v, surface);
    push_str_chars(&mut v, "]]");
    string_of(v.as_slice())
}

fn push_all_bytes(out: &mut Vec<u8>, src: &[u8])
    ensures
        final(out)@ == old(out)@ + src@,
{
    let mut t: usize = 0;
    while t < src.len()
        invariant
            t <= src@.len(),
            out@ == old(out)@ + src@.subrange(0, t as int),
        decreases src@.len() - t,
    {
        out.push(src[t]);
        t = t + 1;
        assert(out@ =~= old(out)@ + src@.subrange(0, t as int));
    }
    assert(src@.subrange(0, src@.len() as int) =~= src@);
}

fn link_one(
    text: &mut String,
    count: &mut usize,
    linked: &mut Vec<String>,
    cands: &mut Vec<(String, String)>,
    e: &EntityRef,
    name: &str,
)
    requires
        *old(count) < usize::MAX,
    ensures
        (final(text)@, *final(count) as nat, id_set(final(linked)@), pairs_of(final(cands)@)) == link_step(
            (old(text)@, *old(count) as nat, id_set(old(linked)@), pairs_of(old(cands)@)),
            *e,
            name@,
        ),
        *final(count) <= *old(count) + 1,
{
    if has_string(linked, e.id.as_str()) {
        return;
    }
    let esc = escape(name);
    let mut pv: Vec<char> = Vec::new();
    push_str_chars(&mut pv, "(?i)\\b");
    push_str_chars(&mut pv, esc.as_str());
    push_str_chars(&mut pv, "\\b");
    let pat = string_of(pv.as_slice());
    assert(pat@ == name_pattern(name@));
    let caps = match captures_all(pat.as_str(), text.as_str()) {
        Some(c) => c,
        None => {
            return;
        },
    };
    let ghost cv = matches_view(caps@);
    if caps.len() == 0 || caps[0].len() == 0 {
        assert(cv.len() == 0 || cv[0].len() == 0);
        return;
    }
    let m: Span = match caps[0][0] {
        Some(m) => m,
        None => {
            assert(cv[0][0] is None);
            return;
        },
    };
    let bytes = text.as_str().as_bytes();
    let n = bytes.len();
    proof {
        lemma_match_at(caps@, n as int, 0);
        assert(caps@[0]@[0] == Some(m));
        assert(cv[0][0] == Some((m.0 as int, m.1 as int)));
    }
    let prot = protected_ranges(text.as_str());
    if in_protected(m.0, prot.as_slice()) {
        proof {
            let pv = protected_spec(text@);
            let k = choose|k: int| 0 <= k < prot@.len() && (#[trigger] prot@[k]).0 <= m.0 < prot@[k].1;
            assert(pv[k] == (prot@[k].0 as int, prot@[k].1 as int));
        }
        return;
    }
    proof {
        let pv = protected_spec(text@);
        assert forall|k: int| 0 <= k < pv.len() implies !((#[trigger] pv[k]).0 <= m.0 < pv[k].1) by {
            assert(pv[k] == (prot@[k].0 as int, prot@[k].1 as int));
        }
    }
    let piece = byte_range(bytes, m.0, m.1);
    let surface = from_utf8_lossy(piece.as_slice());
    let link = entity_link_text(e, surface.as_str());
    let mut nb: Vec<u8> = Vec::new();
    let head = byte_range(bytes, 0, m.0);
    push_all_bytes(&mut nb, head.as_slice());
    push_all_bytes(&mut nb, link.as_str().as_bytes());
    let tail = byte_range(bytes, m.1, n);
    push_all_bytes(&mut nb, tail.as_slice());
    let new_text = from_utf8_lossy(nb.as_slice());
    if !is_known_surface(e, surface.as_str()) {
        let ghost pc = pairs_of(cands@);
        cands.push((e.id.clone(), surface));
        assert(pairs_of(cands@) =~= pc.push((e.id@, utf8_lossy(bytes@.subrange(m.0 as int, m.1 as int)))));
    }
    let ghost ids = strings(linked@);
    linked.push(e.id.clone());
    proof {
        assert(strings(linked@) =~= ids.push(e.id@));
        ids.lemma_push_to_set_commute(e.id@);
    }
    *text = new_text;
    *count = *count + 1;
}

/// Links entity mentions in a document body (see `rewrite_links_spec`).
pub fn rewrite_links(body: &str, entities: &Vec<EntityRef>, self_id: &str) -> (r: (String, usize, Vec<(String, String)>))
    ensures
        r.0@ == rewrite_links_spec(body@, entities@, self_id@).0,
        r.1 as nat == rewrite_links_spec(body@, entities@, self_id@).1,
        pairs_of(r.2@) == rewrite_links_spec(body@, entities@, self_id@).3,
{
    let ns = sorted_names(entities, self_id);
    let ghost nv = named_view(ns@);
    let mut text = string_of(chars_of(body).as_slice());
    let mut count: usize = 0;
    let mut linked: Vec<String> = Vec::new();
    let mut cands: Vec<(String, String)> = Vec::new();
    assert(id_set(linked@) =~= Set::<Seq<char>>::empty());
    assert(pairs_of(cands@) =~= Seq::<(Seq<char>, Seq<char>)>::empty());
    let mut k: usize = 0;
    while k < ns.len()
        invariant
            k <= ns@.len(),
            nv == named_view(ns@),
            forall|j: int| 0 <= j < ns@.len() ==> (#[trigger] ns@[j]).0 < entities@.len(),
            count <= k,
            (text@, count as nat, id_set(linked@), pairs_of(cands@)) == link_all(body@, entities@, nv.subrange(0, k as int)),
        decreases ns@.len() - k,
    {
        let ghost t = nv.subrange(0, k + 1);
        assert(t.drop_last() =~= nv.subrange(0, k as int));
        assert(t.last() == (ns@[k as int].0 as int, ns@[k as int].1@));
        let idx = ns[k].0;
        link_one(&mut text, &mut count, &mut linked, &mut cands, &entities[idx], ns[k].1.as_str());
        k = k + 1;
    }
    assert(nv.subrange(0, ns@.len() as int) =~= nv);
    (text, count, cands)
}

// ── Wikilink targets ────────────────────────────────────────────────────

/// A wikilink, capturing its target before any `#anchor` or `|alias`.
pub open spec fn link_target_pattern() -> Seq<char> {
    "\\[\\[([^\\]|#]+?)(?:[#|][^\\]]*)?\\]\\]"@
}

/// `(match start, trimmed target)` of the wikilinks among matches `..n`
/// that are not in code and have a non-empty target.
pub open spec fn targets_upto(bytes: Seq<u8>, caps: Seq<Seq<Option<(int, int)>>>, code: Seq<(int, int)>, n: int) -> Seq<
    (int, Seq<char>),
>
    decreases n,
{
    if n <= 0 || n > caps.len() {
        seq![]
    } else {
        let prev = targets_upto(bytes, caps, code, n - 1);
        let g = caps[n - 1];
        if g.len() == 0 || g[0] is None {
            prev
        } else {
            let st = (g[0]->0).0;
            if exists|k: int| 0 <= k < code.len() && (#[trigger] code[k]).0 <= st < code[k].1 {
                prev
            } else if g.len() > 1 && g[1] is Some {
                let t = trim(utf8_lossy(bytes.subrange((g[1]->0).0, (g[1]->0).1)));
                if t.len() > 0 {
                    prev.push((st, t))
                } else {
                    prev
                }
            } else {
                prev
            }
        }
    }
}

/// The wikilinks of a body outside code: where each starts (in bytes) and
/// its trimmed target, when not empty.
pub open spec fn wikilink_targets_spec(body: Seq<char>) -> Seq<(int, Seq<char>)> {
    match regex_captures(link_target_pattern(), body) {
        Some(caps) => targets_upto(vstd::utf8::encode_utf8(body), caps, code_protected_spec(body), caps.len() as int),
        None => seq![],
    }
}

pub open spec fn targets_view(v: Seq<(usize, String)>) -> Seq<(int, Seq<char>)> {
    v.map_values(|p: (usize, String)| (p.0 as int, p.1@))
}

/// The wikilinks of a body outside code (see `wikilink_targets_spec`).
pub fn wikilink_targets(body: &str) -> (r: Vec<(usize, String)>)
    ensures
        targets_view(r@) == wikilink_targets_spec(body@),
{
    let mut out: Vec<(usize, String)> = Vec::new();
    assert(targets_view(out@) =~= Seq::<(int, Seq<char>)>::empty());
    let caps = match captures_all("\\[\\[([^\\]|#]+?)(?:[#|][^\\]]*)?\\]\\]", body) {
        Some(c) => c,
        None => {
            return out;
        },
    };
    let ghost cv = matches_view(caps@);
    let code = code_protected_ranges(body);
    let ghost codev = code_protected_spec(body@);
    let bytes = body.as_bytes();
    let n = bytes.len();
    let mut k: usize = 0;
    while k < caps.len()
        invariant
            k <= caps@.len(),
            cv == matches_view(caps@),
            matches_wf(caps@, n as int),
            bytes@ == body.spec_bytes(),
            n == bytes@.len(),
            spans_view(code@) == codev,
            targets_view(out@) == targets_upto(bytes@, cv, codev, k as int),
        decreases caps@.len() - k,
    {
        proof {
            lemma_match_at(caps@, n as int, k as int);
        }
        let g = &caps[k];
        assert(cv[k as int] == crate::pattern::groups_view(*g));
        let ghost before = targets_view(out@);
        match g[0] {
            None => {},
            Some(m) => {
                assert(cv[k as int][0] == Some((m.0 as int, m.1 as int)));
                if in_protected(m.0, code.as_slice()) {
                    proof {
                        let j = choose|j: int| 0 <= j < code@.len() && (#[trigger] code@[j]).0 <= m.0 < code@[j].1;
                        assert(codev[j] == (code@[j].0 as int, code@[j].1 as int));
                    }
                } else {
                    proof {
                        assert forall|j: int| 0 <= j < codev.len() implies !((#[trigger] codev[j]).0 <= m.0
                            < codev[j].1) by {
                            assert(codev[j] == (code@[j].0 as int, code@[j].1 as int));
                        }
                    }
                    if g.len() > 1 {
                        match g[1] {
                            Some((a, b)) => {
                                assert(cv[k as int][1] == Some((a as int, b as int)));
                                assert(g@[1] matches Some((x, y)) ==> x <= y <= n);
                                let piece = byte_range(bytes, a, b);
                                let t = trim_str(from_utf8_lossy(piece.as_slice()).as_str());
                                if t.as_str().as_bytes().len() > 0 {
                                    out.push((m.0, t));
                                    assert(targets_view(out@) =~= before.push((m.0 as int, t@)));
                                } else {
                                    assert(t@.len() == 0) by {
                                        if t@.len() > 0 {
                                            assert(vstd::utf8::encode_utf8(t@).len() > 0) by {
                                                crate::text::lemma_encode_concat(seq![t@[0]], t@.drop_first());
                                                assert(seq![t@[0]] + t@.drop_first() =~= t@);
                                            }
                                        }
                                    }
                                }
                            },
                            None => {
                                assert(cv[k as int][1] is None);
                            },
                        }
                    }
                }
            },
        }
        k = k + 1;
    }
    out
}

/// Byte offset of the first non-whitespace character, if any.
pub open spec fn first_non_ws(s: Seq<char>) -> Option<int>
    decreases s.len(),
{
    if s.len() == 0 {
        None
    } else if !is_ws(s[0]) {
        Some(0)
    } else {
        match first_non_ws(s.drop_first()) {
            Some(i) => Some(i + vstd::utf8::encode_utf8(seq![s[0]]).len()),
            None => None,
        }
    }
}

/// Byte offset of the first non-whitespace character of `body`; a
/// wikilink that starts there opens the body.
pub fn body_start_offset(body: &str) -> (r: Option<usize>)
    ensures
        match r {
            Some(i) => first_non_ws(body@) == Some(i as int),
            None => first_non_ws(body@) is None,
        },
{
    let cs = chars_of(body);
    let mut i: usize = 0;
    while i < cs.len() && char_is_whitespace(cs[i])
        invariant
            i <= cs@.len(),
            cs@ == body@,
            forall|k: int| 0 <= k < i ==> is_ws(#[trigger] cs@[k]),
        decreases cs@.len() - i,
    {
        i = i + 1;
    }
    if i == cs.len() {
        proof {
            lemma_first_non_ws_none(cs@);
        }
        return None;
    }
    let prefix = char_range(cs.as_slice(), 0, i);
    let ps = string_of(prefix.as_slice());
    let off = ps.as_str().as_bytes().len();
    proof {
        lemma_first_non_ws_at(cs@, i as int);
    }
    Some(off)
}

proof fn lemma_first_non_ws_none(s: Seq<char>)
    requires
        forall|k: int| 0 <= k < s.len() ==> is_ws(#[trigger] s[k]),
    ensures
        first_non_ws(s) is None,
    decreases s.len(),
{
    if s.len() > 0 {
        assert forall|k: int| 0 <= k < s.drop_first().len() implies is_ws(#[trigger] s.drop_first()[k]) by {
            assert(s.drop_first()[k] == s[k + 1]);
        }
        lemma_first_non_ws_none(s.drop_first());
    }
}

proof fn lemma_first_non_ws_at(s: Seq<char>, i: int)
    requires
        0 <= i < s.len(),
        forall|k: int| 0 <= k < i ==> is_ws(#[trigger] s[k]),
        !is_ws(s[i]),
    ensures
        first_non_ws(s) == Some(vstd::utf8::encode_utf8(s.subrange(0, i)).len() as int),
    decreases i,
{
    if i == 0 {
        assert(s.subrange(0, 0) =~= Seq::<char>::empty());
    } else {
        let d = s.drop_first();
        assert forall|k: int| 0 <= k < i - 1 implies is_ws(#[trigger] d[k]) by {
            assert(d[k] == s[k + 1]);
        }
        lemma_first_non_ws_at(d, i - 1);
        assert(s.subrange(0, i) =~= seq![s[0]] + d.subrange(0, i - 1));
        crate::text::lemma_encode_concat(seq![s[0]], d.subrange(0, i - 1));
    }
}

/// Document kinds that wikilinks may point at.
pub open spec fn link_doc_types() -> Seq<Seq<char>> {
    seq!["thoughts"@, "entities"@, "conclusions"@, "reasons"@, "questions"@]
}

/// The document kinds a bare wikilink id is looked up in, in order.
pub fn link_doc_kinds() -> (r: Vec<&'static str>)
    ensures
        r@.map_values(|s: &str| s@) == link_doc_types(),
{
    let v = vec!["thoughts", "entities", "conclusions", "reasons", "questions"];
    assert(v@.map_values(|s: &str| s@) =~= link_doc_types());
    v
}

/// How a wikilink target is resolved.
#[derive(Debug, Clone, PartialEq, Eq)]
pub enum TargetRef {
    /// A bare id: look it up in each document kind in turn.
    AnyKind(String),
    /// `<kind>/<id>` with a known kind: look it up there.
    Typed(String, String),
    /// `entities/<purpose>/<slug>` naming a known entity.
    Entity(String),
    /// Nothing to look up.
    Unresolved,
}

/// The first entity with this slug.
pub open spec fn entity_by_slug(es: Seq<EntityRef>, slug: Seq<char>) -> Option<Seq<char>>
    decreases es.len(),
{
    if es.len() == 0 {
        None
    } else if es[0].slug@ == slug {
        Some(es[0].id@)
    } else {
        entity_by_slug(es.drop_first(), slug)
    }
}

/// A resolution as a value of the model.
pub enum TargetRefView {
    AnyKind(Seq<char>),
    Typed(Seq<char>, Seq<char>),
    Entity(Seq<char>),
    Unresolved,
}

pub open spec fn target_ref_view(r: TargetRef) -> TargetRefView {
    match r {
        TargetRef::AnyKind(id) => TargetRefView::AnyKind(id@),
        TargetRef::Typed(k, id) => TargetRefView::Typed(k@, id@),
        TargetRef::Entity(id) => TargetRefView::Entity(id@),
        TargetRef::Unresolved => TargetRefView::Unresolved,
    }
}

/// How a target is resolved from its non-empty `/`-separated parts: one
/// part is an id of any kind; two are a kind (when known) and an id; three
/// starting with `entities` name an entity by its slug (the third part).
pub open spec fn target_ref_spec(target: Seq<char>, es: Seq<EntityRef>) -> TargetRefView {
    let ps = nonempty_pieces(split_on(target, '/'));
    if ps.len() == 1 {
        TargetRefView::AnyKind(ps[0])
    } else if ps.len() == 2 {
        if link_doc_types().contains(ps[0]) {
            TargetRefView::Typed(ps[0], ps[1])
        } else {
            TargetRefView::Unresolved
        }
    } else if ps.len() == 3 {
        if ps[0] == "entities"@ {
            match entity_by_slug(es, ps[2]) {
                Some(id) => TargetRefView::Entity(id),
                None => TargetRefView::Unresolved,
            }
        } else {
            TargetRefView::Unresolved
        }
    } else {
        TargetRefView::Unresolved
    }
}

fn find_entity_slug(es: &Vec<EntityRef>, slug: &str) -> (r: Option<String>)
    ensures
        match r {
            Some(id) => entity_by_slug(es@, slug@) == Some(id@),
            None => entity_by_slug(es@, slug@) is None,
        },
{
    let mut i: usize = 0;
    assert(es@.subrange(0, es@.len() as int) =~= es@);
    while i < es.len()
        invariant
            i <= es@.len(),
            entity_by_slug(es@, slug@) == entity_by_slug(es@.subrange(i as int, es@.len() as int), slug@),
        decreases es@.len() - i,
    {
        let ghost t = es@.subrange(i as int, es@.len() as int);
        assert(t.drop_first() =~= es@.subrange(i + 1, es@.len() as int));
        assert(t[0] == es@[i as int]);
        if str_eq(es[i].slug.as_str(), slug) {
            return Some(es[i].id.clone());
        }
        i = i + 1;
    }
    None
}

/// How a wikilink target is resolved (see `target_ref_spec`).
pub fn resolve_target_ref(target: &str, entities: &Vec<EntityRef>) -> (r: TargetRef)
    ensures
        target_ref_view(r) == target_ref_spec(target@, entities@),
{
    let ps = split_nonempty(target, '/');
    let ghost pv = ps@.map_values(|s: String| s@);
    assert(pv == nonempty_pieces(split_on(target@, '/')));
    if ps.len() == 1 {
        assert(pv[0] == ps@[0]@);
        return TargetRef::AnyKind(ps[0].clone());
    }
    if ps.len() == 2 {
        assert(pv[0] == ps@[0]@ && pv[1] == ps@[1]@);
        proof {
            reveal_strlit("thoughts");
            reveal_strlit("entities");
            reveal_strlit("conclusions");
            reveal_strlit("reasons");
            reveal_strlit("questions");
        }
        let k = ps[0].as_str();
        let known = str_eq(k, "thoughts") || str_eq(k, "entities") || str_eq(k, "conclusions") || str_eq(k, "reasons")
            || str_eq(k, "questions");
        proof {
            let d = link_doc_types();
            if known {
                if pv[0] == "thoughts"@ {
                    assert(d[0] == pv[0]);
                } else if pv[0] == "entities"@ {
                    assert(d[1] == pv[0]);
                } else if pv[0] == "conclusions"@ {
                    assert(d[2] == pv[0]);
                } else if pv[0] == "reasons"@ {
                    assert(d[3] == pv[0]);
                } else {
                    assert(d[4] == pv[0]);
                }
            } else {
                assert forall|j: int| 0 <= j < d.len() implies d[j] != pv[0] by {
                    assert(d[0] == "thoughts"@ && d[1] == "entities"@ && d[2] == "conclusions"@ && d[3]
                        == "reasons"@ && d[4] == "questions"@);
                }
            }
        }
        if known {
            return TargetRef::Typed(ps[0].clone(), ps[1].clone());
        }
        return TargetRef::Unresolved;
    }
    if ps.len() == 3 {
        assert(pv[0] == ps@[0]@ && pv[2] == ps@[2]@);
        if str_eq(ps[0].as_str(), "entities") {
            return match find_entity_slug(entities, ps[2].as_str()) {
                Some(id) => TargetRef::Entity(id),
                None => TargetRef::Unresolved,
            };
        }
        return TargetRef::Unresolved;
    }
    TargetRef::Unresolved
}

/// Where the purpose of a linked document comes from, by the link target's
/// `/`-separated parts (empty ones included): the middle of three parts,
/// or the document named by two parts.
pub enum PurposeRef {
    Direct(String),
    Lookup(String, String),
    Unknown,
}

pub open spec fn purpose_ref_spec(target: Seq<char>) -> (nat, Seq<char>, Seq<char>) {
    let ps = split_on(trim(target), '/');
    if trim(target).len() == 0 {
        (0, seq![], seq![])
    } else if ps.len() == 3 {
        (1, ps[1], seq![])
    } else if ps.len() == 2 {
        (2, ps[0], ps[1])
    } else {
        (0, seq![], seq![])
    }
}

pub open spec fn purpose_ref_view(r: PurposeRef) -> (nat, Seq<char>, Seq<char>) {
    match r {
        PurposeRef::Direct(p) => (1, p@, seq![]),
        PurposeRef::Lookup(a, b) => (2, a@, b@),
        PurposeRef::Unknown => (0, seq![], seq![]),
    }
}

/// Where the purpose of a link's target comes from (see
/// `purpose_ref_spec`).
pub fn purpose_ref(target: &str) -> (r: PurposeRef)
    ensures
        purpose_ref_view(r) == purpose_ref_spec(target@),
{
    let t = trim_str(target);
    if t.as_str().as_bytes().len() == 0 {
        assert(t@.len() == 0) by {
            if t@.len() > 0 {
                crate::text::lemma_encode_concat(seq![t@[0]], t@.drop_first());
                assert(seq![t@[0]] + t@.drop_first() =~= t@);
            }
        }
        return PurposeRef::Unknown;
    }
    let ps = split_all(t.as_str(), '/');
    let ghost pv = ps@.map_values(|s: String| s@);
    if ps.len() == 3 {
        assert(pv[1] == ps@[1]@);
        return PurposeRef::Direct(ps[1].clone());
    }
    if ps.len() == 2 {
        assert(pv[0] == ps@[0]@ && pv[1] == ps@[1]@);
        return PurposeRef::Lookup(ps[0].clone(), ps[1].clone());
    }
    PurposeRef::Unknown
}

/// The purpose sources of the wikilinks of a body, in order, known ones
/// only.
pub open spec fn purpose_refs_upto(bytes: Seq<u8>, caps: Seq<Seq<Option<(int, int)>>>, n: int) -> Seq<
    (nat, Seq<char>, Seq<char>),
>
    decreases n,
{
    if n <= 0 || n > caps.len() {
        seq![]
    } else {
        let prev = purpose_refs_upto(bytes, caps, n - 1);
        let g = caps[n - 1];
        if g.len() > 1 && g[1] is Some {
            let r = purpose_ref_spec(utf8_lossy(bytes.subrange((g[1]->0).0, (g[1]->0).1)));
            if r.0 != 0 {
                prev.push(r)
            } else {
                prev
            }
        } else {
            prev
        }
    }
}

pub open spec fn link_purpose_refs_spec(body: Seq<char>) -> Seq<(nat, Seq<char>, Seq<char>)> {
    match regex_captures(link_target_pattern(), body) {
        Some(caps) => purpose_refs_upto(vstd::utf8::encode_utf8(body), caps, caps.len() as int),
        None => seq![],
    }
}

/// Where the purposes of the documents a body links to come from (see
/// `purpose_ref_spec`), one entry per wikilink whose target gives one.
pub fn link_purpose_refs(body: &str) -> (r: Vec<PurposeRef>)
    ensures
        r@.map_values(|x: PurposeRef| purpose_ref_view(x)) == link_purpose_refs_spec(body@),
{
    let mut out: Vec<PurposeRef> = Vec::new();
    assert(out@.map_values(|x: PurposeRef| purpose_ref_view(x)) =~= Seq::<(nat, Seq<char>, Seq<char>)>::empty());
    let caps = match captures_all("\\[\\[([^\\]|#]+?)(?:[#|][^\\]]*)?\\]\\]", body) {
        Some(c) => c,
        None => {
            return out;
        },
    };
    let ghost cv = matches_view(caps@);
    let bytes = body.as_bytes();
    let n = bytes.len();
    let mut k: usize = 0;
    while k < caps.len()
        invariant
            k <= caps@.len(),
            cv == matches_view(caps@),
            matches_wf(caps@, n as int),
            bytes@ == body.spec_bytes(),
            n == bytes@.len(),
            out@.map_values(|x: PurposeRef| purpose_ref_view(x)) == purpose_refs_upto(bytes@, cv, k as int),
        decreases caps@.len() - k,
    {
        proof {
            lemma_match_at(caps@, n as int, k as int);
        }
        let g = &caps[k];
        assert(cv[k as int] == crate::pattern::groups_view(*g));
        let ghost before = out@.map_values(|x: PurposeRef| purpose_ref_view(x));
        if g.len() > 1 {
            match g[1] {
                Some((a, b)) => {
                    assert(cv[k as int][1] == Some((a as int, b as int)));
                    assert(g@[1] matches Some((x, y)) ==> x <= y <= n);
                    let piece = byte_range(bytes, a, b);
                    let t = from_utf8_lossy(piece.as_slice());
                    let r = purpose_ref(t.as_str());
                    match r {
                        PurposeRef::Unknown => {},
                        _ => {
                            out.push(r);
                            assert(out@.map_values(|x: PurposeRef| purpose_ref_view(x)) =~= before.push(
                                purpose_ref_spec(t@),
                            ));
                        },
                    }
                },
                None => {
                    assert(cv[k as int][1] is None);
                },
            }
        }
        k = k + 1;
    }
    out
}

/// The edges to mint from resolved wikilinks `(target, kind)`, in order:
/// those not already present and not minted earlier in the same pass.
pub open spec fn new_edges(cands: Seq<(Seq<char>, Seq<char>)>, existing: Seq<(Seq<char>, Seq<char>)>) -> Seq<
    (Seq<char>, Seq<char>),
>
    decreases cands.len(),
{
    if cands.len() == 0 {
        seq![]
    } else {
        let prev = new_edges(cands.drop_last(), existing);
        let c = cands.last();
        if existing.contains(c) || cands.drop_last().contains(c) {
            prev
        } else {
            prev.push(c)
        }
    }
}

fn has_pair(v: &Vec<(String, String)>, upto: usize, x: &(String, String)) -> (r: bool)
    requires
        upto <= v@.len(),
    ensures
        r == pairs_of(v@).subrange(0, upto as int).contains((x.0@, x.1@)),
{
    let ghost w = pairs_of(v@).subrange(0, upto as int);
    let mut i: usize = 0;
    while i < upto
        invariant
            i <= upto <= v@.len(),
            w == pairs_of(v@).subrange(0, upto as int),
            forall|k: int| 0 <= k < i ==> (#[trigger] w[k]) != (x.0@, x.1@),
        decreases upto - i,
    {
        if str_eq(v[i].0.as_str(), x.0.as_str()) && str_eq(v[i].1.as_str(), x.1.as_str()) {
            assert(w[i as int] == (x.0@, x.1@));
            return true;
        }
        assert(w[i as int] == (v@[i as int].0@, v@[i as int].1@));
        i = i + 1;
    }
    false
}

/// The edges to mint (see `new_edges`).
pub fn plan_edges(cands: &Vec<(String, String)>, existing: &Vec<(String, String)>) -> (r: Vec<(String, String)>)
    ensures
        pairs_of(r@) == new_edges(pairs_of(cands@), pairs_of(existing@)),
{
    let ghost cv = pairs_of(cands@);
    let ghost ev = pairs_of(existing@);
    let mut out: Vec<(String, String)> = Vec::new();
    let mut i: usize = 0;
    while i < cands.len()
        invariant
            i <= cands@.len(),
            cv == pairs_of(cands@),
            ev == pairs_of(existing@),
            pairs_of(out@) == new_edges(cv.subrange(0, i as int), ev),
        decreases cands@.len() - i,
    {
        let ghost t = cv.subrange(0, i + 1);
        assert(t.drop_last() =~= cv.subrange(0, i as int));
        assert(t.last() == (cands@[i as int].0@, cands@[i as int].1@));
        assert(ev.subrange(0, existing@.len() as int) =~= ev);
        let dup = has_pair(existing, existing.len(), &cands[i]) || has_pair(cands, i, &cands[i]);
        if !dup {
            let ghost before = pairs_of(out@);
            out.push((cands[i].0.clone(), cands[i].1.clone()));
            assert(pairs_of(out@) =~= before.push(t.last()));
        }
        i = i + 1;
    }
    assert(cv.subrange(0, cands@.len() as int) =~= cv);
    out
}

proof fn lemma_new_edges_prefix(cands: Seq<(Seq<char>, Seq<char>)>, existing: Seq<(Seq<char>, Seq<char>)>, x: (
    Seq<char>,
    Seq<char>,
))
    requires
        new_edges(cands.drop_last(), existing).contains(x),
        cands.len() > 0,
    ensures
        new_edges(cands, existing).contains(x),
{
    let prev = new_edges(cands.drop_last(), existing);
    let i = choose|i: int| 0 <= i < prev.len() && prev[i] == x;
    if !(existing.contains(cands.last()) || cands.drop_last().contains(cands.last())) {
        assert(prev.push(cands.last())[i] == x);
    }
}

proof fn lemma_new_edges_cover(cands: Seq<(Seq<char>, Seq<char>)>, existing: Seq<(Seq<char>, Seq<char>)>)
    ensures
        forall|i: int|
            0 <= i < cands.len() ==> existing.contains(#[trigger] cands[i]) || new_edges(cands, existing).contains(
                cands[i],
            ),
    decreases cands.len(),
{
    if cands.len() > 0 {
        let d = cands.drop_last();
        let c = cands.last();
        lemma_new_edges_cover(d, existing);
        assert forall|i: int| 0 <= i < cands.len() implies existing.contains(#[trigger] cands[i])
            || new_edges(cands, existing).contains(cands[i]) by {
            if i < cands.len() - 1 {
                assert(cands[i] == d[i]);
                if !existing.contains(d[i]) {
                    lemma_new_edges_prefix(cands, existing, d[i]);
                }
            } else if !existing.contains(c) {
                if d.contains(c) {
                    let j = choose|j: int| 0 <= j < d.len() && d[j] == c;
                    assert(existing.contains(d[j]) || new_edges(d, existing).contains(d[j]));
                    lemma_new_edges_prefix(cands, existing, c);
                } else {
                    let n = new_edges(d, existing);
                    assert(n.push(c)[n.len() as int] == c);
                }
            }
        }
    }
}

proof fn lemma_new_edges_none(cands: Seq<(Seq<char>, Seq<char>)>, existing: Seq<(Seq<char>, Seq<char>)>)
    requires
        forall|i: int| 0 <= i < cands.len() ==> existing.contains(#[trigger] cands[i]),
    ensures
        new_edges(cands, existing).len() == 0,
    decreases cands.len(),
{
    if cands.len() > 0 {
        let d = cands.drop_last();
        assert forall|i: int| 0 <= i < d.len() implies existing.contains(#[trigger] d[i]) by {
            assert(d[i] == cands[i]);
        }
        lemma_new_edges_none(d, existing);
        assert(existing.contains(cands[cands.len() - 1]));
    }
}

/// Linking the same body again mints nothing: once the edges that a pass
/// minted are present, the same resolved wikilinks plan no edge.
pub proof fn law_relink_adds_nothing(cands: Seq<(Seq<char>, Seq<char>)>, existing: Seq<(Seq<char>, Seq<char>)>)
    ensures
        new_edges(cands, existing + new_edges(cands, existing)).len() == 0,
{
    let n = new_edges(cands, existing);
    let all = existing + n;
    lemma_new_edges_cover(cands, existing);
    assert forall|i: int| 0 <= i < cands.len() implies all.contains(#[trigger] cands[i]) by {
        if existing.contains(cands[i]) {
            let j = choose|j: int| 0 <= j < existing.len() && existing[j] == cands[i];
            assert(all[j] == cands[i]);
        } else {
            let j = choose|j: int| 0 <= j < n.len() && n[j] == cands[i];
            assert(all[existing.len() + j] == cands[i]);
        }
    }
    lemma_new_edges_none(cands, all);
}

/// Where a wikilink led once looked up in the vault: the target
/// document's type, id and purpose (when it has one).
#[derive(Debug, Clone)]
pub struct ResolvedLink {
    pub doc_type: String,
    pub id: String,
    pub purpose: Option<String>,
}

pub open spec fn opt_view(o: Option<String>) -> Option<Seq<char>> {
    match o {
        Some(s) => Some(s@),
        None => None,
    }
}

/// The lookup of link `i`: `resolved[i]`, or none past its end.
pub open spec fn resolved_at(resolved: Seq<Option<ResolvedLink>>, i: int) -> Option<ResolvedLink> {
    if 0 <= i < resolved.len() {
        resolved[i]
    } else {
        None
    }
}

/// The edges `(target id, kind)` the first `n` wikilinks `links` stand for,
/// in order: a link that did not resolve, or that leads back to the
/// document itself, stands for none; the others are classified by
/// `edge_kind_spec`, a link that starts at `body_start` opening the body.
pub open spec fn link_candidates(
    links: Seq<(int, Seq<char>)>,
    resolved: Seq<Option<ResolvedLink>>,
    n: int,
    body_start: Option<int>,
    self_id: Seq<char>,
    self_purpose: Option<Seq<char>>,
) -> Seq<(Seq<char>, Seq<char>)>
    decreases n,
{
    if n <= 0 {
        seq![]
    } else {
        let prev = link_candidates(links, resolved, n - 1, body_start, self_id, self_purpose);
        match resolved_at(resolved, n - 1) {
            Some(t) => if t.id@ == self_id {
                prev
            } else {
                prev.push(
                    (
                        t.id@,
                        edge_kind_spec(
                            body_start == Some(links[n - 1].0),
                            t.doc_type@,
                            self_purpose,
                            opt_view(t.purpose),
                        ),
                    ),
                )
            },
            None => prev,
        }
    }
}

/// The edges to mint for the wikilinks of `body` (see `wikilink_targets`),
/// where `resolved[i]` is what the `i`-th of them led to in the vault, and
/// `existing` are the edges the document already has: the edges of
/// `link_candidates` not already present nor minted earlier in the pass
/// (see `new_edges`; by `law_relink_adds_nothing` a second pass over the
/// same body mints nothing).
pub fn wikilink_edges(
    body: &str,
    self_id: &str,
    self_purpose: Option<&str>,
    resolved: &Vec<Option<ResolvedLink>>,
    existing: &Vec<(String, String)>,
) -> (r: Vec<(String, String)>)
    ensures
        pairs_of(r@) == new_edges(
            link_candidates(
                wikilink_targets_spec(body@),
                resolved@,
                wikilink_targets_spec(body@).len() as int,
                first_non_ws(body@),
                self_id@,
                match self_purpose {
                    Some(p) => Some(p@),
                    None => None,
                },
            ),
            pairs_of(existing@),
        ),
{
    let links = wikilink_targets(body);
    let start = body_start_offset(body);
    let ghost lv = targets_view(links@);
    let ghost sp = match self_purpose {
        Some(p) => Some(p@),
        None => None,
    };
    let ghost bs = match start {
        Some(i) => Some(i as int),
        None => None,
    };
    assert(bs == first_non_ws(body@));
    let mut cands: Vec<(String, String)> = Vec::new();
    let mut i: usize = 0;
    while i < links.len()
        invariant
            i <= links@.len(),
            lv == targets_view(links@),
            bs == match start {
                Some(b) => Some(b as int),
                None => None,
            },
            sp == match self_purpose {
                Some(p) => Some(p@),
                None => None,
            },
            pairs_of(cands@) == link_candidates(lv, resolved@, i as int, bs, self_id@, sp),
        decreases links@.len() - i,
    {
        assert(lv[i as int] == (links@[i as int].0 as int, links@[i as int].1@));
        if i < resolved.len() {
            match &resolved[i] {
                Some(t) => {
                    if !str_eq(t.id.as_str(), self_id) {
                        let li = links[i].0;
                        assert(li as int == lv[i as int].0);
                        let at_start = match start {
                            Some(b) => {
                                assert(bs == Some(b as int));
                                b == li
                            },
                            None => false,
                        };
                        let tp = match &t.purpose {
                            Some(p) => Some(p.as_str()),
                            None => None,
                        };
                        let kind = classify_edge_kind(at_start, t.doc_type.as_str(), self_purpose, tp);
                        assert(at_start == (bs == Some(lv[i as int].0)));
                        assert(opt_view(t.purpose) == match tp {
                            Some(p) => Some(p@),
                            None => None,
                        });
                        let ghost before = pairs_of(cands@);
                        let ks = kind.to_owned();
                        cands.push((t.id.clone(), ks));
                        assert(pairs_of(cands@) =~= before.push((t.id@, kind@)));
                    }
                },
                None => {},
            }
        }
        i = i + 1;
    }
    plan_edges(&cands, existing)
}

// ── Relations section ───────────────────────────────────────────────────

/// Rank of an edge kind in a relations section, in tenths (the kinds'
/// weights: `Answers` 2, `Supports`/`Derives`/`Consolidates` 1.5,
/// `Extends` 0.7, `References`/`Instances`/`Requires` 0.3, `Contradicts`
/// -0.5, others 0).
pub open spec fn edge_kind_weight_spec(kind: Seq<char>) -> int {
    if kind == "Answers"@ {
        20
    } else if kind == "Supports"@ || kind == "Derives"@ || kind == "Consolidates"@ {
        15
    } else if kind == "Extends"@ {
        7
    } else if kind == "References"@ || kind == "Instances"@ || kind == "Requires"@ {
        3
    } else if kind == "Contradicts"@ {
        -5
    } else {
        0
    }
}

pub fn edge_kind_weight(kind: &str) -> (r: i32)
    ensures
        r as int == edge_kind_weight_spec(kind@),
{
    if str_eq(kind, "Answers") {
        20
    } else if str_eq(kind, "Supports") || str_eq(kind, "Derives") || str_eq(kind, "Consolidates") {
        15
    } else if str_eq(kind, "Extends") {
        7
    } else if str_eq(kind, "References") || str_eq(kind, "Instances") || str_eq(kind, "Requires") {
        3
    } else if str_eq(kind, "Contradicts") {
        -5
    } else {
        0
    }
}

/// A related document: wiki path, title, edge kind.
pub type Relation = (Seq<char>, Seq<char>, Seq<char>);

/// An edge of a document as found: the other end's id, its wiki path and
/// title when it resolves, and the edge kind.
pub struct EdgeFound {
    pub other_id: String,
    pub target: Option<(String, String)>,
    pub kind: String,
}

/// The relations of edges `..n`, each other end once (the first edge that
/// resolves), skipping edges to the document itself; and the ids taken.
pub open spec fn edges_upto(self_id: Seq<char>, es: Seq<EdgeFound>, n: int) -> (Seq<Relation>, Set<Seq<char>>)
    decreases n,
{
    if n <= 0 || n > es.len() {
        (seq![], Set::empty())
    } else {
        let prev = edges_upto(self_id, es, n - 1);
        let e = es[n - 1];
        if e.other_id@ == self_id || prev.1.contains(e.other_id@) {
            prev
        } else {
            match e.target {
                Some((wp, title)) => (prev.0.push((wp@, title@, e.kind@)), prev.1.insert(e.other_id@)),
                None => prev,
            }
        }
    }
}

/// `x` placed after every relation of at least its rank.
pub open spec fn ins_by_rank(t: Seq<Relation>, x: Relation) -> Seq<Relation>
    decreases t.len(),
{
    if t.len() == 0 {
        seq![x]
    } else if edge_kind_weight_spec(x.2) > edge_kind_weight_spec(t.last().2) {
        ins_by_rank(t.drop_last(), x).push(t.last())
    } else {
        t.push(x)
    }
}

/// Relations sorted by rank, highest first, ties in their order.
pub open spec fn sort_by_rank(s: Seq<Relation>) -> Seq<Relation>
    decreases s.len(),
{
    if s.len() == 0 {
        seq![]
    } else {
        ins_by_rank(sort_by_rank(s.drop_last()), s.last())
    }
}

/// The name part of a code reference: the text between its first `::` and
/// the next one (or the end).
pub open spec fn code_ref_name(r: Seq<char>) -> Seq<char> {
    let i = find_sub(r, "::"@);
    if i < 0 {
        r
    } else {
        let rest = r.subrange(i + 2, r.len() as int);
        let j = find_sub(rest, "::"@);
        if j < 0 {
            rest
        } else {
            rest.subrange(0, j)
        }
    }
}

/// Relations for the code references among the first `n` items (string
/// items whose reference converts to a wiki path).
pub open spec fn code_relations(refs: Seq<Option<String>>, n: int) -> Seq<Relation>
    decreases n,
{
    if n <= 0 || n > refs.len() {
        seq![]
    } else {
        let prev = code_relations(refs, n - 1);
        match refs[n - 1] {
            Some(s) => match code_ref_spec(s@) {
                Some(wp) => prev.push((wp, code_ref_name(s@), "References"@)),
                None => prev,
            },
            None => prev,
        }
    }
}

/// The relations a document lists: its edges' other ends, ranked and cut
/// to `limit`, then its code references in the free slots.
pub open spec fn relations_plan_spec(self_id: Seq<char>, es: Seq<EdgeFound>, refs: Seq<Option<String>>, limit: nat) -> Seq<
    Relation,
> {
    let ranked = sort_by_rank(edges_upto(self_id, es, es.len() as int).0);
    let kept = if ranked.len() <= limit {
        ranked
    } else {
        ranked.subrange(0, limit as int)
    };
    let free: int = limit - kept.len();
    let take: int = if free < refs.len() {
        free
    } else {
        refs.len() as int
    };
    kept + code_relations(refs, take)
}

pub open spec fn rel_view(v: Seq<(String, String, String)>) -> Seq<Relation> {
    v.map_values(|r: (String, String, String)| (r.0@, r.1@, r.2@))
}

proof fn lemma_ins_by_rank(t: Seq<Relation>, x: Relation, pos: int)
    requires
        0 <= pos <= t.len(),
        forall|k: int| pos <= k < t.len() ==> edge_kind_weight_spec(x.2) > edge_kind_weight_spec((#[trigger] t[k]).2),
        pos == 0 || edge_kind_weight_spec(x.2) <= edge_kind_weight_spec(t[pos - 1].2),
    ensures
        ins_by_rank(t, x) == t.insert(pos, x),
    decreases t.len(),
{
    if t.len() == 0 {
        assert(t.insert(pos, x) =~= seq![x]);
    } else if pos == t.len() {
        assert(t.insert(pos, x) =~= t.push(x));
    } else {
        let d = t.drop_last();
        assert(edge_kind_weight_spec(x.2) > edge_kind_weight_spec(t[t.len() - 1].2));
        assert forall|k: int| pos <= k < d.len() implies edge_kind_weight_spec(x.2) > edge_kind_weight_spec((#[trigger] d[k]).2) by {
            assert(d[k] == t[k]);
        }
        if pos > 0 {
            assert(d[pos - 1] == t[pos - 1]);
        }
        lemma_ins_by_rank(d, x, pos);
        assert(t.insert(pos, x) =~= d.insert(pos, x).push(t.last()));
    }
}

fn code_ref_name_of(r: &str) -> (n: String)
    ensures
        n@ == code_ref_name(r@),
{
    let cs = chars_of(r);
    let sep = chars_of("::");
    proof {
        reveal_strlit("::");
    }
    assert(sep@.len() == 2);
    match find_chars(cs.as_slice(), sep.as_slice()) {
        None => string_of(cs.as_slice()),
        Some(i) => {
            let cl = cs.len();
            assert(i + 2 <= cl);
            let rest = char_range(cs.as_slice(), i + 2, cl);
            match find_chars(rest.as_slice(), sep.as_slice()) {
                None => string_of(rest.as_slice()),
                Some(j) => string_of(char_range(rest.as_slice(), 0, j).as_slice()),
            }
        },
    }
}

/// The relations a document lists (see `relations_plan_spec`).
pub fn relations_plan(self_id: &str, edges: &Vec<EdgeFound>, code_refs: &Vec<Option<String>>, limit: usize) -> (r: Vec<
    (String, String, String),
>)
    ensures
        rel_view(r@) == relations_plan_spec(self_id@, edges@, code_refs@, limit as nat),
{
    let mut found: Vec<(String, String, String)> = Vec::new();
    let mut ids: Vec<String> = Vec::new();
    let mut i: usize = 0;
    assert(id_set(ids@) =~= Set::<Seq<char>>::empty());
    while i < edges.len()
        invariant
            i <= edges@.len(),
            rel_view(found@) == sort_by_rank(edges_upto(self_id@, edges@, i as int).0),
            id_set(ids@) == edges_upto(self_id@, edges@, i as int).1,
        decreases edges@.len() - i,
    {
        let e = &edges[i];
        let ghost prev = edges_upto(self_id@, edges@, i as int);
        if !str_eq(e.other_id.as_str(), self_id) && !has_string(&ids, e.other_id.as_str()) {
            match &e.target {
                Some((wp, title)) => {
                    let x = (wp.clone(), title.clone(), e.kind.clone());
                    let ghost xv = (wp@, title@, e.kind@);
                    let ghost t = rel_view(found@);
                    let xr = edge_kind_weight(e.kind.as_str());
                    let mut pos: usize = found.len();
                    while pos > 0 && xr > edge_kind_weight(found[pos - 1].2.as_str())
                        invariant
                            pos <= found@.len(),
                            t == rel_view(found@),
                            xv == (wp@, title@, e.kind@),
                            xr as int == edge_kind_weight_spec(xv.2),
                            forall|k: int| pos <= k < t.len() ==> edge_kind_weight_spec(xv.2) > edge_kind_weight_spec(
                                (#[trigger] t[k]).2,
                            ),
                        decreases pos,
                    {
                        assert(t[pos - 1] == (found@[pos - 1].0@, found@[pos - 1].1@, found@[pos - 1].2@));
                        pos = pos - 1;
                    }
                    proof {
                        if pos > 0 {
                            assert(t[pos - 1] == (found@[pos - 1].0@, found@[pos - 1].1@, found@[pos - 1].2@));
                        }
                        lemma_ins_by_rank(t, xv, pos as int);
                        assert(prev.0.push(xv).drop_last() =~= prev.0);
                    }
                    found.insert(pos, x);
                    assert(rel_view(found@) =~= t.insert(pos as int, xv));
                    let ghost iv = strings(ids@);
                    ids.push(e.other_id.clone());
                    proof {
                        assert(strings(ids@) =~= iv.push(e.other_id@));
                        iv.lemma_push_to_set_commute(e.other_id@);
                    }
                },
                None => {},
            }
        }
        i = i + 1;
    }
    let ghost ranked = rel_view(found@);
    if found.len() > limit {
        found.truncate(limit);
        assert(rel_view(found@) =~= ranked.subrange(0, limit as int));
    }
    let free = limit - found.len();
    let take = if free < code_refs.len() {
        free
    } else {
        code_refs.len()
    };
    let ghost kept = rel_view(found@);
    let mut j: usize = 0;
    while j < take
        invariant
            j <= take <= code_refs@.len(),
            rel_view(found@) == kept + code_relations(code_refs@, j as int),
        decreases take - j,
    {
        let ghost before = rel_view(found@);
        match &code_refs[j] {
            Some(sr) => match code_ref_to_wiki_path(sr.as_str()) {
                Some(wp) => {
                    let name = code_ref_name_of(sr.as_str());
                    found.push((wp, name, string_of(chars_of("References").as_slice())));
                    assert(rel_view(found@) =~= before.push((wp@, name@, "References"@)));
                },
                None => {},
            },
            None => {},
        }
        j = j + 1;
    }
    found
}

/// The rendered relations block.
pub open spec fn relation_lines(rs: Seq<Relation>) -> Seq<char>
    decreases rs.len(),
{
    if rs.len() == 0 {
        seq![]
    } else {
        relation_lines(rs.drop_last()) + "- [["@ + rs.last().0 + "|"@ + rs.last().1 + "]] — "@ + rs.last().2
            + seq!['\n']
    }
}

pub open spec fn relations_block(rs: Seq<Relation>) -> Seq<char> {
    "<!-- wiki-relations-start -->"@ + seq!['\n'] + relation_lines(rs) + "<!-- wiki-relations-end -->"@
}

/// The body with a stale relations block removed (text before it trimmed
/// at the end); unchanged without both markers.
pub open spec fn strip_relations_spec(body: Seq<char>) -> Seq<char> {
    let s = find_sub(body, "<!-- wiki-relations-start -->"@);
    let e = find_sub(body, "<!-- wiki-relations-end -->"@);
    if s >= 0 && e >= 0 {
        trim_end(body.subrange(0, s)) + body.subrange(e + "<!-- wiki-relations-end -->"@.len(), body.len() as int)
    } else {
        body
    }
}

/// The body a document gets for its relations: the block of `rs` put in
/// place, or, with none, a stale block removed.
pub open spec fn relations_body_spec(body: Seq<char>, rs: Seq<Relation>) -> Seq<char> {
    if rs.len() == 0 {
        strip_relations_spec(body)
    } else {
        relations_spec(body, relations_block(rs))
    }
}

proof fn lemma_find_at(s: Seq<char>, p: Seq<char>, i: int, q: int)
    requires
        0 <= i <= q,
        crate::text::occurs_at(s, p, q),
        forall|j: int| i <= j < q ==> !crate::text::occurs_at(s, p, j),
    ensures
        crate::text::find_from(s, p, i) == q,
    decreases q - i,
{
    if i < q {
        lemma_find_at(s, p, i + 1, q);
    }
}

proof fn lemma_find_none(s: Seq<char>, p: Seq<char>, i: int, j: int)
    requires
        0 <= i <= j,
        crate::text::find_from(s, p, i) < 0,
    ensures
        !crate::text::occurs_at(s, p, j),
    decreases j - i,
{
    if i + p.len() <= s.len() && i < j {
        lemma_find_none(s, p, i + 1, j);
    }
}

proof fn lemma_find_first(s: Seq<char>, p: Seq<char>, i: int, j: int)
    requires
        0 <= i <= j < crate::text::find_from(s, p, i),
    ensures
        !crate::text::occurs_at(s, p, j),
    decreases j - i,
{
    if i < j {
        lemma_find_first(s, p, i + 1, j);
    }
}

proof fn lemma_trim_end_prefix(s: Seq<char>)
    ensures
        trim_end(s).len() <= s.len(),
        trim_end(s) == s.subrange(0, trim_end(s).len() as int),
    decreases s.len(),
{
    if s.len() > 0 && is_ws(s.last()) {
        lemma_trim_end_prefix(s.drop_last());
        assert(s.drop_last().subrange(0, trim_end(s).len() as int) =~= s.subrange(0, trim_end(s).len() as int));
    } else {
        assert(s.subrange(0, s.len() as int) =~= s);
    }
}

/// No occurrence of `m` starts at `j` when it would cover position `a` at
/// an offset where `m` does not have the character there.
proof fn lemma_no_straddle(w: Seq<char>, m: Seq<char>, a: int, j: int)
    requires
        0 <= j < a < w.len(),
        j + m.len() > a,
        forall|k: int| 1 <= k < m.len() ==> m[k] != w[a],
    ensures
        !crate::text::occurs_at(w, m, j),
{
    if crate::text::occurs_at(w, m, j) {
        assert(w.subrange(j, j + m.len())[a - j] == w[a]);
    }
}

/// An occurrence within a shared prefix is one in the other text too.
proof fn lemma_shared_prefix(w: Seq<char>, b: Seq<char>, m: Seq<char>, n: int, j: int)
    requires
        0 <= j,
        j + m.len() <= n <= w.len(),
        n <= b.len(),
        w.subrange(0, n) == b.subrange(0, n),
        crate::text::occurs_at(w, m, j),
    ensures
        crate::text::occurs_at(b, m, j),
{
    assert(w.subrange(j, j + m.len()) =~= w.subrange(0, n).subrange(j, j + m.len()));
    assert(b.subrange(j, j + m.len()) =~= b.subrange(0, n).subrange(j, j + m.len()));
}

proof fn lemma_markers()
    ensures
        "<!-- wiki-relations-start -->"@.len() == 29,
        "<!-- wiki-relations-end -->"@.len() == 27,
        "<!-- wiki-relations-start -->"@[0] == '<',
        "<!-- wiki-relations-end -->"@[0] == '<',
        forall|k: int| 1 <= k < 29 ==> "<!-- wiki-relations-start -->"@[k] != '<' && "<!-- wiki-relations-start -->"@[k] != '\n',
        forall|k: int| 1 <= k < 27 ==> "<!-- wiki-relations-end -->"@[k] != '<' && "<!-- wiki-relations-end -->"@[k] != '\n',
        "<!-- wiki-relations-start -->"@[20] != "<!-- wiki-relations-end -->"@[20],
{
    reveal_strlit("<!-- wiki-relations-start -->");
    reveal_strlit("<!-- wiki-relations-end -->");
    assert forall|k: int| 1 <= k < 29 implies "<!-- wiki-relations-start -->"@[k] != '<'
        && "<!-- wiki-relations-start -->"@[k] != '\n' by {
        assert(k == 1 || k == 2 || k == 3 || k == 4 || k == 5 || k == 6 || k == 7 || k == 8 || k == 9 || k == 10
            || k == 11 || k == 12 || k == 13 || k == 14 || k == 15 || k == 16 || k == 17 || k == 18 || k == 19
            || k == 20 || k == 21 || k == 22 || k == 23 || k == 24 || k == 25 || k == 26 || k == 27 || k == 28);
    }
    assert forall|k: int| 1 <= k < 27 implies "<!-- wiki-relations-end -->"@[k] != '<'
        && "<!-- wiki-relations-end -->"@[k] != '\n' by {
        assert(k == 1 || k == 2 || k == 3 || k == 4 || k == 5 || k == 6 || k == 7 || k == 8 || k == 9 || k == 10
            || k == 11 || k == 12 || k == 13 || k == 14 || k == 15 || k == 16 || k == 17 || k == 18 || k == 19
            || k == 20 || k == 21 || k == 22 || k == 23 || k == 24 || k == 25 || k == 26);
    }
}

/// Within `w = x + block + y` (the block at `a`), the first end marker at or
/// after `a` is the block's own, when the relation lines hold none.
proof fn lemma_block_end(w: Seq<char>, rs: Seq<Relation>, a: int, j: int)
    requires
        0 <= a <= j,
        a + relations_block(rs).len() <= w.len(),
        w.subrange(a, a + relations_block(rs).len()) == relations_block(rs),
        find_sub(relation_lines(rs), "<!-- wiki-relations-end -->"@) < 0,
        j < a + relations_block(rs).len() - 27,
    ensures
        !crate::text::occurs_at(w, "<!-- wiki-relations-end -->"@, j),
{
    lemma_markers();
    let st = "<!-- wiki-relations-start -->"@;
    let en = "<!-- wiki-relations-end -->"@;
    let ls = relation_lines(rs);
    let blk = relations_block(rs);
    assert(blk == st + seq!['\n'] + ls + en);
    assert(w[a + (j - a)] == blk[j - a]);
    let r = j - a;
    if r == 0 {
        if crate::text::occurs_at(w, en, j) {
            assert(w.subrange(j, j + 27)[20] == w[j + 20]);
            assert(w[a + 20] == blk[20]);
            assert(blk[20] == st[20]);
        }
    } else if r < 29 {
        assert(blk[r] == st[r]);
        assert(!crate::text::occurs_at(w, en, j)) by {
            if crate::text::occurs_at(w, en, j) {
                assert(w.subrange(j, j + 27)[0] == w[j]);
            }
        }
    } else if r == 29 {
        assert(blk[r] == '\n');
        assert(!crate::text::occurs_at(w, en, j)) by {
            if crate::text::occurs_at(w, en, j) {
                assert(w.subrange(j, j + 27)[0] == w[j]);
            }
        }
    } else {
        let la = a + 30 + ls.len();
        if j + 27 <= la {
            if crate::text::occurs_at(w, en, j) {
                let lj = j - a - 30;
                assert(forall|k: int| 0 <= k < ls.len() ==> w[a + 30 + k] == #[trigger] ls[k]) by {
                    assert forall|k: int| 0 <= k < ls.len() implies w[a + 30 + k] == #[trigger] ls[k] by {
                        assert(w[a + (30 + k)] == blk[30 + k]);
                    }
                }
                assert(ls.subrange(lj, lj + 27) =~= w.subrange(j, j + 27));
                assert(crate::text::occurs_at(ls, en, lj));
                lemma_find_none(ls, en, 0, lj);
            }
        } else {
            assert(w[la] == blk[30 + ls.len() as int]);
            assert(blk[30 + ls.len() as int] == en[0]);
            lemma_no_straddle(w, en, la, j);
        }
    }
}

/// No marker-like text `m` starts before `a` in `w` when `w` agrees with
/// `body` up to `n`, where `body` has no occurrence of `m`, and `w` holds
/// line breaks from `n` to `a` and `<` at `a`.
proof fn lemma_clean_before(w: Seq<char>, body: Seq<char>, m: Seq<char>, n: int, a: int)
    requires
        m.len() >= 1,
        m[0] == '<',
        forall|k: int| 1 <= k < m.len() ==> m[k] != '<' && m[k] != '\n',
        0 <= n <= a < w.len(),
        n <= body.len(),
        w.subrange(0, n) == body.subrange(0, n),
        forall|k: int| n <= k < a ==> w[k] == '\n',
        w[a] == '<',
        forall|j: int| 0 <= j && j + m.len() <= n ==> !crate::text::occurs_at(body, m, j),
    ensures
        forall|j: int| 0 <= j < a ==> !crate::text::occurs_at(w, m, j),
{
    assert forall|j: int| 0 <= j < a implies !crate::text::occurs_at(w, m, j) by {
        if j + m.len() <= n {
            if crate::text::occurs_at(w, m, j) {
                lemma_shared_prefix(w, body, m, n, j);
            }
        } else if j < n {
            lemma_no_straddle(w, m, n, j);
        } else {
            if crate::text::occurs_at(w, m, j) {
                assert(w.subrange(j, j + m.len())[0] == w[j]);
            }
        }
    }
}

/// Putting the block of `rs` into a text that holds it at `a`, with no
/// marker before it, gives the same text.
proof fn lemma_reapply(w: Seq<char>, rs: Seq<Relation>, a: int)
    requires
        0 <= a,
        a + relations_block(rs).len() <= w.len(),
        w.subrange(a, a + relations_block(rs).len()) == relations_block(rs),
        find_sub(relation_lines(rs), "<!-- wiki-relations-end -->"@) < 0,
        forall|j: int| 0 <= j < a ==> !crate::text::occurs_at(w, "<!-- wiki-relations-start -->"@, j),
        forall|j: int| 0 <= j < a ==> !crate::text::occurs_at(w, "<!-- wiki-relations-end -->"@, j),
    ensures
        relations_spec(w, relations_block(rs)) == w,
{
    lemma_markers();
    let st = "<!-- wiki-relations-start -->"@;
    let en = "<!-- wiki-relations-end -->"@;
    let blk = relations_block(rs);
    let ls = relation_lines(rs);
    assert(blk == st + seq!['\n'] + ls + en);
    assert(blk.subrange(0, 29) =~= st);
    assert(blk.subrange(blk.len() - 27, blk.len() as int) =~= en);
    assert(crate::text::occurs_at(w, st, a)) by {
        assert(w.subrange(a, a + 29) =~= w.subrange(a, a + blk.len()).subrange(0, 29));
    }
    let e1 = a + blk.len() - 27;
    assert(crate::text::occurs_at(w, en, e1)) by {
        assert(w.subrange(e1, e1 + 27) =~= w.subrange(a, a + blk.len()).subrange(blk.len() - 27, blk.len() as int));
    }
    lemma_find_at(w, st, 0, a);
    assert forall|j: int| 0 <= j < e1 implies !crate::text::occurs_at(w, en, j) by {
        if j >= a {
            lemma_block_end(w, rs, a, j);
        }
    }
    lemma_find_at(w, en, 0, e1);
    assert(w.subrange(0, a) + blk + w.subrange(e1 + 27, w.len() as int) =~= w);
}

/// Writing a document's relations again changes nothing: putting the
/// block of `rs` into a body that already got it gives the same body. This
/// holds for a body with neither marker, or with the start marker before
/// the end one, and relation lines that do not hold the end marker.
pub proof fn law_relations_idempotent(body: Seq<char>, rs: Seq<Relation>)
    requires
        rs.len() > 0,
        find_sub(relation_lines(rs), "<!-- wiki-relations-end -->"@) < 0,
        (find_sub(body, "<!-- wiki-relations-start -->"@) < 0 && find_sub(body, "<!-- wiki-relations-end -->"@) < 0)
            || (0 <= find_sub(body, "<!-- wiki-relations-start -->"@) < find_sub(
            body,
            "<!-- wiki-relations-end -->"@,
        )),
    ensures
        relations_body_spec(relations_body_spec(body, rs), rs) == relations_body_spec(body, rs),
{
    lemma_markers();
    let st = "<!-- wiki-relations-start -->"@;
    let en = "<!-- wiki-relations-end -->"@;
    let blk = relations_block(rs);
    let ls = relation_lines(rs);
    assert(blk == st + seq!['\n'] + ls + en);
    assert(blk[0] == '<');
    let s0 = find_sub(body, st);
    let e0 = find_sub(body, en);
    crate::text::lemma_find_from(body, st, 0);
    crate::text::lemma_find_from(body, en, 0);
    let w = relations_spec(body, blk);
    if s0 >= 0 && e0 >= 0 {
        let a = s0;
        assert(w =~= body.subrange(0, s0) + blk + body.subrange(e0 + 27, body.len() as int));
        assert(w.subrange(0, a) =~= body.subrange(0, a));
        assert(w.subrange(a, a + blk.len()) =~= blk);
        assert(w[a] == blk[0]);
        assert forall|j: int| 0 <= j && j + 29 <= a implies !crate::text::occurs_at(body, st, j) by {
            lemma_find_first(body, st, 0, j);
        }
        assert forall|j: int| 0 <= j && j + 27 <= a implies !crate::text::occurs_at(body, en, j) by {
            lemma_find_first(body, en, 0, j);
        }
        lemma_clean_before(w, body, st, a, a);
        lemma_clean_before(w, body, en, a, a);
        lemma_reapply(w, rs, a);
    } else if trim_end(body).len() == 0 {
        assert(w == blk);
        assert(w.subrange(0, blk.len() as int) =~= blk);
        lemma_reapply(w, rs, 0);
    } else {
        lemma_trim_end_prefix(body);
        reveal_strlit("\n\n");
        let t = trim_end(body);
        let n = t.len() as int;
        let a = n + 2;
        assert(w =~= t + "\n\n"@ + blk);
        assert(w.subrange(0, n) =~= body.subrange(0, n));
        assert(w.subrange(a, a + blk.len()) =~= blk);
        assert(w[n] == '\n' && w[n + 1] == '\n' && w[a] == blk[0]);
        assert forall|j: int| 0 <= j && j + 29 <= n implies !crate::text::occurs_at(body, st, j) by {
            lemma_find_none(body, st, 0, j);
        }
        assert forall|j: int| 0 <= j && j + 27 <= n implies !crate::text::occurs_at(body, en, j) by {
            lemma_find_none(body, en, 0, j);
        }
        lemma_clean_before(w, body, st, n, a);
        lemma_clean_before(w, body, en, n, a);
        lemma_reapply(w, rs, a);
    }
}

/// The body a document gets for its relations (see `relations_body_spec`).
pub fn relations_body(body: &str, rs: &Vec<(String, String, String)>) -> (r: String)
    ensures
        r@ == relations_body_spec(body@, rel_view(rs@)),
{
    let ghost rv = rel_view(rs@);
    if rs.len() == 0 {
        let b = chars_of(body);
        let start = chars_of("<!-- wiki-relations-start -->");
        let end = chars_of("<!-- wiki-relations-end -->");
        match (find_chars(b.as_slice(), start.as_slice()), find_chars(b.as_slice(), end.as_slice())) {
            (Some(s), Some(e)) => {
                let head = char_range(b.as_slice(), 0, s);
                let mut out = trim_end_from(head.as_slice(), 0);
                assert(head@.subrange(0, head@.len() as int) =~= head@);
                let el = end.len();
                if e <= b.len() - el {
                    push_chars(&mut out, char_range(b.as_slice(), e + el, b.len()).as_slice());
                }
                return string_of(out.as_slice());
            },
            _ => {
                return string_of(b.as_slice());
            },
        }
    }
    let mut block: Vec<char> = Vec::new();
    push_str_chars(&mut block, "<!-- wiki-relations-start -->");
    block.push('\n');
    let ghost base = block@;
    let mut i: usize = 0;
    while i < rs.len()
        invariant
            i <= rs@.len(),
            rv == rel_view(rs@),
            block@ == base + relation_lines(rv.subrange(0, i as int)),
        decreases rs@.len() - i,
    {
        let ghost t = rv.subrange(0, i + 1);
        assert(t.drop_last() =~= rv.subrange(0, i as int));
        assert(t.last() == (rs@[i as int].0@, rs@[i as int].1@, rs@[i as int].2@));
        push_str_chars(&mut block, "- [[");
        push_str_chars(&mut block, rs[i].0.as_str());
        push_str_chars(&mut block, "|");
        push_str_chars(&mut block, rs[i].1.as_str());
        push_str_chars(&mut block, "]] — ");
        push_str_chars(&mut block, rs[i].2.as_str());
        block.push('\n');
        assert(block@ =~= base + relation_lines(t));
        i = i + 1;
    }
    assert(rv.subrange(0, rs@.len() as int) =~= rv);
    push_str_chars(&mut block, "<!-- wiki-relations-end -->");
    let bs = string_of(block.as_slice());
    assert(bs@ =~= relations_block(rv));
    replace_relations_block(body, bs.as_str())
}

// ── Cross-topic moves ───────────────────────────────────────────────────

/// Plans moving a document at `rel_path` (relative to its kind's
/// directory) to `crosstopic/`: its purpose directory and stem, or `None`
/// when it is there already.
pub fn plan_crosstopic_move(rel_path: &str) -> (r: Option<(String, String)>)
    ensures
        r is None <==> parent_name(rel_path@) == "crosstopic"@,
        r matches Some((p, st)) ==> p@ == parent_name(rel_path@) && st@ == file_stem(rel_path@),
{
    let (parent, stem) = split_file(rel_path);
    if str_eq(parent.as_str(), "crosstopic") {
        None
    } else {
        Some((parent, stem))
    }
}

/// The wikilink targets to rewrite after a document of kind `doc_type`
/// moved from `<old_dir>/<stem>` to `<new_dir>/<new_stem>`; none when it
/// had no purpose directory.
pub open spec fn move_targets_spec(
    doc_type: Seq<char>,
    old_dir: Seq<char>,
    stem: Seq<char>,
    new_dir: Seq<char>,
    new_stem: Seq<char>,
) -> Option<(Seq<char>, Seq<char>)> {
    if old_dir.len() == 0 {
        None
    } else {
        Some(
            (
                doc_type + seq!['/'] + old_dir + seq!['/'] + stem,
                doc_type + seq!['/'] + new_dir + seq!['/'] + new_stem,
            ),
        )
    }
}

/// The wikilink targets to rewrite after a move (see `move_targets_spec`).
pub fn move_targets(doc_type: &str, old_dir: &str, stem: &str, new_dir: &str, new_stem: &str) -> (r: Option<
    (String, String),
>)
    ensures
        match r {
            Some((a, b)) => move_targets_spec(doc_type@, old_dir@, stem@, new_dir@, new_stem@) == Some((a@, b@)),
            None => move_targets_spec(doc_type@, old_dir@, stem@, new_dir@, new_stem@) is None,
        },
{
    if chars_of(old_dir).len() == 0 {
        return None;
    }
    let mut a: Vec<char> = chars_of(doc_type);
    a.push('/');
    push_str_chars(&mut a, old_dir);
    a.push('/');
    push_str_chars(&mut a, stem);
    let mut b: Vec<char> = chars_of(doc_type);
    b.push('/');
    push_str_chars(&mut b, new_dir);
    b.push('/');
    push_str_chars(&mut b, new_stem);
    Some((string_of(a.as_slice()), string_of(b.as_slice())))
}

/// A purpose counted towards spanning topics: linked to or the document's
/// own (when not empty), and neither `uncategorized` nor `crosstopic`.
pub open spec fn topic_of(links: Seq<Seq<char>>, own: Option<Seq<char>>, x: Seq<char>) -> bool {
    (links.contains(x) || (own == Some(x) && x.len() > 0)) && x != "uncategorized"@ && x != "crosstopic"@
}

/// Whether a document spans topics and moves to `crosstopic/`: at least
/// two distinct counted purposes, and it is not there already.
pub open spec fn spans_topics(links: Seq<Seq<char>>, own: Option<Seq<char>>) -> bool {
    own != Some("crosstopic"@) && exists|a: Seq<char>, b: Seq<char>|
        a != b && #[trigger] topic_of(links, own, a) && #[trigger] topic_of(links, own, b)
}

pub open spec fn first_is(first: Option<String>, x: Seq<char>) -> bool {
    match first {
        Some(f) => f@ == x,
        None => false,
    }
}

fn counted_topic(x: &str) -> (r: bool)
    ensures
        r == (x@ != "uncategorized"@ && x@ != "crosstopic"@),
{
    !str_eq(x, "uncategorized") && !str_eq(x, "crosstopic")
}

/// Whether a document spans topics (see `spans_topics`); `links` are the
/// purposes of the documents it links to.
pub fn should_move_crosstopic(links: &Vec<String>, own: Option<&str>) -> (r: bool)
    ensures
        r == spans_topics(
            links@.map_values(|s: String| s@),
            match own {
                Some(o) => Some(o@),
                None => None,
            },
        ),
{
    let ghost lv = links@.map_values(|s: String| s@);
    let ghost ov: Option<Seq<char>> = match own {
        Some(o) => Some(o@),
        None => None,
    };
    match own {
        Some(o) => {
            if str_eq(o, "crosstopic") {
                return false;
            }
        },
        None => {},
    }
    let mut first: Option<String> = None;
    match own {
        Some(o) => {
            if chars_of(o).len() > 0 && counted_topic(o) {
                first = Some(string_of(chars_of(o).as_slice()));
            }
        },
        None => {},
    }
    let mut i: usize = 0;
    while i < links.len()
        invariant
            i <= links@.len(),
            lv == links@.map_values(|s: String| s@),
            ov == match own {
                Some(o) => Some(o@),
                None => None,
            },
            ov != Some("crosstopic"@),
            first matches Some(f) ==> topic_of(lv, ov, f@),
            first is None ==> forall|x: Seq<char>| #[trigger] topic_of(lv, ov, x) ==> (exists|k: int|
                i <= k < lv.len() && lv[k] == x),
            forall|k: int| 0 <= k < i ==> (#[trigger] topic_of(lv, ov, lv[k]) ==> first_is(first, lv[k])),
            forall|x: Seq<char>| #[trigger] topic_of(lv, ov, x) && ov == Some(x) && x.len() > 0 ==> first_is(first, x),
        decreases links@.len() - i,
    {
        let l = links[i].as_str();
        assert(lv[i as int] == l@);
        if counted_topic(l) {
            match &first {
                Some(f) => {
                    if !str_eq(f.as_str(), l) {
                        assert(topic_of(lv, ov, lv[i as int]));
                        assert(topic_of(lv, ov, f@));
                        return true;
                    }
                },
                None => {
                    first = Some(string_of(chars_of(l).as_slice()));
                    proof {
                        assert(topic_of(lv, ov, l@));
                        assert forall|k: int| 0 <= k < i + 1 implies (#[trigger] topic_of(lv, ov, lv[k]) ==> first_is(
                            first,
                            lv[k],
                        )) by {
                            if k < i && topic_of(lv, ov, lv[k]) {
                                let x = lv[k];
                                assert(exists|j: int| i <= j < lv.len() && lv[j] == x);
                            }
                        }
                    }
                },
            }
        } else {
            proof {
                assert(!topic_of(lv, ov, lv[i as int]));
                if first is None {
                    assert forall|x: Seq<char>| #[trigger] topic_of(lv, ov, x) implies (exists|k: int|
                        i + 1 <= k < lv.len() && lv[k] == x) by {
                        let k0 = choose|k: int| i <= k < lv.len() && lv[k] == x;
                        assert(k0 != i);
                    }
                }
            }
        }
        i = i + 1;
    }
    proof {
        assert forall|a: Seq<char>, b: Seq<char>| a != b && #[trigger] topic_of(lv, ov, a) implies !#[trigger] topic_of(
            lv,
            ov,
            b,
        ) by {
            if topic_of(lv, ov, b) {
                if lv.contains(a) {
                    let ka = choose|k: int| 0 <= k < lv.len() && lv[k] == a;
                    assert(topic_of(lv, ov, lv[ka]));
                }
                if lv.contains(b) {
                    let kb = choose|k: int| 0 <= k < lv.len() && lv[k] == b;
                    assert(topic_of(lv, ov, lv[kb]));
                }
            }
        }
    }
    false
}

} // verus!
