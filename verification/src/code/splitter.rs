//! Per-function metadata of a split source file and the markdown rendering
//! of the code index (one structure file per source, one body file per
//! function).

use vstd::prelude::*;
use vstd::string::StringSliceAdditionalSpecFns;
use crate::code::py_lang::{find_defs_spec, line_starts_exec_view, max_py_len, py_meta_spec, split_py};
use crate::code::rs_lang::{find_fns_spec, rs_meta_spec, split_rs, FnLoc};
use crate::code::py_lang::DefLocView;
use crate::slashpath::{extension, join, path_extension, path_join, path_strip_extension, strip_extension};
use crate::text::{
    char_range, chars_eq, chars_of, dec, dec_string, first_index, first_index_of, has_prefix, join_with,
    lines, lines_of, push_chars, push_joined_strings, push_str_chars, str_eq, starts_with_chars, string_of, trim, trim_char,
    trim_char_chars, trim_chars, trim_end, trim_end_from,
};
use crate::keyed::KeyedMap;

verus! {

/// One function found in a source file.
#[derive(Clone)]
pub struct FnMeta {
    pub name: String,
    pub signature: String,
    pub raw: String,
    pub line_start: usize,
    pub line_end: usize,
}

/// Mathematical view of a [`FnMeta`].
pub ghost struct FnMetaView {
    pub name: Seq<char>,
    pub signature: Seq<char>,
    pub raw: Seq<char>,
    pub line_start: int,
    pub line_end: int,
}

impl View for FnMeta {
    type V = FnMetaView;

    open spec fn view(&self) -> FnMetaView {
        FnMetaView {
            name: self.name@,
            signature: self.signature@,
            raw: self.raw@,
            line_start: self.line_start as int,
            line_end: self.line_end as int,
        }
    }
}

/// Body text with one leading line break (`\r\n` or `\n`) removed and
/// trailing whitespace trimmed.
pub open spec fn strip_body_edges_spec(s: Seq<char>) -> Seq<char> {
    if s.len() >= 2 && s[0] == '\r' && s[1] == '\n' {
        trim_end(s.subrange(2, s.len() as int))
    } else if s.len() >= 1 && s[0] == '\n' {
        trim_end(s.subrange(1, s.len() as int))
    } else {
        trim_end(s)
    }
}

pub fn strip_body_edges(s: &str) -> (r: String)
    ensures
        r@ == strip_body_edges_spec(s@),
{
    let cs = chars_of(s);
    let from: usize = if cs.len() >= 2 && cs[0] == '\r' && cs[1] == '\n' {
        2
    } else if cs.len() >= 1 && cs[0] == '\n' {
        1
    } else {
        0
    };
    assert(cs@.subrange(0, cs@.len() as int) =~= cs@);
    let t = trim_end_from(cs.as_slice(), from);
    string_of(t.as_slice())
}

/// A rendered markdown file of the code index.
pub struct BodyFile {
    pub path: String,
    pub content: String,
}

/// `\` replaced by `/`.
pub open spec fn to_slash_spec(p: Seq<char>) -> Seq<char> {
    p.map_values(|c: char| if c == '\\' { '/' } else { c })
}

/// A path with forward slashes.
pub fn to_slash(p: &str) -> (r: String)
    ensures
        r@ == to_slash_spec(p@),
{
    let cs = chars_of(p);
    let mut out: Vec<char> = Vec::new();
    let mut i: usize = 0;
    while i < cs.len()
        invariant
            i <= cs@.len(),
            cs@ == p@,
            out@ =~= to_slash_spec(cs@.subrange(0, i as int)),
        decreases cs@.len() - i,
    {
        out.push(if cs[i] == '\\' { '/' } else { cs[i] });
        i = i + 1;
    }
    assert(cs@.subrange(0, cs@.len() as int) =~= cs@);
    string_of(out.as_slice())
}

pub open spec fn is_path_hostile(c: char) -> bool {
    c == '<' || c == '>' || c == '/' || c == '\\' || c == ':' || c == '*' || c == '?' || c == '"'
        || c == '|'
}

/// A function name usable as a file name: path-hostile characters become
/// `_`.
pub open spec fn sanitize_fn_name_spec(name: Seq<char>) -> Seq<char> {
    name.map_values(|c: char| if is_path_hostile(c) { '_' } else { c })
}

fn sanitize_fn_name(name: &str) -> (r: Vec<char>)
    ensures
        r@ == sanitize_fn_name_spec(name@),
{
    let cs = chars_of(name);
    let mut out: Vec<char> = Vec::new();
    let mut i: usize = 0;
    while i < cs.len()
        invariant
            i <= cs@.len(),
            cs@ == name@,
            out@ =~= sanitize_fn_name_spec(cs@.subrange(0, i as int)),
        decreases cs@.len() - i,
    {
        let c = cs[i];
        let hostile = c == '<' || c == '>' || c == '/' || c == '\\' || c == ':' || c == '*' || c
            == '?' || c == '"' || c == '|';
        out.push(if hostile { '_' } else { c });
        i = i + 1;
    }
    assert(cs@.subrange(0, cs@.len() as int) =~= cs@);
    out
}

pub open spec fn yaml_special(c: char) -> bool {
    c == ':' || c == '#' || c == '"' || c == '\'' || c == '\n'
}

/// Backslashes doubled and double quotes escaped.
pub open spec fn escape_quoted(s: Seq<char>) -> Seq<char>
    decreases s.len(),
{
    if s.len() == 0 {
        seq![]
    } else {
        let c = s.last();
        escape_quoted(s.drop_last()) + if c == '\\' {
            seq!['\\', '\\']
        } else if c == '"' {
            seq!['\\', '"']
        } else {
            seq![c]
        }
    }
}

/// A YAML scalar for `s`: `""` when empty, double-quoted with escapes when
/// it holds `:`, `#`, a quote or a line break, else `s` itself.
pub open spec fn yaml_escape_spec(s: Seq<char>) -> Seq<char> {
    if s.len() == 0 {
        seq!['"', '"']
    } else if exists|i: int| 0 <= i < s.len() && yaml_special(#[trigger] s[i]) {
        seq!['"'] + escape_quoted(s) + seq!['"']
    } else {
        s
    }
}

fn push_yaml_escaped(out: &mut Vec<char>, s: &str)
    ensures
        final(out)@ == old(out)@ + yaml_escape_spec(s@),
{
    let cs = chars_of(s);
    if cs.len() == 0 {
        out.push('"');
        out.push('"');
        assert(final(out)@ =~= old(out)@ + yaml_escape_spec(s@)) by {
            assert(s@.len() == 0);
        }
        return;
    }
    let mut special = false;
    let mut i: usize = 0;
    while i < cs.len()
        invariant
            i <= cs@.len(),
            cs@ == s@,
            special == exists|k: int| 0 <= k < i && yaml_special(#[trigger] cs@[k]),
        decreases cs@.len() - i,
    {
        let c = cs[i];
        if c == ':' || c == '#' || c == '"' || c == '\'' || c == '\n' {
            special = true;
        }
        i = i + 1;
    }
    if !special {
        push_chars(out, cs.as_slice());
        return;
    }
    out.push('"');
    let ghost base = out@;
    let mut j: usize = 0;
    while j < cs.len()
        invariant
            j <= cs@.len(),
            cs@ == s@,
            out@ == base + escape_quoted(cs@.subrange(0, j as int)),
        decreases cs@.len() - j,
    {
        let c = cs[j];
        if c == '\\' {
            out.push('\\');
            out.push('\\');
        } else if c == '"' {
            out.push('\\');
            out.push('"');
        } else {
            out.push(c);
        }
        proof {
            let t = cs@.subrange(0, j + 1);
            assert(t.drop_last() =~= cs@.subrange(0, j as int));
            assert(t.last() == c);
        }
        j = j + 1;
        assert(out@ =~= base + escape_quoted(cs@.subrange(0, j as int)));
    }
    assert(cs@.subrange(0, cs@.len() as int) =~= cs@);
    out.push('"');
}

/// The extension of `p`, or `rs` when it has none.
pub open spec fn ext_or_rs(p: Seq<char>) -> Seq<char> {
    match extension(p) {
        Some(e) => e,
        None => seq!['r', 's'],
    }
}

fn ext_or_rs_string(p: &str) -> (r: String)
    ensures
        r@ == ext_or_rs(p@),
{
    match path_extension(p) {
        Some(e) => e,
        None => {
            let v: Vec<char> = vec!['r', 's'];
            assert(v@ =~= seq!['r', 's']);
            string_of(v.as_slice())
        },
    }
}

/// Link target of a source's structure file: `<ext>/structure/<key>`, the
/// key without its extension.
pub open spec fn structure_link_spec(src_display: Seq<char>) -> Seq<char> {
    ext_or_rs(src_display) + "/structure/"@ + to_slash_spec(strip_extension(src_display))
}

fn push_structure_link(out: &mut Vec<char>, src_display: &str)
    ensures
        final(out)@ == old(out)@ + structure_link_spec(src_display@),
{
    let ext = ext_or_rs_string(src_display);
    push_str_chars(out, ext.as_str());
    push_str_chars(out, "/structure/");
    let key = path_strip_extension(src_display);
    let slashed = to_slash(key.as_str());
    push_str_chars(out, slashed.as_str());
    assert(final(out)@ =~= old(out)@ + structure_link_spec(src_display@));
}

/// `<index_dir>/<ext>/structure/<source key with .md>`.
pub open spec fn structure_path_spec(source_key: Seq<char>, index_dir: Seq<char>) -> Seq<char> {
    join(
        join(join(index_dir, ext_or_rs(source_key)), "structure"@),
        crate::slashpath::with_extension(source_key, "md"@),
    )
}

/// Where the structure file of a source goes.
pub fn structure_path(source_key: &str, index_dir: &str) -> (r: String)
    ensures
        r@ == structure_path_spec(source_key@, index_dir@),
{
    let ext = ext_or_rs_string(source_key);
    let a = path_join(index_dir, ext.as_str());
    let b = path_join(a.as_str(), "structure");
    let key = crate::slashpath::path_with_extension(source_key, "md");
    path_join(b.as_str(), key.as_str())
}

/// `<index_dir>/<ext>/functions/<source key without extension>/<name>.md`.
pub open spec fn body_path_spec(source_key: Seq<char>, ext: Seq<char>, fn_name: Seq<char>, index_dir: Seq<char>) -> Seq<char> {
    join(
        join(join(join(index_dir, ext), "functions"@), strip_extension(source_key)),
        sanitize_fn_name_spec(fn_name) + ".md"@,
    )
}

/// Where the body file of one function goes.
pub fn body_path(source_key: &str, ext: &str, fn_name: &str, index_dir: &str) -> (r: String)
    ensures
        r@ == body_path_spec(source_key@, ext@, fn_name@, index_dir@),
{
    let a = path_join(index_dir, ext);
    let b = path_join(a.as_str(), "functions");
    let stem = path_strip_extension(source_key);
    let c = path_join(b.as_str(), stem.as_str());
    let mut file = sanitize_fn_name(fn_name);
    push_str_chars(&mut file, ".md");
    let f = string_of(file.as_slice());
    path_join(c.as_str(), f.as_str())
}

/// The markdown file of one function: front matter (tags, name, source,
/// lines, language, signature), heading, signature, fenced body, and a link
/// back to the structure file.
pub open spec fn body_md_spec(ext: Seq<char>, src_display: Seq<char>, m: FnMetaView) -> Seq<char> {
    "---\n"@ + "tags: [code, code-function]\n"@ + "fn: "@ + yaml_escape_spec(m.name) + "\n"@
        + "source: "@ + yaml_escape_spec(src_display) + "\n"@ + "lines: "@ + dec(
        m.line_start as nat,
    ) + "-"@ + dec(m.line_end as nat) + "\n"@ + "language: "@ + ext + "\n"@ + "signature: "@
        + yaml_escape_spec(m.signature) + "\n"@ + "---\n\n"@ + "# "@ + m.name + "\n\n"@ + (if m.signature.len()
        > 0 {
        "`"@ + m.signature + "`\n\n"@
    } else {
        seq![]
    }) + "```"@ + ext + "\n"@ + m.raw + "\n```\n\n"@ + "← [["@ + structure_link_spec(src_display)
        + "]]\n"@
}

/// Renders the body file of `m`.
pub fn render_body_md(ext: &str, src_display: &str, m: &FnMeta) -> (r: String)
    ensures
        r@ == body_md_spec(ext@, src_display@, m@),
{
    let mut out: Vec<char> = Vec::new();
    push_str_chars(&mut out, "---\n");
    push_str_chars(&mut out, "tags: [code, code-function]\n");
    push_str_chars(&mut out, "fn: ");
    push_yaml_escaped(&mut out, m.name.as_str());
    push_str_chars(&mut out, "\n");
    push_str_chars(&mut out, "source: ");
    push_yaml_escaped(&mut out, src_display);
    push_str_chars(&mut out, "\n");
    push_str_chars(&mut out, "lines: ");
    let a = dec_string(m.line_start as u64);
    push_str_chars(&mut out, a.as_str());
    push_str_chars(&mut out, "-");
    let b = dec_string(m.line_end as u64);
    push_str_chars(&mut out, b.as_str());
    push_str_chars(&mut out, "\n");
    push_str_chars(&mut out, "language: ");
    push_str_chars(&mut out, ext);
    push_str_chars(&mut out, "\n");
    push_str_chars(&mut out, "signature: ");
    push_yaml_escaped(&mut out, m.signature.as_str());
    push_str_chars(&mut out, "\n");
    push_str_chars(&mut out, "---\n\n");
    push_str_chars(&mut out, "# ");
    push_str_chars(&mut out, m.name.as_str());
    push_str_chars(&mut out, "\n\n");
    let ghost mid = out@;
    if !m.signature.as_str().is_empty() {
        push_str_chars(&mut out, "`");
        push_str_chars(&mut out, m.signature.as_str());
        push_str_chars(&mut out, "`\n\n");
    }
    assert(out@ =~= mid + (if m@.signature.len() > 0 {
        "`"@ + m@.signature + "`\n\n"@
    } else {
        seq![]
    }));
    push_str_chars(&mut out, "```");
    push_str_chars(&mut out, ext);
    push_str_chars(&mut out, "\n");
    push_str_chars(&mut out, m.raw.as_str());
    push_str_chars(&mut out, "\n```\n\n");
    push_str_chars(&mut out, "← [[");
    push_structure_link(&mut out, src_display);
    push_str_chars(&mut out, "]]\n");
    assert(out@ =~= body_md_spec(ext@, src_display@, m@));
    string_of(out.as_slice())
}

/// First line index (0-based) covered by a function.
pub open spec fn line_lo(f: FnMetaView) -> int {
    if f.line_start > 0 {
        f.line_start - 1
    } else {
        0
    }
}

/// End (exclusive) of the line indexes covered by a function among `n`
/// lines.
pub open spec fn line_hi(f: FnMetaView, n: int) -> int {
    if f.line_end < n {
        f.line_end
    } else {
        n
    }
}

/// Every function's line range is well ordered within `n` lines.
pub open spec fn ranges_fit(fns: Seq<FnMetaView>, n: int) -> bool {
    forall|k: int| 0 <= k < fns.len() ==> line_lo(#[trigger] fns[k]) <= line_hi(fns[k], n)
}

pub open spec fn covered(fns: Seq<FnMetaView>, n: int, i: int) -> bool {
    exists|k: int| 0 <= k < fns.len() && line_lo(#[trigger] fns[k]) <= i < line_hi(fns[k], n)
}

/// The first `i` lines of `ls` that no function covers.
pub open spec fn kept_lines(ls: Seq<Seq<char>>, fns: Seq<FnMetaView>, i: int) -> Seq<Seq<char>>
    decreases i,
{
    if i <= 0 || i > ls.len() {
        seq![]
    } else {
        kept_lines(ls, fns, i - 1) + if covered(fns, ls.len() as int, i - 1) {
            seq![]
        } else {
            seq![ls[i - 1]]
        }
    }
}

pub open spec fn metas_view(fns: Seq<FnMeta>) -> Seq<FnMetaView> {
    fns.map_values(|f: FnMeta| f@)
}

/// The source without the lines of its functions (the whole source when
/// there are none).
pub open spec fn top_level_spec(source: Seq<char>, fns: Seq<FnMetaView>) -> Seq<char> {
    if fns.len() == 0 {
        source
    } else {
        join_with(kept_lines(lines(source), fns, lines(source).len() as int), seq!['\n'])
    }
}

fn top_level_text(source: &[char], fns: &[FnMeta]) -> (r: Vec<char>)
    requires
        ranges_fit(metas_view(fns@), lines(source@).len() as int),
    ensures
        r@ == top_level_spec(source@, metas_view(fns@)),
{
    let ghost fv = metas_view(fns@);
    if fns.len() == 0 {
        let mut v: Vec<char> = Vec::new();
        push_chars(&mut v, source);
        assert(v@ =~= source@);
        return v;
    }
    let ls = lines_of(source);
    let ghost lv = ls@.map_values(|l: Vec<char>| l@);
    let n = ls.len();
    let mut keep: Vec<bool> = Vec::new();
    let mut i: usize = 0;
    while i < n
        invariant
            i <= n,
            n == ls@.len(),
            keep@.len() == i,
            forall|j: int| 0 <= j < i ==> keep@[j],
        decreases n - i,
    {
        keep.push(true);
        i = i + 1;
    }
    let mut k: usize = 0;
    while k < fns.len()
        invariant
            k <= fns@.len(),
            fv == metas_view(fns@),
            n == ls@.len(),
            n == lines(source@).len(),
            ranges_fit(fv, n as int),
            keep@.len() == n,
            forall|j: int|
                0 <= j < n ==> (keep@[j] <==> !exists|m: int|
                    0 <= m < k && line_lo(#[trigger] fv[m]) <= j < line_hi(fv[m], n as int)),
        decreases fns@.len() - k,
    {
        let f = &fns[k];
        let lo: usize = if f.line_start > 0 {
            f.line_start - 1
        } else {
            0
        };
        let hi: usize = if f.line_end < n {
            f.line_end
        } else {
            n
        };
        assert(fv[k as int] == fns@[k as int]@);
        let ghost keep0 = keep@;
        let mut j = lo;
        while j < hi
            invariant
                lo <= hi <= n,
                lo <= j <= hi,
                keep@.len() == n,
                forall|x: int| 0 <= x < n ==> keep@[x] == if lo <= x < j {
                    false
                } else {
                    keep0[x]
                },
            decreases hi - j,
        {
            keep.set(j, false);
            j = j + 1;
        }
        proof {
            assert forall|x: int| 0 <= x < n implies (keep@[x] <==> !exists|m: int|
                0 <= m < k + 1 && line_lo(#[trigger] fv[m]) <= x < line_hi(fv[m], n as int)) by {
                if exists|m: int| 0 <= m < k + 1 && line_lo(#[trigger] fv[m]) <= x < line_hi(fv[m], n as int) {
                    let m = choose|m: int| 0 <= m < k + 1 && line_lo(#[trigger] fv[m]) <= x < line_hi(fv[m], n as int);
                    if m < k {
                        assert(!keep0[x]);
                    }
                }
            }
        }
        k = k + 1;
    }
    let mut kept: Vec<Vec<char>> = Vec::new();
    let mut i: usize = 0;
    while i < n
        invariant
            i <= n,
            n == ls@.len(),
            lv == ls@.map_values(|l: Vec<char>| l@),
            keep@.len() == n,
            forall|j: int| 0 <= j < n ==> (keep@[j] <==> !covered(fv, n as int, j)),
            kept@.map_values(|l: Vec<char>| l@) == kept_lines(lv, fv, i as int),
        decreases n - i,
    {
        let ghost before = kept@.map_values(|l: Vec<char>| l@);
        if keep[i] {
            let mut line: Vec<char> = Vec::new();
            push_chars(&mut line, ls[i].as_slice());
            kept.push(line);
            assert(kept@.map_values(|l: Vec<char>| l@) =~= before + seq![lv[i as int]]);
        } else {
            assert(kept@.map_values(|l: Vec<char>| l@) =~= before + Seq::<Seq<char>>::empty());
        }
        i = i + 1;
    }
    assert(lv == lines(source@));
    join_lines(&kept)
}

/// Lines joined by line breaks.
fn join_lines(ls: &Vec<Vec<char>>) -> (r: Vec<char>)
    ensures
        r@ == join_with(ls@.map_values(|l: Vec<char>| l@), seq!['\n']),
{
    let ghost lv = ls@.map_values(|l: Vec<char>| l@);
    let mut out: Vec<char> = Vec::new();
    let mut i: usize = 0;
    while i < ls.len()
        invariant
            i <= ls@.len(),
            lv == ls@.map_values(|l: Vec<char>| l@),
            out@ == join_with(lv.subrange(0, i as int), seq!['\n']),
        decreases ls@.len() - i,
    {
        let ghost t = lv.subrange(0, i + 1);
        assert(t.drop_last() =~= lv.subrange(0, i as int));
        if i > 0 {
            out.push('\n');
        } else {
            assert(out@ =~= Seq::<char>::empty());
        }
        push_chars(&mut out, ls[i].as_slice());
        assert(t.last() == ls@[i as int]@);
        if i == 0 {
            assert(t.len() == 1 && t[0] == ls@[0]@);
        }
        i = i + 1;
    }
    assert(lv.subrange(0, ls@.len() as int) =~= lv);
    out
}

/// The `fns:` list of the structure file's front matter.
pub open spec fn fn_list_spec(fns: Seq<FnMetaView>) -> Seq<char>
    decreases fns.len(),
{
    if fns.len() == 0 {
        seq![]
    } else {
        fn_list_spec(fns.drop_last()) + "  - "@ + yaml_escape_spec(fns.last().name) + "\n"@
    }
}

/// One entry of the structure file's function list: a link to the body
/// file, the lines, and the signature when there is one.
pub open spec fn fn_entry_spec(f: FnMetaView, source_key: Seq<char>, ext: Seq<char>) -> Seq<char> {
    "- [["@ + ext + "/functions/"@ + to_slash_spec(strip_extension(source_key)) + "/"@
        + sanitize_fn_name_spec(f.name) + "|"@ + f.name + "]] — lines "@ + dec(f.line_start as nat)
        + "-"@ + dec(f.line_end as nat) + "\n"@ + if f.signature.len() > 0 {
        "  - `"@ + f.signature + "`\n"@
    } else {
        seq![]
    }
}

pub open spec fn fn_entries_spec(fns: Seq<FnMetaView>, source_key: Seq<char>, ext: Seq<char>) -> Seq<char>
    decreases fns.len(),
{
    if fns.len() == 0 {
        seq![]
    } else {
        fn_entries_spec(fns.drop_last(), source_key, ext) + fn_entry_spec(fns.last(), source_key, ext)
    }
}

/// The structure file of a source: front matter listing the functions,
/// heading, the top-level text outside the functions when it is not blank,
/// and the list of functions.
pub open spec fn structure_md_spec(source: Seq<char>, source_key: Seq<char>, ext: Seq<char>, fns: Seq<FnMetaView>) -> Seq<char> {
    let sd = to_slash_spec(source_key);
    let top = top_level_spec(source, fns);
    "---\n"@ + "tags: [code, code-structure]\n"@ + "source: "@ + yaml_escape_spec(sd) + "\n"@
        + "language: "@ + ext + "\n"@ + "fns:\n"@ + fn_list_spec(fns) + "---\n\n"@ + "# "@ + sd
        + "\n\n"@ + (if trim(top).len() > 0 {
        "## Top-level\n\n"@ + "```"@ + ext + "\n"@ + trim_end(top) + "\n```\n\n"@
    } else {
        seq![]
    }) + "## Functions\n\n"@ + fn_entries_spec(fns, source_key, ext)
}

fn push_fn_entry(out: &mut Vec<char>, f: &FnMeta, source_key: &str, ext: &str)
    ensures
        final(out)@ == old(out)@ + fn_entry_spec(f@, source_key@, ext@),
{
    push_str_chars(out, "- [[");
    push_str_chars(out, ext);
    push_str_chars(out, "/functions/");
    let stem = path_strip_extension(source_key);
    let stem_slash = to_slash(stem.as_str());
    push_str_chars(out, stem_slash.as_str());
    push_str_chars(out, "/");
    let safe = sanitize_fn_name(f.name.as_str());
    push_chars(out, safe.as_slice());
    push_str_chars(out, "|");
    push_str_chars(out, f.name.as_str());
    push_str_chars(out, "]] — lines ");
    let a = dec_string(f.line_start as u64);
    push_str_chars(out, a.as_str());
    push_str_chars(out, "-");
    let b = dec_string(f.line_end as u64);
    push_str_chars(out, b.as_str());
    push_str_chars(out, "\n");
    let ghost mid2 = out@;
    if !f.signature.as_str().is_empty() {
        push_str_chars(out, "  - `");
        push_str_chars(out, f.signature.as_str());
        push_str_chars(out, "`\n");
    }
    assert(out@ =~= mid2 + if f@.signature.len() > 0 {
        "  - `"@ + f@.signature + "`\n"@
    } else {
        seq![]
    });
    assert(out@ =~= old(out)@ + fn_entry_spec(f@, source_key@, ext@));
}

/// Renders the structure file of a source.
pub fn render_structure_md(source: &str, source_key: &str, ext: &str, fns: &[FnMeta]) -> (r: String)
    requires
        ranges_fit(metas_view(fns@), lines(source@).len() as int),
    ensures
        r@ == structure_md_spec(source@, source_key@, ext@, metas_view(fns@)),
{
    let ghost fv = metas_view(fns@);
    let sd = to_slash(source_key);
    let mut out: Vec<char> = Vec::new();
    push_str_chars(&mut out, "---\n");
    push_str_chars(&mut out, "tags: [code, code-structure]\n");
    push_str_chars(&mut out, "source: ");
    push_yaml_escaped(&mut out, sd.as_str());
    push_str_chars(&mut out, "\n");
    push_str_chars(&mut out, "language: ");
    push_str_chars(&mut out, ext);
    push_str_chars(&mut out, "\n");
    push_str_chars(&mut out, "fns:\n");
    let ghost head = out@;
    let mut k: usize = 0;
    while k < fns.len()
        invariant
            k <= fns@.len(),
            fv == metas_view(fns@),
            out@ == head + fn_list_spec(fv.subrange(0, k as int)),
        decreases fns@.len() - k,
    {
        let ghost t = fv.subrange(0, k + 1);
        assert(t.drop_last() =~= fv.subrange(0, k as int));
        assert(t.last() == fns@[k as int]@);
        push_str_chars(&mut out, "  - ");
        push_yaml_escaped(&mut out, fns[k].name.as_str());
        push_str_chars(&mut out, "\n");
        k = k + 1;
        assert(out@ =~= head + fn_list_spec(fv.subrange(0, k as int)));
    }
    assert(fv.subrange(0, fns@.len() as int) =~= fv);
    push_str_chars(&mut out, "---\n\n");
    push_str_chars(&mut out, "# ");
    push_str_chars(&mut out, sd.as_str());
    push_str_chars(&mut out, "\n\n");
    let src_chars = chars_of(source);
    let top = top_level_text(src_chars.as_slice(), fns);
    let trimmed = trim_chars(top.as_slice());
    let ghost mid = out@;
    if trimmed.len() > 0 {
        push_str_chars(&mut out, "## Top-level\n\n");
        push_str_chars(&mut out, "```");
        push_str_chars(&mut out, ext);
        push_str_chars(&mut out, "\n");
        let te = trim_end_from(top.as_slice(), 0);
        assert(top@.subrange(0, top@.len() as int) =~= top@);
        push_chars(&mut out, te.as_slice());
        push_str_chars(&mut out, "\n```\n\n");
    }
    let ghost top_part = if trim(top@).len() > 0 {
        "## Top-level\n\n"@ + "```"@ + ext@ + "\n"@ + trim_end(top@) + "\n```\n\n"@
    } else {
        seq![]
    };
    assert(out@ =~= mid + top_part);
    push_str_chars(&mut out, "## Functions\n\n");
    let ghost head2 = out@;
    let mut k: usize = 0;
    while k < fns.len()
        invariant
            k <= fns@.len(),
            fv == metas_view(fns@),
            out@ == head2 + fn_entries_spec(fv.subrange(0, k as int), source_key@, ext@),
        decreases fns@.len() - k,
    {
        let ghost t = fv.subrange(0, k + 1);
        assert(t.drop_last() =~= fv.subrange(0, k as int));
        assert(t.last() == fns@[k as int]@);
        push_fn_entry(&mut out, &fns[k], source_key, ext);
        k = k + 1;
        assert(out@ =~= head2 + fn_entries_spec(fv.subrange(0, k as int), source_key@, ext@));
    }
    assert(fv.subrange(0, fns@.len() as int) =~= fv);
    assert(out@ =~= structure_md_spec(source@, source_key@, ext@, fv));
    string_of(out.as_slice())
}

/// The single entry of a source split as a whole: `_body`, the whole text
/// with trailing whitespace trimmed, lines 1 to the line count (at least 1).
pub open spec fn generic_meta_spec(source: Seq<char>, src_display: Seq<char>) -> FnMetaView {
    FnMetaView {
        name: "_body"@,
        signature: "(whole file: "@ + src_display + ")"@,
        raw: trim_end(source),
        line_start: 1,
        line_end: if lines(source).len() > 0 {
            lines(source).len() as int
        } else {
            1
        },
    }
}

/// The extension of `p`, or nothing.
pub open spec fn ext_or_empty(p: Seq<char>) -> Seq<char> {
    match extension(p) {
        Some(e) => e,
        None => seq![],
    }
}

/// Metadata the Rust splitter yields for source bytes `b`.
pub open spec fn rs_metas(b: Seq<u8>) -> Seq<FnMetaView> {
    find_fns_spec(b, 0).map_values(|l: FnLoc| rs_meta_spec(b, l))
}

/// Metadata the Python splitter yields for source bytes `b`.
pub open spec fn py_metas(b: Seq<u8>) -> Seq<FnMetaView> {
    find_defs_spec(b, line_starts_exec_view(b), 0, seq![]).map_values(|d: DefLocView| py_meta_spec(b, d))
}

/// The functions and the extension a source is rendered with: a language
/// module's result when there is one; otherwise the Python or Rust
/// splitter for `py` / `rs`, and for other extensions the whole file as one
/// entry under the source's own extension.
pub open spec fn split_plan(
    source: Seq<char>,
    bytes: Seq<u8>,
    source_key: Seq<char>,
    ext: Seq<char>,
    module_result: Option<Seq<FnMetaView>>,
) -> (Seq<FnMetaView>, Seq<char>) {
    match module_result {
        Some(m) => (m, ext),
        None => if ext == "py"@ {
            (py_metas(bytes), ext)
        } else if ext == "rs"@ {
            (rs_metas(bytes), ext)
        } else {
            (seq![generic_meta_spec(source, to_slash_spec(source_key))], ext_or_empty(source_key))
        },
    }
}

/// Why a source could not be rendered.
#[derive(Debug, Clone, Copy, PartialEq, Eq)]
pub enum SplitError {
    /// A function's line range starts past its end within the source.
    LineRangeOutsideSource,
}

fn metas_of_rs(source: &str) -> (r: Vec<FnMeta>)
    requires
        source.spec_bytes().len() <= crate::code::rs_lang::max_source_len(),
    ensures
        metas_view(r@) == rs_metas(source.spec_bytes()),
{
    let r = split_rs(source);
    assert(metas_view(r@) =~= rs_metas(source.spec_bytes()));
    r
}

fn metas_of_py(source: &str) -> (r: Vec<FnMeta>)
    requires
        source.spec_bytes().len() <= max_py_len(),
    ensures
        metas_view(r@) == py_metas(source.spec_bytes()),
{
    let r = split_py(source);
    assert(metas_view(r@) =~= py_metas(source.spec_bytes()));
    r
}

fn generic_meta(source: &str, src_display: &str) -> (r: FnMeta)
    ensures
        r@ == generic_meta_spec(source@, src_display@),
{
    let mut sig: Vec<char> = Vec::new();
    push_str_chars(&mut sig, "(whole file: ");
    push_str_chars(&mut sig, src_display);
    push_str_chars(&mut sig, ")");
    let cs = chars_of(source);
    let raw = trim_end_from(cs.as_slice(), 0);
    assert(cs@.subrange(0, cs@.len() as int) =~= cs@);
    let n = lines_of(cs.as_slice()).len();
    let line_end = if n > 0 {
        n
    } else {
        1
    };
    let name = "_body".to_owned();
    FnMeta {
        name,
        signature: string_of(sig.as_slice()),
        raw: string_of(raw.as_slice()),
        line_start: 1,
        line_end,
    }
}

/// Whether every line range fits among `n` lines.
fn fits(fns: &Vec<FnMeta>, n: usize) -> (r: bool)
    ensures
        r == ranges_fit(metas_view(fns@), n as int),
{
    let ghost fv = metas_view(fns@);
    let mut k: usize = 0;
    while k < fns.len()
        invariant
            k <= fns@.len(),
            fv == metas_view(fns@),
            forall|j: int| 0 <= j < k ==> line_lo(#[trigger] fv[j]) <= line_hi(fv[j], n as int),
        decreases fns@.len() - k,
    {
        let f = &fns[k];
        assert(fv[k as int] == f@);
        let lo: usize = if f.line_start > 0 {
            f.line_start - 1
        } else {
            0
        };
        let hi: usize = if f.line_end < n {
            f.line_end
        } else {
            n
        };
        if lo > hi {
            return false;
        }
        k = k + 1;
    }
    true
}

/// Renders the structure file and one body file per function of a source
/// (`source_key` is its path relative to the project, `index_dir` the code
/// index). `module_result` is what a language module loaded for `ext`
/// returned, if any.
pub fn split_for_ext(
    source: &str,
    source_key: &str,
    index_dir: &str,
    ext: &str,
    module_result: Option<Vec<FnMeta>>,
) -> (r: Result<(String, Vec<BodyFile>), SplitError>)
    requires
        source.spec_bytes().len() <= max_py_len(),
    ensures
        ({
            let plan = split_plan(
                source@,
                source.spec_bytes(),
                source_key@,
                ext@,
                match module_result {
                    Some(m) => Some(metas_view(m@)),
                    None => None,
                },
            );
            let fns = plan.0;
            let rext = plan.1;
            &&& r is Ok <==> ranges_fit(fns, lines(source@).len() as int)
            &&& r matches Ok((structure, bodies)) ==> {
                &&& structure@ == structure_md_spec(source@, source_key@, rext, fns)
                &&& bodies@.len() == fns.len()
                &&& forall|k: int|
                    0 <= k < fns.len() ==> (#[trigger] bodies@[k]).path@ == body_path_spec(
                        source_key@,
                        rext,
                        fns[k].name,
                        index_dir@,
                    ) && bodies@[k].content@ == body_md_spec(rext, to_slash_spec(source_key@), fns[k])
            }
        }),
{
    let sd = to_slash(source_key);
    proof {
        reveal_strlit("py");
        reveal_strlit("rs");
    }
    let (metas, rext) = match module_result {
        Some(m) => (m, ext.to_owned()),
        None => if crate::text::str_eq(ext, "py") {
            (metas_of_py(source), ext.to_owned())
        } else if crate::text::str_eq(ext, "rs") {
            assert(source.spec_bytes().len() <= crate::code::rs_lang::max_source_len());
            (metas_of_rs(source), ext.to_owned())
        } else {
            let m = generic_meta(source, sd.as_str());
            let v: Vec<FnMeta> = vec![m];
            assert(metas_view(v@) =~= seq![m@]);
            let e = match path_extension(source_key) {
                Some(e) => e,
                None => String::new(),
            };
            (v, e)
        },
    };
    let cs = chars_of(source);
    let n = lines_of(cs.as_slice()).len();
    if !fits(&metas, n) {
        return Err(SplitError::LineRangeOutsideSource);
    }
    let ghost fv = metas_view(metas@);
    let mut bodies: Vec<BodyFile> = Vec::new();
    let mut k: usize = 0;
    while k < metas.len()
        invariant
            k <= metas@.len(),
            fv == metas_view(metas@),
            bodies@.len() == k,
            forall|j: int|
                0 <= j < k ==> (#[trigger] bodies@[j]).path@ == body_path_spec(
                    source_key@,
                    rext@,
                    fv[j].name,
                    index_dir@,
                ) && bodies@[j].content@ == body_md_spec(rext@, sd@, fv[j]),
        decreases metas@.len() - k,
    {
        let m = &metas[k];
        assert(fv[k as int] == m@);
        let path = body_path(source_key, rext.as_str(), m.name.as_str(), index_dir);
        let content = render_body_md(rext.as_str(), sd.as_str(), m);
        bodies.push(BodyFile { path, content });
        k = k + 1;
    }
    let structure = render_structure_md(source, source_key, rext.as_str(), metas.as_slice());
    Ok((structure, bodies))
}

/// Renders a source as a single entry holding the whole file.
pub fn split_generic(source: &str, source_key: &str, index_dir: &str) -> (r: (String, Vec<BodyFile>))
    ensures
        ({
            let m = generic_meta_spec(source@, to_slash_spec(source_key@));
            let e = ext_or_empty(source_key@);
            &&& r.0@ == structure_md_spec(source@, source_key@, e, seq![m])
            &&& r.1@.len() == 1
            &&& r.1@[0].path@ == body_path_spec(source_key@, e, m.name, index_dir@)
            &&& r.1@[0].content@ == body_md_spec(e, to_slash_spec(source_key@), m)
        }),
{
    let sd = to_slash(source_key);
    let m = generic_meta(source, sd.as_str());
    let e = match path_extension(source_key) {
        Some(e) => e,
        None => String::new(),
    };
    let path = body_path(source_key, e.as_str(), m.name.as_str(), index_dir);
    let content = render_body_md(e.as_str(), sd.as_str(), &m);
    let v: Vec<FnMeta> = vec![m];
    assert(metas_view(v@) =~= seq![v@[0]@]);
    let structure = render_structure_md(source, source_key, e.as_str(), v.as_slice());
    let mut bodies: Vec<BodyFile> = Vec::new();
    bodies.push(BodyFile { path, content });
    (structure, bodies)
}

/// Values of a text map as text.
pub open spec fn text_map(m: Map<Seq<char>, String>) -> Map<Seq<char>, Seq<char>> {
    m.map_values(|v: String| v@)
}

/// The pending list key, if any, stored with its items joined by commas.
pub open spec fn flush_spec(m: Map<Seq<char>, Seq<char>>, cur: Option<Seq<char>>, list: Seq<Seq<char>>) -> Map<
    Seq<char>,
    Seq<char>,
> {
    match cur {
        Some(k) => m.insert(k, join_with(list, seq![','])),
        None => m,
    }
}

/// Front matter lines from `i` on: `key: value` pairs (value trimmed and
/// unquoted); a key with an empty value starts a list whose `  - item`
/// lines are joined by commas; the closing `---` ends it. No closing line
/// means no front matter.
pub open spec fn fm_parse(
    ls: Seq<Seq<char>>,
    i: int,
    m: Map<Seq<char>, Seq<char>>,
    cur: Option<Seq<char>>,
    list: Seq<Seq<char>>,
) -> Option<Map<Seq<char>, Seq<char>>>
    decreases ls.len() - i,
{
    if i < 0 || i >= ls.len() {
        None
    } else {
        let line = ls[i];
        if line == "---"@ {
            Some(flush_spec(m, cur, list))
        } else if has_prefix(line, "  - "@) && cur is Some {
            fm_parse(
                ls,
                i + 1,
                m,
                cur,
                list.push(trim_char(trim(line.subrange(4, line.len() as int)), '"')),
            )
        } else {
            let m1 = flush_spec(m, cur, list);
            let c = first_index_of(line, ':');
            if c < 0 {
                fm_parse(ls, i + 1, m1, None, seq![])
            } else {
                let k = trim(line.subrange(0, c));
                let v = trim_char(trim(line.subrange(c + 1, line.len() as int)), '"');
                if v.len() == 0 {
                    fm_parse(ls, i + 1, m1, Some(k), seq![])
                } else {
                    fm_parse(ls, i + 1, m1.insert(k, v), None, seq![])
                }
            }
        }
    }
}

/// Front matter of a markdown text: present only when the first line is
/// `---` and a closing `---` follows.
pub open spec fn frontmatter_spec(content: Seq<char>) -> Option<Map<Seq<char>, Seq<char>>> {
    let ls = lines(content);
    if ls.len() == 0 || ls[0] != "---"@ {
        None
    } else {
        fm_parse(ls, 1, Map::empty(), None, seq![])
    }
}

fn join_commas(list: &Vec<String>) -> (r: String)
    ensures
        r@ == join_with(list@.map_values(|s: String| s@), seq![',']),
{
    let ghost lv = list@.map_values(|s: String| s@);
    let mut out: Vec<char> = Vec::new();
    let mut i: usize = 0;
    while i < list.len()
        invariant
            i <= list@.len(),
            lv == list@.map_values(|s: String| s@),
            out@ == join_with(lv.subrange(0, i as int), seq![',']),
        decreases list@.len() - i,
    {
        let ghost t = lv.subrange(0, i + 1);
        assert(t.drop_last() =~= lv.subrange(0, i as int));
        if i > 0 {
            out.push(',');
        } else {
            assert(out@ =~= Seq::<char>::empty());
        }
        push_str_chars(&mut out, list[i].as_str());
        assert(t.last() == list@[i as int]@);
        i = i + 1;
    }
    assert(lv.subrange(0, list@.len() as int) =~= lv);
    string_of(out.as_slice())
}

fn flush(m: &mut KeyedMap<String>, cur: Option<String>, list: &Vec<String>)
    requires
        old(m).wf(),
    ensures
        final(m).wf(),
        text_map(final(m)@) == flush_spec(
            text_map(old(m)@),
            match cur {
                Some(k) => Some(k@),
                None => None,
            },
            list@.map_values(|s: String| s@),
        ),
{
    match cur {
        Some(k) => {
            let j = join_commas(list);
            let ghost kk = k@;
            let ghost jv = j@;
            m.insert(k, j);
            assert(text_map(m@) =~= text_map(old(m)@).insert(kk, jv));
        },
        None => {},
    }
}

/// Parses the front matter of a markdown text into key/value text.
pub fn parse_frontmatter(content: &str) -> (r: Option<KeyedMap<String>>)
    ensures
        r is Some <==> frontmatter_spec(content@) is Some,
        r matches Some(m) ==> m.wf() && text_map(m@) == frontmatter_spec(content@)->0,
{
    let cs = chars_of(content);
    let ls = lines_of(cs.as_slice());
    let ghost lv = ls@.map_values(|l: Vec<char>| l@);
    let dashes = chars_of("---");
    let item = chars_of("  - ");
    proof {
        reveal_strlit("  - ");
    }
    if ls.len() == 0 || !chars_eq(ls[0].as_slice(), dashes.as_slice()) {
        proof {
            if ls@.len() > 0 {
                assert(lv[0] == ls@[0]@);
            }
        }
        return None;
    }
    assert(lv[0] == ls@[0]@);
    let mut m: KeyedMap<String> = KeyedMap::new();
    let mut cur: Option<String> = None;
    let mut list: Vec<String> = Vec::new();
    let mut i: usize = 1;
    assert(text_map(m@) =~= Map::<Seq<char>, Seq<char>>::empty());
    assert(list@.map_values(|s: String| s@) =~= Seq::<Seq<char>>::empty());
    while i < ls.len()
        invariant
            1 <= i <= ls@.len(),
            lv == ls@.map_values(|l: Vec<char>| l@),
            lv == lines(content@),
            dashes@ == "---"@,
            item@ == "  - "@,
            item@.len() == 4,
            m.wf(),
            fm_parse(
                lv,
                i as int,
                text_map(m@),
                match cur {
                    Some(k) => Some(k@),
                    None => None,
                },
                list@.map_values(|s: String| s@),
            ) == frontmatter_spec(content@),
        decreases ls@.len() - i,
    {
        let line = &ls[i];
        assert(lv[i as int] == line@);
        if chars_eq(line.as_slice(), dashes.as_slice()) {
            flush(&mut m, cur, &list);
            return Some(m);
        }
        if starts_with_chars(line.as_slice(), item.as_slice()) && cur.is_some() {
            let rest = char_range(line.as_slice(), 4, line.len());
            let t = trim_chars(rest.as_slice());
            let u = trim_char_chars(t.as_slice(), '"');
            let ghost before = list@.map_values(|s: String| s@);
            list.push(string_of(u.as_slice()));
            assert(list@.map_values(|s: String| s@) =~= before.push(u@));
            i = i + 1;
            continue;
        }
        flush(&mut m, cur, &list);
        list = Vec::new();
        assert(list@.map_values(|s: String| s@) =~= Seq::<Seq<char>>::empty());
        match first_index(line.as_slice(), ':') {
            None => {
                cur = None;
            },
            Some(c) => {
                let kr = char_range(line.as_slice(), 0, c);
                let k = trim_chars(kr.as_slice());
                let vr = char_range(line.as_slice(), c + 1, line.len());
                let vt = trim_chars(vr.as_slice());
                let v = trim_char_chars(vt.as_slice(), '"');
                if v.len() == 0 {
                    cur = Some(string_of(k.as_slice()));
                } else {
                    let ks = string_of(k.as_slice());
                    let vs = string_of(v.as_slice());
                    let ghost before = text_map(m@);
                    m.insert(ks, vs);
                    assert(text_map(m@) =~= before.insert(k@, v@));
                    cur = None;
                }
            },
        }
        i = i + 1;
    }
    None
}

/// `ps` without `.` entries.
pub open spec fn drop_dots(ps: Seq<Seq<char>>) -> Seq<Seq<char>>
    decreases ps.len(),
{
    if ps.len() == 0 {
        seq![]
    } else if ps.last() == seq!['.'] {
        drop_dots(ps.drop_last())
    } else {
        drop_dots(ps.drop_last()).push(ps.last())
    }
}

/// `ps` without `..` entries.
pub open spec fn drop_parents(ps: Seq<Seq<char>>) -> Seq<Seq<char>>
    decreases ps.len(),
{
    if ps.len() == 0 {
        seq![]
    } else if ps.last() == seq!['.', '.'] {
        drop_parents(ps.drop_last())
    } else {
        drop_parents(ps.drop_last()).push(ps.last())
    }
}

/// The components of a path after its root: its `/`-separated pieces
/// without empty ones and `.`.
pub open spec fn comps(p: Seq<char>) -> Seq<Seq<char>> {
    drop_dots(crate::config::nonempty_pieces(crate::config::split_on(p, '/')))
}

pub open spec fn is_abs(p: Seq<char>) -> bool {
    p.len() > 0 && p[0] == '/'
}

/// The key under which a source is indexed: a relative path as given; an
/// absolute one relative to the working directory `cwd` when inside it;
/// else its named components joined (the path itself when it has none).
pub open spec fn source_key_spec(source: Seq<char>, cwd: Option<Seq<char>>) -> Seq<char> {
    let cs = comps(source);
    if !is_abs(source) {
        source
    } else {
        match cwd {
            Some(c) if is_abs(c) && comps(c).len() <= cs.len() && cs.subrange(0, comps(c).len() as int)
                == comps(c) => join_with(cs.subrange(comps(c).len() as int, cs.len() as int), seq!['/']),
            _ => {
                let k = drop_parents(cs);
                if k.len() == 0 {
                    source
                } else {
                    join_with(k, seq!['/'])
                }
            },
        }
    }
}

pub fn components_of(p: &str) -> (r: Vec<String>)
    ensures
        r@.map_values(|s: String| s@) == comps(p@),
{
    let ps = crate::config::split_nonempty(p, '/');
    let ghost pv = ps@.map_values(|s: String| s@);
    let mut out: Vec<String> = Vec::new();
    let mut i: usize = 0;
    proof {
        reveal_strlit(".");
        assert("."@ =~= seq!['.']);
    }
    while i < ps.len()
        invariant
            i <= ps@.len(),
            pv == ps@.map_values(|s: String| s@),
            "."@ == seq!['.'],
            out@.map_values(|s: String| s@) == drop_dots(pv.subrange(0, i as int)),
        decreases ps@.len() - i,
    {
        let ghost t = pv.subrange(0, i + 1);
        assert(t.drop_last() =~= pv.subrange(0, i as int));
        assert(t.last() == ps@[i as int]@);
        if !str_eq(ps[i].as_str(), ".") {
            let ghost before = out@.map_values(|s: String| s@);
            out.push(ps[i].clone());
            assert(out@.map_values(|s: String| s@) =~= before.push(ps@[i as int]@));
        }
        i = i + 1;
    }
    assert(pv.subrange(0, ps@.len() as int) =~= pv);
    out
}

/// The key under which a source is indexed (see `source_key_spec`).
pub fn source_key(source: &str, cwd: Option<&str>) -> (r: String)
    ensures
        r@ == source_key_spec(source@, match cwd {
            Some(c) => Some(c@),
            None => None,
        }),
{
    let sc = chars_of(source);
    if !(sc.len() > 0 && sc[0] == '/') {
        return string_of(sc.as_slice());
    }
    let cs = components_of(source);
    let ghost cv = cs@.map_values(|s: String| s@);
    match cwd {
        Some(c) => {
            let cc = chars_of(c);
            if cc.len() > 0 && cc[0] == '/' {
                let pc = components_of(c);
                let ghost pcv = pc@.map_values(|s: String| s@);
                if pc.len() <= cs.len() {
                    let mut k: usize = 0;
                    let mut same = true;
                    assert(cv.subrange(0, 0) =~= pcv.subrange(0, 0));
                    while k < pc.len()
                        invariant
                            k <= pc@.len() <= cs@.len(),
                            cv == cs@.map_values(|s: String| s@),
                            pcv == pc@.map_values(|s: String| s@),
                            same == (cv.subrange(0, k as int) == pcv.subrange(0, k as int)),
                        decreases pc@.len() - k,
                    {
                        let e = str_eq(cs[k].as_str(), pc[k].as_str());
                        proof {
                            if same && e {
                                assert(cv.subrange(0, k + 1) =~= cv.subrange(0, k as int).push(cv[k as int]));
                                assert(pcv.subrange(0, k + 1) =~= pcv.subrange(0, k as int).push(pcv[k as int]));
                            }
                            if !(same && e) {
                                if cv.subrange(0, k + 1) == pcv.subrange(0, k + 1) {
                                    assert(cv.subrange(0, k as int) =~= cv.subrange(0, k + 1).subrange(0, k as int));
                                    assert(pcv.subrange(0, k as int) =~= pcv.subrange(0, k + 1).subrange(0, k as int));
                                    assert(cv.subrange(0, k + 1)[k as int] == pcv.subrange(0, k + 1)[k as int]);
                                }
                            }
                        }
                        same = same && e;
                        k = k + 1;
                    }
                    assert(pcv.subrange(0, pc@.len() as int) =~= pcv);
                    if same {
                        let mut out: Vec<char> = Vec::new();
                        push_joined_strings(&mut out, &cs, pc.len(), cs.len(), "/");
                        proof {
                            reveal_strlit("/");
                            assert("/"@ =~= seq!['/']);
                        }
                        return string_of(out.as_slice());
                    }
                }
            }
        },
        None => {},
    }
    let mut kept: Vec<String> = Vec::new();
    let mut i: usize = 0;
    proof {
        reveal_strlit("..");
        assert(".."@ =~= seq!['.', '.']);
    }
    while i < cs.len()
        invariant
            i <= cs@.len(),
            cv == cs@.map_values(|s: String| s@),
            ".."@ == seq!['.', '.'],
            kept@.map_values(|s: String| s@) == drop_parents(cv.subrange(0, i as int)),
        decreases cs@.len() - i,
    {
        let ghost t = cv.subrange(0, i + 1);
        assert(t.drop_last() =~= cv.subrange(0, i as int));
        assert(t.last() == cs@[i as int]@);
        if !str_eq(cs[i].as_str(), "..") {
            let ghost before = kept@.map_values(|s: String| s@);
            kept.push(cs[i].clone());
            assert(kept@.map_values(|s: String| s@) =~= before.push(cs@[i as int]@));
        }
        i = i + 1;
    }
    assert(cv.subrange(0, cs@.len() as int) =~= cv);
    if kept.len() == 0 {
        return string_of(sc.as_slice());
    }
    let mut out: Vec<char> = Vec::new();
    push_joined_strings(&mut out, &kept, 0, kept.len(), "/");
    proof {
        reveal_strlit("/");
        assert("/"@ =~= seq!['/']);
        let kv = kept@.map_values(|s: String| s@);
        assert(kv.subrange(0, kv.len() as int) =~= kv);
    }
    string_of(out.as_slice())
}

} // verus!
