//! The code index: splitters for Rust and Python sources, the markdown
//! files they render, and the reports over body files (size, call tree).

pub mod rs_lang;
pub mod py_lang;
pub mod splitter;
pub mod roundtrip;
pub mod watcher;

use vstd::prelude::*;
use vstd::string::StringSliceAdditionalSpecFns;
use crate::code::splitter::{to_slash, to_slash_spec};
use crate::keyed::KeyedMap;
use crate::unicode::{alphanumeric, is_alphanumeric, lowercase, to_lowercase};
use crate::config::{nonempty_pieces, split_nonempty, split_on};
use crate::code::splitter::{frontmatter_spec, parse_frontmatter, text_map};
use crate::text::{is_ws, char_is_whitespace, trim_start, trim_end, trim_end_from};
use crate::pattern::{glob_match, glob_matches, glob_new_error, glob_problem, regex_problem, is_match, regex_error_text, captures_all, lemma_match_at, matches_view, matches_wf, regex_captures, Span};
use crate::slashpath::{extension, file_stem, join, path_extension, path_file_stem, path_join, path_strip_extension, strip_extension};
use crate::text::{
    byte_range, chars_of, dec, dec_string, from_utf8_lossy, has_prefix, insert_sorted_unique, insert_unique,
    join_with, lines, lines_of, find_chars, bytes_le, str_le, find_sub, trim_char_chars, push_chars, push_dec, push_joined, push_joined_strings, debug_quoted, debug_str, push_str_chars, sorted_set, starts_with_chars, str_eq, string_of, utf8_lossy,
};

verus! {

/// Scan of lines for fenced code: whether a fence is open after them, and
/// the lines inside fences (fence lines themselves excluded).
pub open spec fn fence_scan(ls: Seq<Seq<char>>) -> (bool, Seq<Seq<char>>)
    decreases ls.len(),
{
    if ls.len() == 0 {
        (false, seq![])
    } else {
        let prev = fence_scan(ls.drop_last());
        let l = ls.last();
        if has_prefix(l, "```"@) {
            (!prev.0, prev.1)
        } else if prev.0 {
            (prev.0, prev.1.push(l))
        } else {
            prev
        }
    }
}

fn fenced_lines(content: &str) -> (r: Vec<Vec<char>>)
    ensures
        r@.map_values(|l: Vec<char>| l@) == fence_scan(lines(content@)).1,
{
    let cs = chars_of(content);
    let ls = lines_of(cs.as_slice());
    let ghost lv = ls@.map_values(|l: Vec<char>| l@);
    let fence = chars_of("```");
    let mut in_fence = false;
    let mut out: Vec<Vec<char>> = Vec::new();
    let mut i: usize = 0;
    while i < ls.len()
        invariant
            i <= ls@.len(),
            lv == ls@.map_values(|l: Vec<char>| l@),
            fence@ == "```"@,
            (in_fence, out@.map_values(|l: Vec<char>| l@)) == fence_scan(lv.subrange(0, i as int)),
        decreases ls@.len() - i,
    {
        let ghost s = lv.subrange(0, i + 1);
        proof {
            assert(s.drop_last() =~= lv.subrange(0, i as int));
            assert(s.last() == ls@[i as int]@);
        }
        let ghost before = out@.map_values(|l: Vec<char>| l@);
        if starts_with_chars(ls[i].as_slice(), fence.as_slice()) {
            in_fence = !in_fence;
        } else if in_fence {
            let mut l: Vec<char> = Vec::new();
            push_chars(&mut l, ls[i].as_slice());
            out.push(l);
            assert(out@.map_values(|l: Vec<char>| l@) =~= before.push(ls@[i as int]@));
        }
        i = i + 1;
    }
    assert(lv.subrange(0, ls@.len() as int) =~= lv);
    assert(lv == lines(content@));
    out
}

/// Lines of code in a body file: the lines inside its code fences.
pub fn count_body_loc(content: &str) -> (r: usize)
    ensures
        r == fence_scan(lines(content@)).1.len(),
{
    fenced_lines(content).len()
}

/// The code inside the fences of a body file, lines joined by `\n`.
pub fn extract_fenced_code(content: &str) -> (r: String)
    ensures
        r@ == join_with(fence_scan(lines(content@)).1, seq!['\n']),
{
    let ls = fenced_lines(content);
    let ghost lv = ls@.map_values(|l: Vec<char>| l@);
    let mut out: Vec<char> = Vec::new();
    let mut i: usize = 0;
    while i < ls.len()
        invariant
            i <= ls@.len(),
            lv == ls@.map_values(|l: Vec<char>| l@),
            out@ == join_with(lv.subrange(0, i as int), seq!['\n']),
        decreases ls@.len() - i,
    {
        let ghost t = lv.subrange(0, i + 1);
        assert(t.drop_last() =~= lv.subrange(0, i as int));
        if i > 0 {
            out.push('\n');
        } else {
            assert(out@ =~= Seq::<char>::empty());
        }
        push_chars(&mut out, ls[i].as_slice());
        assert(t.last() == ls@[i as int]@);
        if i == 0 {
            assert(t.len() == 1 && t[0] == ls@[0]@);
        }
        i = i + 1;
    }
    assert(lv.subrange(0, ls@.len() as int) =~= lv);
    string_of(out.as_slice())
}

/// `s` right-aligned in six columns.
pub open spec fn pad6(s: Seq<char>) -> Seq<char> {
    if s.len() < 6 {
        Seq::new((6 - s.len()) as nat, |_i: int| ' ') + s
    } else {
        s
    }
}

/// One line of the oversized-function report.
pub open spec fn large_line(loc: nat, rel: Seq<char>) -> Seq<char> {
    "⚠ "@ + pad6(dec(loc)) + " loc  "@ + to_slash_spec(strip_extension(rel)) + "/"@ + file_stem(rel)
}

/// `t` (descending by size) with `x` placed after every entry at least as
/// large.
pub open spec fn insert_desc(t: Seq<(nat, Seq<char>)>, x: (nat, Seq<char>)) -> Seq<(nat, Seq<char>)>
    decreases t.len(),
{
    if t.len() == 0 {
        seq![x]
    } else if t.last().0 >= x.0 {
        t.push(x)
    } else {
        insert_desc(t.drop_last(), x).push(t.last())
    }
}

/// Stable sort by size, largest first.
pub open spec fn sort_desc(s: Seq<(nat, Seq<char>)>) -> Seq<(nat, Seq<char>)>
    decreases s.len(),
{
    if s.len() == 0 {
        s
    } else {
        insert_desc(sort_desc(s.drop_last()), s.last())
    }
}

/// Entries over `max` lines.
pub open spec fn over_limit(s: Seq<(nat, Seq<char>)>, max: nat) -> Seq<(nat, Seq<char>)>
    decreases s.len(),
{
    if s.len() == 0 {
        seq![]
    } else {
        over_limit(s.drop_last(), max) + if s.last().0 > max {
            seq![s.last()]
        } else {
            seq![]
        }
    }
}

pub open spec fn bodies_view(v: Seq<(usize, String)>) -> Seq<(nat, Seq<char>)> {
    v.map_values(|b: (usize, String)| (b.0 as nat, b.1@))
}

/// The report of functions over `max_loc` lines, largest first.
pub open spec fn find_large_spec(bodies: Seq<(nat, Seq<char>)>, max_loc: nat) -> Seq<char> {
    let h = sort_desc(over_limit(bodies, max_loc));
    if h.len() == 0 {
        "no fns exceed "@ + dec(max_loc) + " loc"@
    } else {
        join_with(h.map_values(|e: (nat, Seq<char>)| large_line(e.0, e.1)), seq!['\n'])
    }
}

proof fn lemma_insert_desc(t: Seq<(nat, Seq<char>)>, x: (nat, Seq<char>), pos: int)
    requires
        0 <= pos <= t.len(),
        forall|k: int| pos <= k < t.len() ==> (#[trigger] t[k]).0 < x.0,
        pos == 0 || t[pos - 1].0 >= x.0,
    ensures
        insert_desc(t, x) == t.insert(pos, x),
    decreases t.len(),
{
    if t.len() == 0 {
        assert(t.insert(pos, x) =~= seq![x]);
    } else if pos == t.len() {
        assert(t.insert(pos, x) =~= t.push(x));
    } else {
        assert(t[t.len() - 1].0 < x.0);
        let d = t.drop_last();
        assert forall|k: int| pos <= k < d.len() implies (#[trigger] d[k]).0 < x.0 by {
            assert(d[k] == t[k]);
        }
        if pos > 0 {
            assert(d[pos - 1] == t[pos - 1]);
        }
        lemma_insert_desc(d, x, pos);
        assert(t.insert(pos, x) =~= d.insert(pos, x).push(t.last()));
    }
}

fn push_large_line(out: &mut Vec<char>, loc: usize, rel: &str)
    ensures
        final(out)@ == old(out)@ + large_line(loc as nat, rel@),
{
    push_str_chars(out, "⚠ ");
    let d = dec_string(loc as u64);
    let dc = chars_of(d.as_str());
    let mut k = dc.len();
    let ghost before = out@;
    while k < 6
        invariant
            dc@.len() <= k <= 6 || (k == dc@.len() && k >= 6),
            out@ == before + Seq::new((k - dc@.len()) as nat, |_i: int| ' '),
        decreases 6 - k,
    {
        out.push(' ');
        k = k + 1;
        assert(out@ =~= before + Seq::new((k - dc@.len()) as nat, |_i: int| ' '));
    }
    push_chars(out, dc.as_slice());
    assert(out@ =~= before + pad6(dec(loc as nat)));
    push_str_chars(out, " loc  ");
    let stem = path_strip_extension(rel);
    let slashed = to_slash(stem.as_str());
    push_str_chars(out, slashed.as_str());
    push_str_chars(out, "/");
    let name = path_file_stem(rel);
    push_str_chars(out, name.as_str());
    assert(out@ =~= old(out)@ + large_line(loc as nat, rel@));
}

/// Reports the functions over `max_loc` lines, largest first, from
/// `(lines, path relative to the index)` of each body file.
pub fn find_large(bodies: &Vec<(usize, String)>, max_loc: usize) -> (r: String)
    ensures
        r@ == find_large_spec(bodies_view(bodies@), max_loc as nat),
{
    let ghost bv = bodies_view(bodies@);
    let mut hits: Vec<(usize, String)> = Vec::new();
    let mut i: usize = 0;
    while i < bodies.len()
        invariant
            i <= bodies@.len(),
            bv == bodies_view(bodies@),
            bodies_view(hits@) == sort_desc(over_limit(bv.subrange(0, i as int), max_loc as nat)),
        decreases bodies@.len() - i,
    {
        let ghost s = bv.subrange(0, i + 1);
        proof {
            assert(s.drop_last() =~= bv.subrange(0, i as int));
            assert(s.last() == (bodies@[i as int].0 as nat, bodies@[i as int].1@));
        }
        if bodies[i].0 > max_loc {
            let x = (bodies[i].0, bodies[i].1.clone());
            let ghost xv = (x.0 as nat, x.1@);
            let ghost t = bodies_view(hits@);
            let mut pos: usize = hits.len();
            while pos > 0 && hits[pos - 1].0 < x.0
                invariant
                    pos <= hits@.len(),
                    t == bodies_view(hits@),
                    xv == (x.0 as nat, x.1@),
                    forall|k: int| pos <= k < t.len() ==> (#[trigger] t[k]).0 < xv.0,
                decreases pos,
            {
                assert(t[pos - 1] == (hits@[pos - 1].0 as nat, hits@[pos - 1].1@));
                pos = pos - 1;
            }
            proof {
                if pos > 0 {
                    assert(t[pos - 1] == (hits@[pos - 1].0 as nat, hits@[pos - 1].1@));
                }
                lemma_insert_desc(t, xv, pos as int);
                let o = over_limit(bv.subrange(0, i as int), max_loc as nat);
                assert(over_limit(s, max_loc as nat) =~= o.push(xv));
                assert(o.push(xv).drop_last() =~= o);
            }
            hits.insert(pos, x);
            assert(bodies_view(hits@) =~= t.insert(pos as int, xv));
        } else {
            proof {
                let o = over_limit(bv.subrange(0, i as int), max_loc as nat);
                assert(over_limit(s, max_loc as nat) =~= o);
            }
        }
        i = i + 1;
    }
    assert(bv.subrange(0, bodies@.len() as int) =~= bv);
    let ghost hv = bodies_view(hits@);
    if hits.len() == 0 {
        let mut v: Vec<char> = Vec::new();
        push_str_chars(&mut v, "no fns exceed ");
        let d = dec_string(max_loc as u64);
        push_str_chars(&mut v, d.as_str());
        push_str_chars(&mut v, " loc");
        return string_of(v.as_slice());
    }
    let ghost lines_v = hv.map_values(|e: (nat, Seq<char>)| large_line(e.0, e.1));
    let mut out: Vec<char> = Vec::new();
    let mut k: usize = 0;
    while k < hits.len()
        invariant
            k <= hits@.len(),
            hv == bodies_view(hits@),
            lines_v == hv.map_values(|e: (nat, Seq<char>)| large_line(e.0, e.1)),
            out@ == join_with(lines_v.subrange(0, k as int), seq!['\n']),
        decreases hits@.len() - k,
    {
        let ghost t = lines_v.subrange(0, k + 1);
        assert(t.drop_last() =~= lines_v.subrange(0, k as int));
        if k > 0 {
            out.push('\n');
        } else {
            assert(out@ =~= Seq::<char>::empty());
        }
        push_large_line(&mut out, hits[k].0, hits[k].1.as_str());
        assert(t.last() == large_line(hits@[k as int].0 as nat, hits@[k as int].1@));
        if k == 0 {
            assert(t.len() == 1);
        }
        k = k + 1;
    }
    assert(lines_v.subrange(0, hits@.len() as int) =~= lines_v);
    string_of(out.as_slice())
}


/// The code of a body file: the lines inside its fences, joined by `\n`.
pub open spec fn body_code(raw: Seq<char>) -> Seq<char> {
    join_with(fence_scan(lines(raw)).1, seq!['\n'])
}

/// An identifier directly followed (up to whitespace) by `(`.
pub open spec fn call_pattern() -> Seq<char> {
    "\\b([A-Za-z_][A-Za-z0-9_]*)\\s*\\("@
}

/// Text of the first capture group of a match, read from `bytes`.
pub open spec fn group1_text(bytes: Seq<u8>, g: Seq<Option<(int, int)>>) -> Option<Seq<char>> {
    if g.len() > 1 && g[1] is Some {
        Some(utf8_lossy(bytes.subrange((g[1]->0).0, (g[1]->0).1)))
    } else {
        None
    }
}

/// The called names, in match order, that are known functions other than
/// `name` itself.
pub open spec fn known_calls_from(
    bytes: Seq<u8>,
    caps: Seq<Seq<Option<(int, int)>>>,
    known: Set<Seq<char>>,
    name: Seq<char>,
) -> Seq<Seq<char>>
    decreases caps.len(),
{
    if caps.len() == 0 {
        seq![]
    } else {
        let prev = known_calls_from(bytes, caps.drop_last(), known, name);
        match group1_text(bytes, caps.last()) {
            Some(t) => if known.contains(t) && t != name {
                prev.push(t)
            } else {
                prev
            },
            None => prev,
        }
    }
}

/// The known functions that the body of `name` calls, each once, in
/// ascending byte order.
pub open spec fn callees(bodies: Map<Seq<char>, String>, name: Seq<char>) -> Seq<Seq<char>> {
    let code = body_code(bodies[name]@);
    match regex_captures(call_pattern(), code) {
        Some(caps) => sorted_set(known_calls_from(vstd::utf8::encode_utf8(code), caps, bodies.dom(), name)),
        None => seq![],
    }
}

/// Two spaces per level.
pub open spec fn indent(depth: nat) -> Seq<char> {
    Seq::new(2 * depth, |_i: int| ' ')
}

/// The call tree below `name` printed at `depth`, and the names visited
/// afterwards: a name is expanded once, and not below `max` levels.
pub open spec fn walk(
    bodies: Map<Seq<char>, String>,
    max: nat,
    depth: nat,
    name: Seq<char>,
    visited: Set<Seq<char>>,
) -> (Seq<char>, Set<Seq<char>>)
    decreases max + 1 - depth, 1int, 0int,
{
    let line = indent(depth) + name + seq!['\n'];
    if depth >= max || visited.contains(name) {
        (line, visited)
    } else if !bodies.dom().contains(name) {
        (line, visited.insert(name))
    } else {
        let r = walk_list(bodies, max, depth + 1, callees(bodies, name), visited.insert(name));
        (line + r.0, r.1)
    }
}

/// The call trees of `cs`, one after another, at `depth`.
pub open spec fn walk_list(
    bodies: Map<Seq<char>, String>,
    max: nat,
    depth: nat,
    cs: Seq<Seq<char>>,
    visited: Set<Seq<char>>,
) -> (Seq<char>, Set<Seq<char>>)
    decreases max + 1 - depth, 2int, cs.len() as int,
{
    if cs.len() == 0 {
        (seq![], visited)
    } else {
        let a = walk_list(bodies, max, depth, cs.drop_last(), visited);
        let b = walk(bodies, max, depth, cs.last(), a.1);
        (a.0 + b.0, b.1)
    }
}

/// The known callees of `name`, whose body file reads `raw`.
fn callees_of(raw: &str, name: &str, bodies: &KeyedMap<String>) -> (r: Vec<String>)
    requires
        bodies.wf(),
        bodies@.dom().contains(name@),
        bodies@[name@]@ == raw@,
    ensures
        r@.map_values(|s: String| s@) == callees(bodies@, name@),
{
    let code = extract_fenced_code(raw);
    let mut out: Vec<String> = Vec::new();
    assert(out@.map_values(|s: String| s@) =~= Seq::<Seq<char>>::empty());
    match captures_all("\\b([A-Za-z_][A-Za-z0-9_]*)\\s*\\(", code.as_str()) {
        None => out,
        Some(caps) => {
            let ghost cv = matches_view(caps@);
            let bytes = code.as_str().as_bytes();
            let ghost bv = bytes@;
            assert(bv == vstd::utf8::encode_utf8(code@));
            let ghost known = bodies@.dom();
            let mut k: usize = 0;
            while k < caps.len()
                invariant
                    k <= caps@.len(),
                    bodies.wf(),
                    cv == matches_view(caps@),
                    matches_wf(caps@, bv.len() as int),
                    bv == bytes@,
                    known == bodies@.dom(),
                    out@.map_values(|s: String| s@) == sorted_set(
                        known_calls_from(bv, cv.subrange(0, k as int), known, name@),
                    ),
                decreases caps@.len() - k,
            {
                proof {
                    lemma_match_at(caps@, bv.len() as int, k as int);
                }
                let ghost pre = cv.subrange(0, k as int);
                let ghost cur = cv.subrange(0, k + 1);
                assert(cur.drop_last() =~= pre);
                assert(cur.last() == cv[k as int]);
                let g = &caps[k];
                assert(cv[k as int] == g@.map_values(|s: Option<Span>| crate::pattern::span_view(s)));
                let ghost prev = known_calls_from(bv, pre, known, name@);
                if g.len() > 1 {
                    match g[1] {
                        Some((a, b)) => {
                            assert(g@[1] matches Some((x, y)) ==> x <= y <= bv.len());
                            let piece = byte_range(bytes, a, b);
                            let t = from_utf8_lossy(piece.as_slice());
                            assert(t@ == utf8_lossy(bv.subrange(a as int, b as int)));
                            assert(cv[k as int][1] == Some((a as int, b as int)));
                            assert(group1_text(bv, cv[k as int]) == Some(t@));
                            if bodies.contains(t.as_str()) && !str_eq(t.as_str(), name) {
                                assert(known_calls_from(bv, cur, known, name@) == prev.push(t@));
                                assert(prev.push(t@).drop_last() =~= prev);
                                insert_sorted_unique(&mut out, t);
                            }
                        },
                        None => {
                            assert(cv[k as int][1] is None);
                        },
                    }
                }
                k = k + 1;
            }
            assert(cv.subrange(0, caps@.len() as int) =~= cv);
            out
        },
    }
}

/// The names recorded in `v`.
pub open spec fn vset(v: Seq<String>) -> Set<Seq<char>> {
    v.map_values(|s: String| s@).to_set()
}

fn contains_str(v: &Vec<String>, x: &str) -> (r: bool)
    ensures
        r == vset(v@).contains(x@),
{
    let ghost w = v@.map_values(|s: String| s@);
    let mut i: usize = 0;
    while i < v.len()
        invariant
            i <= v@.len(),
            w == v@.map_values(|s: String| s@),
            forall|k: int| 0 <= k < i ==> (#[trigger] w[k]) != x@,
        decreases v@.len() - i,
    {
        if str_eq(v[i].as_str(), x) {
            assert(w[i as int] == x@);
            return true;
        }
        i = i + 1;
    }
    assert(!w.contains(x@));
    false
}

proof fn lemma_vset_push(v: Seq<String>, x: String)
    ensures
        vset(v.push(x)) == vset(v).insert(x@),
{
    let w = v.map_values(|s: String| s@);
    assert(v.push(x).map_values(|s: String| s@) =~= w.push(x@));
    w.lemma_push_to_set_commute(x@);
}

fn push_indent(out: &mut Vec<char>, depth: usize)
    ensures
        final(out)@ == old(out)@ + indent(depth as nat),
{
    let mut k: usize = 0;
    while k < depth
        invariant
            k <= depth,
            out@ == old(out)@ + indent(k as nat),
        decreases depth - k,
    {
        out.push(' ');
        out.push(' ');
        k = k + 1;
        assert(out@ =~= old(out)@ + indent(k as nat));
    }
}

fn walk_calls(
    name: &str,
    bodies: &KeyedMap<String>,
    max_depth: usize,
    depth: usize,
    visited: &mut Vec<String>,
    out: &mut Vec<char>,
)
    requires
        bodies.wf(),
        depth <= max_depth,
    ensures
        final(out)@ == old(out)@ + walk(bodies@, max_depth as nat, depth as nat, name@, vset(old(visited)@)).0,
        vset(final(visited)@) == walk(bodies@, max_depth as nat, depth as nat, name@, vset(old(visited)@)).1,
    decreases max_depth + 1 - depth, 1int, 0int,
{
    let ghost v0 = vset(visited@);
    let ghost m = bodies@;
    push_indent(out, depth);
    push_str_chars(out, name);
    out.push('\n');
    let ghost line = indent(depth as nat) + name@ + seq!['\n'];
    assert(out@ =~= old(out)@ + line);
    if depth >= max_depth || contains_str(visited, name) {
        return;
    }
    let nm = string_of(chars_of(name).as_slice());
    proof {
        lemma_vset_push(visited@, nm);
    }
    visited.push(nm);
    let ghost v1 = vset(visited@);
    assert(v1 == v0.insert(name@));
    match bodies.get(name) {
        None => {},
        Some(raw) => {
            let cs = callees_of(raw.as_str(), name, bodies);
            let ghost csv = cs@.map_values(|s: String| s@);
            let ghost base = old(out)@ + line;
            let mut i: usize = 0;
            while i < cs.len()
                invariant
                    i <= cs@.len(),
                    bodies.wf(),
                    m == bodies@,
                    depth < max_depth,
                    csv == cs@.map_values(|s: String| s@),
                    out@ == base + walk_list(m, max_depth as nat, (depth + 1) as nat, csv.subrange(0, i as int), v1).0,
                    vset(visited@) == walk_list(m, max_depth as nat, (depth + 1) as nat, csv.subrange(0, i as int), v1).1,
                decreases cs@.len() - i,
            {
                let ghost pre = csv.subrange(0, i as int);
                let ghost cur = csv.subrange(0, i + 1);
                assert(cur.drop_last() =~= pre);
                assert(cur.last() == cs@[i as int]@);
                walk_calls(cs[i].as_str(), bodies, max_depth, depth + 1, visited, out);
                assert(out@ =~= base + walk_list(m, max_depth as nat, (depth + 1) as nat, cur, v1).0);
                i = i + 1;
            }
            assert(csv.subrange(0, cs@.len() as int) =~= csv);
            assert(csv == callees(m, name@));
        },
    }
}

/// The call tree of the function `root`, down to `depth` levels: each line
/// is a name indented two spaces per level; the callees of a function are
/// the known functions (the keys of `bodies`, which maps each function
/// name to its body file) named before a `(` in its fenced code, in
/// ascending order; each function is expanded once.
pub fn fn_tree(root: &str, bodies: &KeyedMap<String>, depth: usize) -> (r: String)
    requires
        bodies.wf(),
    ensures
        r@ == crate::text::trim_end(walk(bodies@, depth as nat, 0, root@, Set::empty()).0),
{
    let mut visited: Vec<String> = Vec::new();
    let mut out: Vec<char> = Vec::new();
    assert(vset(visited@) =~= Set::<Seq<char>>::empty());
    walk_calls(root, bodies, depth, 0, &mut visited, &mut out);
    let t = crate::text::trim_end_from(out.as_slice(), 0);
    assert(out@.subrange(0, out@.len() as int) =~= out@);
    string_of(t.as_slice())
}

/// Lines `start..` (counted from 1) of a body file, at most `limit` of
/// them, with a footer giving the range; the whole text when reading from
/// the first line without a limit.
pub open spec fn read_body_spec(content: Seq<char>, start: nat, limit: Option<nat>) -> Seq<char> {
    let st: nat = if start == 0 {
        1
    } else {
        start
    };
    if st == 1 && limit is None {
        content
    } else {
        let ls = lines(content);
        let total = ls.len();
        let begin: nat = if st - 1 <= total {
            (st - 1) as nat
        } else {
            total
        };
        let end: nat = match limit {
            Some(l) => if begin + l <= total {
                begin + l
            } else {
                total
            },
            None => total,
        };
        join_with(ls.subrange(begin as int, end as int), seq!['\n']) + "\n-- lines "@ + dec(begin + 1)
            + "-"@ + dec(end) + " of "@ + dec(total)
    }
}

/// A window of the lines of a body file (see `read_body_spec`).
pub fn read_body(content: &str, start: usize, limit: Option<usize>) -> (r: String)
    ensures
        r@ == read_body_spec(content@, start as nat, match limit {
            Some(l) => Some(l as nat),
            None => None,
        }),
{
    let st: usize = if start == 0 {
        1
    } else {
        start
    };
    if st == 1 && limit.is_none() {
        return string_of(chars_of(content).as_slice());
    }
    let cs = chars_of(content);
    let ls = lines_of(cs.as_slice());
    let total = ls.len();
    let begin: usize = if st - 1 <= total {
        st - 1
    } else {
        total
    };
    let end: usize = match limit {
        Some(l) => if l <= total - begin {
            begin + l
        } else {
            total
        },
        None => total,
    };
    let mut out: Vec<char> = Vec::new();
    push_joined(&mut out, &ls, begin, end, "\n");
    proof {
        reveal_strlit("\n");
        assert("\n"@ =~= seq!['\n']);
    }
    let ghost body = join_with(ls@.map_values(|l: Vec<char>| l@).subrange(begin as int, end as int), seq!['\n']);
    assert(out@ =~= body);
    push_str_chars(&mut out, "\n-- lines ");
    push_dec(&mut out, begin + 1);
    push_str_chars(&mut out, "-");
    push_dec(&mut out, end);
    push_str_chars(&mut out, " of ");
    push_dec(&mut out, total);
    proof {
        let lv = ls@.map_values(|l: Vec<char>| l@);
        assert(lv == lines(content@));
        let lim: Option<nat> = match limit {
            Some(l) => Some(l as nat),
            None => None,
        };
        assert(out@ =~= read_body_spec(content@, start as nat, lim));
    }
    string_of(out.as_slice())
}

/// A page of grep results from `cursor`, at most `limit` lines, with a
/// footer giving the count and the next cursor while more remain.
pub open spec fn format_grep_spec(results: Seq<Seq<char>>, cursor: nat, limit: nat, query: Seq<char>) -> Seq<char> {
    let total = results.len();
    if total == 0 {
        "no matches for "@ + debug_quoted(query)
    } else {
        let end: nat = if cursor + limit <= total {
            cursor + limit
        } else {
            total
        };
        let from: nat = if cursor <= total {
            cursor
        } else {
            total
        };
        let shown: nat = (end - from) as nat;
        join_with(results.subrange(from as int, end as int), seq!['\n']) + if end < total {
            "\n-- "@ + dec(shown) + "/"@ + dec(total) + " (next cursor: "@ + dec(end) + ")"@
        } else {
            "\n-- "@ + dec(shown) + "/"@ + dec(total)
        }
    }
}

/// A page of grep results (see `format_grep_spec`).
pub fn format_grep(results: &Vec<String>, cursor: usize, limit: usize, query: &str) -> (r: String)
    ensures
        r@ == format_grep_spec(results@.map_values(|s: String| s@), cursor as nat, limit as nat, query@),
{
    let total = results.len();
    let mut out: Vec<char> = Vec::new();
    if total == 0 {
        push_str_chars(&mut out, "no matches for ");
        let q = debug_str(query);
        push_str_chars(&mut out, q.as_str());
        return string_of(out.as_slice());
    }
    let end: usize = if cursor <= total && limit <= total - cursor {
        cursor + limit
    } else {
        total
    };
    let from: usize = if cursor <= total {
        cursor
    } else {
        total
    };
    push_joined_strings(&mut out, results, from, end, "\n");
    proof {
        reveal_strlit("\n");
        assert("\n"@ =~= seq!['\n']);
    }
    let ghost rv = results@.map_values(|s: String| s@);
    let ghost body = join_with(rv.subrange(from as int, end as int), seq!['\n']);
    assert(out@ =~= body);
    assert(from as nat == (if cursor as nat <= total as nat { cursor as nat } else { total as nat }));
    assert(end as nat == (if cursor as nat + limit as nat <= total as nat { cursor as nat + limit as nat } else { total as nat }));
    push_str_chars(&mut out, "\n-- ");
    push_dec(&mut out, end - from);
    push_str_chars(&mut out, "/");
    push_dec(&mut out, total);
    if end < total {
        push_str_chars(&mut out, " (next cursor: ");
        push_dec(&mut out, end);
        push_str_chars(&mut out, ")");
    }
    assert(out@ =~= format_grep_spec(results@.map_values(|s: String| s@), cursor as nat, limit as nat, query@));
    string_of(out.as_slice())
}

/// How lines are matched: by a lowercased substring, or by a regular
/// expression.
pub enum Matcher {
    Substring(String),
    Regex(String),
}

/// Whether `line` is a hit: it contains the substring once lowercased, or
/// the expression matches in it.
pub open spec fn matcher_hit(m: Matcher, line: Seq<char>) -> bool {
    match m {
        Matcher::Substring(q) => find_sub(lowercase(line), q@) >= 0,
        Matcher::Regex(p) => regex_captures(p@, line) matches Some(c) && c.len() > 0,
    }
}

/// The matcher for `query`: its lowercase for a substring search, or the
/// expression itself, refused when it does not compile.
pub fn build_matcher(query: &str, use_regex: bool) -> (r: Result<Matcher, String>)
    ensures
        match r {
            Ok(Matcher::Substring(q)) => !use_regex && q@ == lowercase(query@),
            Ok(Matcher::Regex(p)) => use_regex && p@ == query@ && forall|t: Seq<char>|
                #[trigger] regex_captures(query@, t) is Some,
            Err(e) => use_regex && e@ == "invalid regex: "@ + regex_error_text(query@) && forall|
                t: Seq<char>,
            | #[trigger] regex_captures(query@, t) is None,
        },
        !use_regex ==> r is Ok,
{
    if use_regex {
        match regex_problem(query) {
            Some(e) => {
                let mut v: Vec<char> = Vec::new();
                push_str_chars(&mut v, "invalid regex: ");
                push_str_chars(&mut v, e.as_str());
                Err(string_of(v.as_slice()))
            },
            None => Ok(Matcher::Regex(string_of(chars_of(query).as_slice()))),
        }
    } else {
        Ok(Matcher::Substring(to_lowercase(query)))
    }
}

/// Whether `line` is a hit for `m`.
pub fn matcher_hits(m: &Matcher, line: &str) -> (r: bool)
    ensures
        r == matcher_hit(*m, line@),
{
    match m {
        Matcher::Substring(q) => {
            let low = to_lowercase(line);
            let lc = chars_of(low.as_str());
            let qc = chars_of(q.as_str());
            find_chars(lc.as_slice(), qc.as_slice()).is_some()
        },
        Matcher::Regex(p) => is_match(p.as_str(), line),
    }
}

/// Index of the first line after a leading frontmatter block (a first line
/// `---` up to and including the next `---` line; all lines when it is not
/// closed).
pub open spec fn body_start(ls: Seq<Seq<char>>) -> nat {
    if ls.len() > 0 && ls[0] == "---"@ {
        let k = first_fence_from(ls, 1);
        if k < ls.len() {
            k + 1
        } else {
            ls.len()
        }
    } else {
        0
    }
}

/// First index at or after `i` holding a `---` line, or the length.
pub open spec fn first_fence_from(ls: Seq<Seq<char>>, i: nat) -> nat
    decreases ls.len() - i,
{
    if i >= ls.len() {
        ls.len()
    } else if ls[i as int] == "---"@ {
        i
    } else {
        first_fence_from(ls, i + 1)
    }
}

/// One grep result: `label:line: text`.
pub open spec fn grep_line(label: Seq<char>, n: nat, line: Seq<char>) -> Seq<char> {
    label + ":"@ + dec(n) + ": "@ + line
}

/// Hits among lines `from..to`, in order.
pub open spec fn grep_range(label: Seq<char>, ls: Seq<Seq<char>>, m: Matcher, from: nat, to: nat) -> Seq<
    Seq<char>,
>
    decreases to - from,
{
    if to <= from {
        seq![]
    } else {
        let prev = grep_range(label, ls, m, from, (to - 1) as nat);
        if matcher_hit(m, ls[to - 1]) {
            prev.push(grep_line(label, to as nat, ls[to - 1]))
        } else {
            prev
        }
    }
}

/// The hits of `m` in the lines of `content` after its frontmatter, each
/// as `label:line: text` with lines counted from 1.
pub open spec fn grep_spec(label: Seq<char>, content: Seq<char>, m: Matcher) -> Seq<Seq<char>> {
    let ls = lines(content);
    grep_range(label, ls, m, body_start(ls), ls.len())
}

fn is_dashes(l: &Vec<char>) -> (r: bool)
    ensures
        r == (l@ == "---"@),
{
    proof {
        reveal_strlit("---");
    }
    let r = l.len() == 3 && l[0] == '-' && l[1] == '-' && l[2] == '-';
    if r {
        assert(l@ =~= "---"@);
    }
    r
}

/// The hits of `m` in one file's text (see `grep_spec`); `label` names the
/// file.
pub fn grep_content(label: &str, content: &str, m: &Matcher) -> (r: Vec<String>)
    ensures
        r@.map_values(|s: String| s@) == grep_spec(label@, content@, *m),
{
    let cs = chars_of(content);
    let ls = lines_of(cs.as_slice());
    let ghost lv = ls@.map_values(|l: Vec<char>| l@);
    assert(lv == lines(content@));
    let n = ls.len();
    let mut start: usize = 0;
    if n > 0 && is_dashes(&ls[0]) {
        let mut k: usize = 1;
        while k < n && !is_dashes(&ls[k])
            invariant
                1 <= k <= n,
                n == ls@.len(),
                lv == ls@.map_values(|l: Vec<char>| l@),
                first_fence_from(lv, 1) == first_fence_from(lv, k as nat),
            decreases n - k,
        {
            assert(lv[k as int] == ls@[k as int]@);
            k = k + 1;
        }
        if k < n {
            assert(lv[k as int] == ls@[k as int]@);
            start = k + 1;
        } else {
            start = n;
        }
        assert(lv[0] == ls@[0]@);
    } else if n > 0 {
        assert(lv[0] == ls@[0]@);
    }
    assert(start == body_start(lv));
    let mut out: Vec<String> = Vec::new();
    let mut i: usize = start;
    assert(out@.map_values(|s: String| s@) =~= grep_range(label@, lv, *m, start as nat, start as nat));
    while i < n
        invariant
            start <= i <= n,
            n == ls@.len(),
            lv == ls@.map_values(|l: Vec<char>| l@),
            out@.map_values(|s: String| s@) == grep_range(label@, lv, *m, start as nat, i as nat),
        decreases n - i,
    {
        let line = string_of(ls[i].as_slice());
        assert(line@ == lv[i as int]);
        if matcher_hits(m, line.as_str()) {
            let mut v: Vec<char> = Vec::new();
            push_str_chars(&mut v, label);
            push_str_chars(&mut v, ":");
            push_dec(&mut v, i + 1);
            push_str_chars(&mut v, ": ");
            push_chars(&mut v, ls[i].as_slice());
            let ghost before = out@.map_values(|s: String| s@);
            out.push(string_of(v.as_slice()));
            assert(out@.map_values(|s: String| s@) =~= before.push(grep_line(label@, (i + 1) as nat, lv[i as int])));
        }
        i = i + 1;
    }
    out
}

/// Which index files a body search reads: `(bodies, structures)`.
pub fn search_scope(scope: &str) -> (r: (bool, bool))
    ensures
        r == (if scope@ == "structure"@ || scope@ == "skel"@ {
            (false, true)
        } else if scope@ == "body"@ || scope@ == "bodies"@ {
            (true, false)
        } else {
            (true, true)
        }),
{
    if str_eq(scope, "structure") || str_eq(scope, "skel") {
        (false, true)
    } else if str_eq(scope, "body") || str_eq(scope, "bodies") {
        (true, false)
    } else {
        (true, true)
    }
}

/// The function names listed under `fns` in a front matter.
pub open spec fn fm_fns(fm: Map<Seq<char>, Seq<char>>) -> Seq<Seq<char>> {
    nonempty_pieces(split_on(fm[seq!['f', 'n', 's']], ','))
}

/// `prefix` followed by each name on a line of its own.
pub open spec fn name_lines(prefix: Seq<char>, ns: Seq<Seq<char>>) -> Seq<char>
    decreases ns.len(),
{
    if ns.len() == 0 {
        seq![]
    } else {
        name_lines(prefix, ns.drop_last()) + prefix + ns.last() + seq!['\n']
    }
}

/// `s` without `p` in front, when it starts with it.
pub open spec fn strip_if(s: Seq<char>, p: Seq<char>) -> Seq<char> {
    if has_prefix(s, p) {
        s.subrange(p.len() as int, s.len() as int)
    } else {
        s
    }
}

/// One pass over the visibility and qualifier words, each removed once in
/// this order when it leads.
pub open spec fn strip_quals_once(s: Seq<char>) -> Seq<char> {
    strip_if(
        strip_if(
            strip_if(
                strip_if(strip_if(strip_if(s, "pub(crate) "@), "pub(super) "@), "pub "@),
                "async "@,
            ),
            "unsafe "@,
        ),
        "default "@,
    )
}

/// The item kinds an outline reports, in the order they are tried.
pub open spec fn outline_kinds() -> Seq<Seq<char>> {
    seq!["fn"@, "impl"@, "mod"@, "struct"@, "enum"@, "trait"@]
}

/// The first kind from `j` on whose keyword and a space start `rest`.
pub open spec fn kind_at(rest: Seq<char>, j: nat) -> Option<Seq<char>>
    decreases 6 - j,
{
    if j >= 6 {
        None
    } else if has_prefix(rest, outline_kinds()[j as int] + seq![' ']) {
        Some(outline_kinds()[j as int])
    } else {
        kind_at(rest, j + 1)
    }
}

/// Characters that an item name may span: alphanumerics, `_`, `<`, `:`
/// and spaces.
pub open spec fn name_char(c: char) -> bool {
    alphanumeric(c) || c == '_' || c == '<' || c == ':' || c == ' '
}

/// The leading run of name characters.
pub open spec fn name_run(s: Seq<char>) -> Seq<char>
    decreases s.len(),
{
    if s.len() > 0 && name_char(s[0]) {
        seq![s[0]] + name_run(s.drop_first())
    } else {
        seq![]
    }
}

/// The leading run of non-whitespace.
pub open spec fn word_run(s: Seq<char>) -> Seq<char>
    decreases s.len(),
{
    if s.len() > 0 && !is_ws(s[0]) {
        seq![s[0]] + word_run(s.drop_first())
    } else {
        seq![]
    }
}

/// The first whitespace-separated word (empty when there is none).
pub open spec fn first_word(s: Seq<char>) -> Seq<char> {
    word_run(trim_start(s))
}

/// The entry for an item line whose text after the qualifiers is `rest`,
/// indented by `ind` columns, at line `i` (from 0): kind, name and line
/// number, or nothing when no kind or no name is found.
pub open spec fn item_entry(rest: Seq<char>, ind: nat, i: nat) -> Seq<char> {
    match kind_at(rest, 0) {
        Some(k) => {
            let name = first_word(name_run(rest.subrange(k.len() as int + 1, rest.len() as int)));
            if name.len() > 0 {
                Seq::new(ind, |_i: int| ' ') + k + seq![' '] + name + "  (line "@ + dec(i + 1) + ")\n"@
            } else {
                seq![]
            }
        },
        None => seq![],
    }
}

/// The outline entry for source line `i` (from 0), or nothing.
pub open spec fn outline_entry(line: Seq<char>, i: nat) -> Seq<char> {
    let t = trim_start(line);
    if has_prefix(t, "//"@) {
        seq![]
    } else {
        let ind = vstd::utf8::encode_utf8(line).len() - vstd::utf8::encode_utf8(t).len();
        item_entry(strip_quals_once(strip_quals_once(t)), ind as nat, i)
    }
}

/// Outline entries of lines `0..n`.
pub open spec fn outline_scan(ls: Seq<Seq<char>>, n: nat) -> Seq<char>
    decreases n,
{
    if n == 0 || n > ls.len() {
        seq![]
    } else {
        outline_scan(ls, (n - 1) as nat) + outline_entry(ls[n - 1], (n - 1) as nat)
    }
}

/// The outline of a file: the functions its front matter lists under
/// `fns`, or else the items declared in its source lines, each with its
/// indentation, kind, name and line number.
pub open spec fn outline_spec(label: Seq<char>, content: Seq<char>) -> Seq<char> {
    let head = "outline: "@ + to_slash_spec(label) + seq!['\n'];
    match frontmatter_spec(content) {
        Some(fm) if fm.dom().contains(seq!['f', 'n', 's']) => trim_end(head + name_lines("fn "@, fm_fns(fm))),
        _ => trim_end(head + outline_scan(lines(content), lines(content).len())),
    }
}

fn push_name_lines(out: &mut Vec<char>, prefix: &str, ns: &Vec<String>)
    ensures
        final(out)@ == old(out)@ + name_lines(prefix@, ns@.map_values(|s: String| s@)),
{
    let ghost nv = ns@.map_values(|s: String| s@);
    let mut i: usize = 0;
    while i < ns.len()
        invariant
            i <= ns@.len(),
            nv == ns@.map_values(|s: String| s@),
            out@ == old(out)@ + name_lines(prefix@, nv.subrange(0, i as int)),
        decreases ns@.len() - i,
    {
        let ghost t = nv.subrange(0, i + 1);
        assert(t.drop_last() =~= nv.subrange(0, i as int));
        assert(t.last() == ns@[i as int]@);
        push_str_chars(out, prefix);
        push_str_chars(out, ns[i].as_str());
        out.push('\n');
        assert(out@ =~= old(out)@ + name_lines(prefix@, t));
        i = i + 1;
    }
    assert(nv.subrange(0, ns@.len() as int) =~= nv);
}

fn strip_if_exec(s: Vec<char>, p: &str) -> (r: Vec<char>)
    ensures
        r@ == strip_if(s@, p@),
{
    let pc = chars_of(p);
    if starts_with_chars(s.as_slice(), pc.as_slice()) {
        crate::text::char_range(s.as_slice(), pc.len(), s.len())
    } else {
        s
    }
}

fn strip_quals(s: Vec<char>) -> (r: Vec<char>)
    ensures
        r@ == strip_quals_once(s@),
{
    let s = strip_if_exec(s, "pub(crate) ");
    let s = strip_if_exec(s, "pub(super) ");
    let s = strip_if_exec(s, "pub ");
    let s = strip_if_exec(s, "async ");
    let s = strip_if_exec(s, "unsafe ");
    strip_if_exec(s, "default ")
}

proof fn lemma_kind_at(rest: Seq<char>, j: nat)
    ensures
        kind_at(rest, j) matches Some(k) ==> has_prefix(rest, k + seq![' ']),
    decreases 6 - j,
{
    if j < 6 && !has_prefix(rest, outline_kinds()[j as int] + seq![' ']) {
        lemma_kind_at(rest, j + 1);
    }
}

fn kind_of(rest: &Vec<char>) -> (r: Option<&'static str>)
    ensures
        match r {
            Some(k) => kind_at(rest@, 0) == Some(k@),
            None => kind_at(rest@, 0) is None,
        },
{
    proof {
        reveal_with_fuel(kind_at, 7);
        reveal_strlit("fn ");
        reveal_strlit("impl ");
        reveal_strlit("mod ");
        reveal_strlit("struct ");
        reveal_strlit("enum ");
        reveal_strlit("trait ");
        reveal_strlit("fn");
        reveal_strlit("impl");
        reveal_strlit("mod");
        reveal_strlit("struct");
        reveal_strlit("enum");
        reveal_strlit("trait");
        assert("fn"@ + seq![' '] =~= "fn "@);
        assert("impl"@ + seq![' '] =~= "impl "@);
        assert("mod"@ + seq![' '] =~= "mod "@);
        assert("struct"@ + seq![' '] =~= "struct "@);
        assert("enum"@ + seq![' '] =~= "enum "@);
        assert("trait"@ + seq![' '] =~= "trait "@);
        assert(outline_kinds()[0] == "fn"@);
        assert(outline_kinds()[1] == "impl"@);
        assert(outline_kinds()[2] == "mod"@);
        assert(outline_kinds()[3] == "struct"@);
        assert(outline_kinds()[4] == "enum"@);
        assert(outline_kinds()[5] == "trait"@);
    }
    let s = rest.as_slice();
    if starts_with_chars(s, chars_of("fn ").as_slice()) {
        return Some("fn");
    }
    if starts_with_chars(s, chars_of("impl ").as_slice()) {
        return Some("impl");
    }
    if starts_with_chars(s, chars_of("mod ").as_slice()) {
        return Some("mod");
    }
    if starts_with_chars(s, chars_of("struct ").as_slice()) {
        return Some("struct");
    }
    if starts_with_chars(s, chars_of("enum ").as_slice()) {
        return Some("enum");
    }
    if starts_with_chars(s, chars_of("trait ").as_slice()) {
        return Some("trait");
    }
    None
}

fn name_of(s: &[char]) -> (r: Vec<char>)
    ensures
        r@ == first_word(name_run(s@)),
{
    let mut j: usize = 0;
    assert(s@.subrange(0, 0) + s@.subrange(0, s@.len() as int) =~= s@);
    while j < s.len() && (is_alphanumeric(s[j]) || s[j] == '_' || s[j] == '<' || s[j] == ':' || s[j] == ' ')
        invariant
            j <= s@.len(),
            name_run(s@) == s@.subrange(0, j as int) + name_run(s@.subrange(j as int, s@.len() as int)),
        decreases s@.len() - j,
    {
        let ghost t = s@.subrange(j as int, s@.len() as int);
        assert(t.drop_first() =~= s@.subrange(j + 1, s@.len() as int));
        assert(s@.subrange(0, j + 1) =~= s@.subrange(0, j as int) + seq![s@[j as int]]);
        j = j + 1;
    }
    proof {
        let t = s@.subrange(j as int, s@.len() as int);
        assert(name_run(t) =~= Seq::<char>::empty());
    }
    let run = crate::text::char_range(s, 0, j);
    assert(run@ =~= name_run(s@));
    let mut a: usize = 0;
    assert(run@.subrange(0, run@.len() as int) =~= run@);
    while a < run.len() && char_is_whitespace(run[a])
        invariant
            a <= run@.len(),
            trim_start(run@) == trim_start(run@.subrange(a as int, run@.len() as int)),
        decreases run@.len() - a,
    {
        let ghost t = run@.subrange(a as int, run@.len() as int);
        assert(t.drop_first() =~= run@.subrange(a + 1, run@.len() as int));
        a = a + 1;
    }
    let ghost t = run@.subrange(a as int, run@.len() as int);
    assert(trim_start(t) == t);
    let mut b: usize = a;
    while b < run.len() && !char_is_whitespace(run[b])
        invariant
            a <= b <= run@.len(),
            word_run(t) == run@.subrange(a as int, b as int) + word_run(run@.subrange(b as int, run@.len() as int)),
            t == run@.subrange(a as int, run@.len() as int),
        decreases run@.len() - b,
    {
        let ghost u = run@.subrange(b as int, run@.len() as int);
        assert(u.drop_first() =~= run@.subrange(b + 1, run@.len() as int));
        assert(run@.subrange(a as int, b + 1) =~= run@.subrange(a as int, b as int) + seq![run@[b as int]]);
        b = b + 1;
    }
    proof {
        let u = run@.subrange(b as int, run@.len() as int);
        assert(word_run(u) =~= Seq::<char>::empty());
        assert(t.subrange(0, t.len() as int) =~= t);
    }
    let w = crate::text::char_range(run.as_slice(), a, b);
    assert(w@ =~= word_run(t));
    w
}

fn push_item_entry(out: &mut Vec<char>, rest: &Vec<char>, ind: usize, i: usize)
    requires
        i < usize::MAX,
    ensures
        final(out)@ == old(out)@ + item_entry(rest@, ind as nat, i as nat),
{
    match kind_of(rest) {
        None => {
            assert(out@ =~= old(out)@ + item_entry(rest@, ind as nat, i as nat));
        },
        Some(k) => {
            let kc = chars_of(k);
            proof {
                lemma_kind_at(rest@, 0);
                assert(kc@ == k@);
                assert((k@ + seq![' ']).len() == k@.len() + 1);
                assert(has_prefix(rest@, k@ + seq![' ']));
                assert(kc@.len() + 1 <= rest@.len());
            }
            assert(kc.len() + 1 <= rest.len());
            let after = crate::text::char_range(rest.as_slice(), kc.len() + 1, rest.len());
            let name = name_of(after.as_slice());
            if name.len() > 0 {
                let ghost before = out@;
                let mut z: usize = 0;
                while z < ind
                    invariant
                        z <= ind,
                        out@ == before + Seq::new(z as nat, |_i: int| ' '),
                    decreases ind - z,
                {
                    out.push(' ');
                    z = z + 1;
                    assert(out@ =~= before + Seq::new(z as nat, |_i: int| ' '));
                }
                push_str_chars(out, k);
                out.push(' ');
                push_chars(out, name.as_slice());
                push_str_chars(out, "  (line ");
                push_dec(out, i + 1);
                push_str_chars(out, ")\n");
                assert(out@ =~= old(out)@ + item_entry(rest@, ind as nat, i as nat));
            } else {
                assert(out@ =~= old(out)@ + item_entry(rest@, ind as nat, i as nat));
            }
        },
    }
}

fn push_outline_entry(out: &mut Vec<char>, line: &Vec<char>, i: usize)
    requires
        i < usize::MAX,
    ensures
        final(out)@ == old(out)@ + outline_entry(line@, i as nat),
{
    let mut a: usize = 0;
    assert(line@.subrange(0, line@.len() as int) =~= line@);
    while a < line.len() && char_is_whitespace(line[a])
        invariant
            a <= line@.len(),
            trim_start(line@) == trim_start(line@.subrange(a as int, line@.len() as int)),
        decreases line@.len() - a,
    {
        let ghost t = line@.subrange(a as int, line@.len() as int);
        assert(t.drop_first() =~= line@.subrange(a + 1, line@.len() as int));
        a = a + 1;
    }
    let t = crate::text::char_range(line.as_slice(), a, line.len());
    assert(trim_start(t@) == t@);
    if starts_with_chars(t.as_slice(), chars_of("//").as_slice()) {
        assert(out@ =~= old(out)@ + outline_entry(line@, i as nat));
        return;
    }
    let ls = string_of(line.as_slice());
    let ts = string_of(t.as_slice());
    let lb = ls.as_str().as_bytes().len();
    let tb = ts.as_str().as_bytes().len();
    proof {
        let p = line@.subrange(0, a as int);
        assert(line@ =~= p + t@);
        crate::text::lemma_encode_concat(p, t@);
    }
    let ind = lb - tb;
    let rest = strip_quals(strip_quals(t));
    push_item_entry(out, &rest, ind, i);
}

/// The outline of a file (see `outline_spec`); `label` is its path as
/// displayed.
pub fn outline(label: &str, content: &str) -> (r: String)
    ensures
        r@ == outline_spec(label@, content@),
{
    let mut out: Vec<char> = Vec::new();
    push_str_chars(&mut out, "outline: ");
    let sl = to_slash(label);
    push_str_chars(&mut out, sl.as_str());
    out.push('\n');
    let ghost head = out@;
    assert(head =~= "outline: "@ + to_slash_spec(label@) + seq!['\n']);
    match parse_frontmatter(content) {
        Some(fm) => {
            match fm.get("fns") {
                Some(fns) => {
                    proof {
                        reveal_strlit("fns");
                        assert("fns"@ =~= seq!['f', 'n', 's']);
                    }
                    let names = split_nonempty(fns.as_str(), ',');
                    push_name_lines(&mut out, "fn ", &names);
                    let t = trim_end_from(out.as_slice(), 0);
                    assert(out@.subrange(0, out@.len() as int) =~= out@);
                    return string_of(t.as_slice());
                },
                None => {
                    proof {
                        reveal_strlit("fns");
                        assert("fns"@ =~= seq!['f', 'n', 's']);
                    }
                },
            }
        },
        None => {},
    }
    let cs = chars_of(content);
    let ls = lines_of(cs.as_slice());
    let ghost lv = ls@.map_values(|l: Vec<char>| l@);
    assert(lv == lines(content@));
    let mut i: usize = 0;
    while i < ls.len()
        invariant
            i <= ls@.len(),
            lv == ls@.map_values(|l: Vec<char>| l@),
            out@ == head + outline_scan(lv, i as nat),
        decreases ls@.len() - i,
    {
        assert(lv[i as int] == ls@[i as int]@);
        push_outline_entry(&mut out, &ls[i], i);
        i = i + 1;
    }
    let t = trim_end_from(out.as_slice(), 0);
    assert(out@.subrange(0, out@.len() as int) =~= out@);
    string_of(t.as_slice())
}

/// The key/value view of a parsed front matter, empty when absent.
pub open spec fn opt_fm(fm: Option<KeyedMap<String>>) -> Map<Seq<char>, Seq<char>> {
    match fm {
        Some(m) => text_map(m@),
        None => Map::empty(),
    }
}

/// The value of `k` in a front matter, or `d`.
pub open spec fn fm_get_or(fm: Map<Seq<char>, Seq<char>>, k: Seq<char>, d: Seq<char>) -> Seq<char> {
    if fm.dom().contains(k) {
        fm[k]
    } else {
        d
    }
}

/// The front matter of a text, empty when it has none.
pub open spec fn fm_or_empty(content: Seq<char>) -> Map<Seq<char>, Seq<char>> {
    match frontmatter_spec(content) {
        Some(m) => m,
        None => Map::empty(),
    }
}

/// The language directory of an indexed source: the extension of its
/// `source`, else its `language`.
pub open spec fn fm_ext(fm: Map<Seq<char>, Seq<char>>) -> Seq<char> {
    match extension(fm_get_or(fm, "source"@, seq![])) {
        Some(e) => e,
        None => fm_get_or(fm, "language"@, seq![]),
    }
}

/// The names listed under `fns`.
pub open spec fn fm_fn_names(fm: Map<Seq<char>, Seq<char>>) -> Seq<Seq<char>> {
    nonempty_pieces(split_on(fm_get_or(fm, "fns"@, seq![]), ','))
}

/// Where the structure file of the source named in a body's front matter
/// lies.
pub open spec fn ref_struct_path(fm: Map<Seq<char>, Seq<char>>, index: Seq<char>) -> Seq<char> {
    join(
        join(join(index, fm_ext(fm)), "structure"@),
        to_slash_spec(strip_extension(fm_get_or(fm, "source"@, seq![]))) + ".md"@,
    )
}

/// The references of an index file: for a body file (its front matter has
/// `fn`), the structure file that lists it (`in`) and its source; for a
/// structure file, the functions it lists (`out`). `direction` is `in`,
/// `out` or `both`.
pub open spec fn ref_graph_spec(label: Seq<char>, content: Seq<char>, index: Seq<char>, direction: Seq<char>) -> Seq<
    char,
> {
    let fm = fm_or_empty(content);
    let head = "file: "@ + to_slash_spec(label) + seq!['\n'];
    if fm.dom().contains("fn"@) {
        let inl = if direction == "in"@ || direction == "both"@ {
            "in: "@ + ref_struct_path(fm, index) + seq!['\n']
        } else {
            seq![]
        };
        trim_end(head + inl + "source: "@ + fm_get_or(fm, "source"@, "?"@) + seq!['\n'])
    } else {
        let o = if direction == "out"@ || direction == "both"@ {
            let ns = fm_fn_names(fm);
            "out ("@ + dec(ns.len()) + "):\n"@ + name_lines("  "@, ns)
        } else {
            seq![]
        };
        trim_end(head + o)
    }
}

fn fm_value(fm: &Option<KeyedMap<String>>, k: &str, d: &str) -> (r: String)
    requires
        fm matches Some(m) ==> m.wf(),
    ensures
        r@ == fm_get_or(
            opt_fm(*fm),
            k@,
            d@,
        ),
{
    match fm {
        Some(m) => match m.get(k) {
            Some(v) => v.clone(),
            None => string_of(chars_of(d).as_slice()),
        },
        None => string_of(chars_of(d).as_slice()),
    }
}

fn fm_has(fm: &Option<KeyedMap<String>>, k: &str) -> (r: bool)
    requires
        fm matches Some(m) ==> m.wf(),
    ensures
        r == opt_fm(*fm).dom().contains(k@),
{
    match fm {
        Some(m) => m.contains(k),
        None => false,
    }
}

fn fm_ext_of(fm: &Option<KeyedMap<String>>) -> (r: String)
    requires
        fm matches Some(m) ==> m.wf(),
    ensures
        r@ == fm_ext(opt_fm(*fm)),
{
    let src = fm_value(fm, "source", "");
    proof {
        reveal_strlit("");
        assert(""@ =~= Seq::<char>::empty());
    }
    match path_extension(src.as_str()) {
        Some(e) => e,
        None => fm_value(fm, "language", ""),
    }
}

/// The references of an index file (see `ref_graph_spec`); `label` is its
/// path as displayed, `index` the index directory.
pub fn ref_graph(label: &str, content: &str, index: &str, direction: &str) -> (r: String)
    ensures
        r@ == ref_graph_spec(label@, content@, index@, direction@),
{
    let fm = parse_frontmatter(content);
    let ghost fmv = opt_fm(fm);
    assert(fmv =~= fm_or_empty(content@));
    let mut out: Vec<char> = Vec::new();
    push_str_chars(&mut out, "file: ");
    let sl = to_slash(label);
    push_str_chars(&mut out, sl.as_str());
    out.push('\n');
    let ghost head = "file: "@ + to_slash_spec(label@) + seq!['\n'];
    assert(out@ =~= head);
    if fm_has(&fm, "fn") {
        if str_eq(direction, "in") || str_eq(direction, "both") {
            let ext = fm_ext_of(&fm);
            let src = fm_value(&fm, "source", "");
            proof {
                reveal_strlit("");
                assert(""@ =~= Seq::<char>::empty());
            }
            let a = path_join(index, ext.as_str());
            let b = path_join(a.as_str(), "structure");
            let key = to_slash(path_strip_extension(src.as_str()).as_str());
            let mut kv: Vec<char> = chars_of(key.as_str());
            push_str_chars(&mut kv, ".md");
            let kk = string_of(kv.as_slice());
            let sp = path_join(b.as_str(), kk.as_str());
            push_str_chars(&mut out, "in: ");
            push_str_chars(&mut out, sp.as_str());
            out.push('\n');
            assert(sp@ == ref_struct_path(fmv, index@));
            assert(out@ =~= head + ("in: "@ + ref_struct_path(fmv, index@) + seq!['\n']));
        } else {
            assert(out@ =~= head + Seq::<char>::empty());
        }
        let ghost mid = out@;
        push_str_chars(&mut out, "source: ");
        let so = fm_value(&fm, "source", "?");
        push_str_chars(&mut out, so.as_str());
        out.push('\n');
        assert(out@ =~= mid + "source: "@ + fm_get_or(fmv, "source"@, "?"@) + seq!['\n']);
    } else {
        if str_eq(direction, "out") || str_eq(direction, "both") {
            let fv = fm_value(&fm, "fns", "");
            proof {
                reveal_strlit("");
                assert(""@ =~= Seq::<char>::empty());
            }
            let names = split_nonempty(fv.as_str(), ',');
            push_str_chars(&mut out, "out (");
            push_dec(&mut out, names.len());
            push_str_chars(&mut out, "):\n");
            push_name_lines(&mut out, "  ", &names);
            assert(out@ =~= head + ("out ("@ + dec(names@.len()) + "):\n"@ + name_lines("  "@, fm_fn_names(fmv))));
        } else {
            assert(out@ =~= head + Seq::<char>::empty());
        }
    }
    let t = trim_end_from(out.as_slice(), 0);
    assert(out@.subrange(0, out@.len() as int) =~= out@);
    assert(t@ == ref_graph_spec(label@, content@, index@, direction@));
    string_of(t.as_slice())
}

/// Where the body files of the source named in a structure's front matter
/// lie.
pub open spec fn body_root(fm: Map<Seq<char>, Seq<char>>, index: Seq<char>) -> Seq<char> {
    join(join(join(index, fm_ext(fm)), "functions"@), strip_extension(fm_get_or(fm, "source"@, seq![])))
}

/// `(structure, name, body path)` for each name listed by the structure.
pub open spec fn name_refs(sp: Seq<char>, root: Seq<char>, ns: Seq<Seq<char>>) -> Seq<(Seq<char>, Seq<char>, Seq<char>)>
    decreases ns.len(),
{
    if ns.len() == 0 {
        seq![]
    } else {
        name_refs(sp, root, ns.drop_last()).push((sp, ns.last(), join(root, ns.last() + ".md"@)))
    }
}

/// The references of all structure files `(path, text)` that have a front
/// matter, in order.
pub open spec fn all_refs(structs: Seq<(Seq<char>, Seq<char>)>, index: Seq<char>) -> Seq<
    (Seq<char>, Seq<char>, Seq<char>),
>
    decreases structs.len(),
{
    if structs.len() == 0 {
        seq![]
    } else {
        let prev = all_refs(structs.drop_last(), index);
        let (sp, content) = structs.last();
        match frontmatter_spec(content) {
            Some(fm) => prev + name_refs(sp, body_root(fm, index), fm_fn_names(fm)),
            None => prev,
        }
    }
}

/// The references whose body file is not among `bodies`, as
/// `(structure, name)`.
pub open spec fn dead_refs(refs: Seq<(Seq<char>, Seq<char>, Seq<char>)>, bodies: Seq<Seq<char>>) -> Seq<
    (Seq<char>, Seq<char>),
>
    decreases refs.len(),
{
    if refs.len() == 0 {
        seq![]
    } else {
        let prev = dead_refs(refs.drop_last(), bodies);
        if bodies.contains(refs.last().2) {
            prev
        } else {
            prev.push((refs.last().0, refs.last().1))
        }
    }
}

/// The body files that no structure references, in the given order.
pub open spec fn orphans(bodies: Seq<Seq<char>>, paths: Seq<Seq<char>>) -> Seq<Seq<char>>
    decreases bodies.len(),
{
    if bodies.len() == 0 {
        seq![]
    } else {
        let prev = orphans(bodies.drop_last(), paths);
        if paths.contains(bodies.last()) {
            prev
        } else {
            prev.push(bodies.last())
        }
    }
}

/// The consistency of the code index.
pub struct IndexCheck {
    pub structures: usize,
    pub bodies: usize,
    /// Body files that no structure file lists.
    pub orphans: Vec<String>,
    /// `(structure file, function)` listed without a body file.
    pub dead_refs: Vec<(String, String)>,
}

pub open spec fn strs(v: Seq<String>) -> Seq<Seq<char>> {
    v.map_values(|s: String| s@)
}

pub open spec fn str_pairs(v: Seq<(String, String)>) -> Seq<(Seq<char>, Seq<char>)> {
    v.map_values(|p: (String, String)| (p.0@, p.1@))
}

fn contains_string(v: &Vec<String>, x: &str) -> (r: bool)
    ensures
        r == strs(v@).contains(x@),
{
    let ghost w = strs(v@);
    let mut i: usize = 0;
    while i < v.len()
        invariant
            i <= v@.len(),
            w == strs(v@),
            forall|k: int| 0 <= k < i ==> (#[trigger] w[k]) != x@,
        decreases v@.len() - i,
    {
        if str_eq(v[i].as_str(), x) {
            assert(w[i as int] == x@);
            return true;
        }
        i = i + 1;
    }
    false
}

/// Checks the code index: `bodies` are the body files found (each once),
/// `structs` the structure files `(path, text)`, `index` the index
/// directory. Each name a structure lists stands for
/// `<index>/<ext>/functions/<source without extension>/<name>.md`.
pub fn validate(bodies: &Vec<String>, structs: &Vec<(String, String)>, index: &str) -> (r: IndexCheck)
    ensures
        r.structures == structs@.len(),
        r.bodies == bodies@.len(),
        strs(r.orphans@) == orphans(strs(bodies@), all_refs(str_pairs(structs@), index@).map_values(
            |x: (Seq<char>, Seq<char>, Seq<char>)| x.2,
        )),
        str_pairs(r.dead_refs@) == dead_refs(all_refs(str_pairs(structs@), index@), strs(bodies@)),
{
    let ghost sv = str_pairs(structs@);
    let ghost bv = strs(bodies@);
    let mut paths: Vec<String> = Vec::new();
    let mut dead: Vec<(String, String)> = Vec::new();
    let mut i: usize = 0;
    while i < structs.len()
        invariant
            i <= structs@.len(),
            sv == str_pairs(structs@),
            bv == strs(bodies@),
            strs(paths@) == all_refs(sv.subrange(0, i as int), index@).map_values(
                |x: (Seq<char>, Seq<char>, Seq<char>)| x.2,
            ),
            str_pairs(dead@) == dead_refs(all_refs(sv.subrange(0, i as int), index@), bv),
        decreases structs@.len() - i,
    {
        let ghost pre = sv.subrange(0, i as int);
        let ghost cur = sv.subrange(0, i + 1);
        assert(cur.drop_last() =~= pre);
        assert(cur.last() == (structs@[i as int].0@, structs@[i as int].1@));
        let sp = &structs[i].0;
        let fm = parse_frontmatter(structs[i].1.as_str());
        match fm {
            None => {},
            Some(_) => {
                let ghost fmv = opt_fm(fm);
                let ext = fm_ext_of(&fm);
                let src = fm_value(&fm, "source", "");
                let fv = fm_value(&fm, "fns", "");
                proof {
                    reveal_strlit("");
                    assert(""@ =~= Seq::<char>::empty());
                }
                let a = path_join(index, ext.as_str());
                let b = path_join(a.as_str(), "functions");
                let stem = path_strip_extension(src.as_str());
                let root = path_join(b.as_str(), stem.as_str());
                assert(root@ == body_root(fmv, index@));
                let names = split_nonempty(fv.as_str(), ',');
                let ghost nv = strs(names@);
                assert(nv == fm_fn_names(fmv));
                let ghost r0 = all_refs(pre, index@);
                let mut j: usize = 0;
                while j < names.len()
                    invariant
                        j <= names@.len(),
                        nv == strs(names@),
                        bv == strs(bodies@),
                        strs(paths@) == (r0 + name_refs(sp@, root@, nv.subrange(0, j as int))).map_values(
                            |x: (Seq<char>, Seq<char>, Seq<char>)| x.2,
                        ),
                        str_pairs(dead@) == dead_refs(r0 + name_refs(sp@, root@, nv.subrange(0, j as int)), bv),
                    decreases names@.len() - j,
                {
                    let ghost t = nv.subrange(0, j + 1);
                    assert(t.drop_last() =~= nv.subrange(0, j as int));
                    assert(t.last() == names@[j as int]@);
                    let ghost rs0 = r0 + name_refs(sp@, root@, nv.subrange(0, j as int));
                    let mut fv2: Vec<char> = chars_of(names[j].as_str());
                    push_str_chars(&mut fv2, ".md");
                    let fname = string_of(fv2.as_slice());
                    let bp = path_join(root.as_str(), fname.as_str());
                    let ghost x = (sp@, names@[j as int]@, bp@);
                    assert(r0 + name_refs(sp@, root@, t) =~= rs0.push(x));
                    assert(rs0.push(x).drop_last() =~= rs0);
                    let ghost pv = strs(paths@);
                    paths.push(bp.clone());
                    assert(strs(paths@) =~= pv.push(bp@));
                    assert(rs0.push(x).map_values(|x: (Seq<char>, Seq<char>, Seq<char>)| x.2) =~= rs0.map_values(
                        |x: (Seq<char>, Seq<char>, Seq<char>)| x.2,
                    ).push(bp@));
                    if !contains_string(bodies, bp.as_str()) {
                        let ghost dv = str_pairs(dead@);
                        dead.push((sp.clone(), names[j].clone()));
                        assert(str_pairs(dead@) =~= dv.push((sp@, names@[j as int]@)));
                    }
                    j = j + 1;
                }
                assert(nv.subrange(0, names@.len() as int) =~= nv);
                assert(all_refs(cur, index@) == r0 + name_refs(sp@, root@, nv));
            },
        }
        i = i + 1;
    }
    assert(sv.subrange(0, structs@.len() as int) =~= sv);
    let ghost pathv = strs(paths@);
    let mut orph: Vec<String> = Vec::new();
    let mut k: usize = 0;
    while k < bodies.len()
        invariant
            k <= bodies@.len(),
            bv == strs(bodies@),
            pathv == strs(paths@),
            strs(orph@) == orphans(bv.subrange(0, k as int), pathv),
        decreases bodies@.len() - k,
    {
        let ghost t = bv.subrange(0, k + 1);
        assert(t.drop_last() =~= bv.subrange(0, k as int));
        assert(t.last() == bodies@[k as int]@);
        if !contains_string(&paths, bodies[k].as_str()) {
            let ghost ov = strs(orph@);
            orph.push(bodies[k].clone());
            assert(strs(orph@) =~= ov.push(bodies@[k as int]@));
        }
        k = k + 1;
    }
    assert(bv.subrange(0, bodies@.len() as int) =~= bv);
    IndexCheck { structures: structs.len(), bodies: bodies.len(), orphans: orph, dead_refs: dead }
}

/// `  - <item>` lines.
pub open spec fn item_lines(items: Seq<Seq<char>>) -> Seq<char> {
    name_lines("  - "@, items)
}

/// `  - <structure> -> <name>` lines.
pub open spec fn dead_lines(d: Seq<(Seq<char>, Seq<char>)>) -> Seq<char>
    decreases d.len(),
{
    if d.len() == 0 {
        seq![]
    } else {
        dead_lines(d.drop_last()) + "  - "@ + d.last().0 + " -> "@ + d.last().1 + seq!['\n']
    }
}

/// The text of an index check; `deleted` is the number of orphans removed
/// when they were.
pub open spec fn check_report(
    structures: nat,
    bodies: nat,
    orphans: Seq<Seq<char>>,
    dead: Seq<(Seq<char>, Seq<char>)>,
    deleted: Option<nat>,
) -> Seq<char> {
    trim_end(
        "structures: "@ + dec(structures) + "\nbodies:     "@ + dec(bodies) + "\norphans:    "@ + dec(
            orphans.len(),
        ) + seq!['\n'] + item_lines(orphans) + "dead refs:  "@ + dec(dead.len()) + seq!['\n'] + dead_lines(
            dead,
        ) + match deleted {
            Some(n) => "\nfixed: deleted "@ + dec(n) + " orphans\n"@,
            None => seq![],
        },
    )
}

/// Renders an index check (see `check_report`).
pub fn render_check(c: &IndexCheck, deleted: Option<usize>) -> (r: String)
    ensures
        r@ == check_report(
            c.structures as nat,
            c.bodies as nat,
            strs(c.orphans@),
            str_pairs(c.dead_refs@),
            match deleted {
                Some(n) => Some(n as nat),
                None => None,
            },
        ),
{
    let mut out: Vec<char> = Vec::new();
    push_str_chars(&mut out, "structures: ");
    push_dec(&mut out, c.structures);
    push_str_chars(&mut out, "\nbodies:     ");
    push_dec(&mut out, c.bodies);
    push_str_chars(&mut out, "\norphans:    ");
    push_dec(&mut out, c.orphans.len());
    out.push('\n');
    push_name_lines(&mut out, "  - ", &c.orphans);
    push_str_chars(&mut out, "dead refs:  ");
    push_dec(&mut out, c.dead_refs.len());
    out.push('\n');
    let ghost dv = str_pairs(c.dead_refs@);
    let ghost base = out@;
    let mut i: usize = 0;
    while i < c.dead_refs.len()
        invariant
            i <= c.dead_refs@.len(),
            dv == str_pairs(c.dead_refs@),
            out@ == base + dead_lines(dv.subrange(0, i as int)),
        decreases c.dead_refs@.len() - i,
    {
        let ghost t = dv.subrange(0, i + 1);
        assert(t.drop_last() =~= dv.subrange(0, i as int));
        assert(t.last() == (c.dead_refs@[i as int].0@, c.dead_refs@[i as int].1@));
        push_str_chars(&mut out, "  - ");
        push_str_chars(&mut out, c.dead_refs[i].0.as_str());
        push_str_chars(&mut out, " -> ");
        push_str_chars(&mut out, c.dead_refs[i].1.as_str());
        out.push('\n');
        assert(out@ =~= base + dead_lines(t));
        i = i + 1;
    }
    assert(dv.subrange(0, c.dead_refs@.len() as int) =~= dv);
    let ghost mid = out@;
    match deleted {
        Some(n) => {
            push_str_chars(&mut out, "\nfixed: deleted ");
            push_dec(&mut out, n);
            push_str_chars(&mut out, " orphans\n");
        },
        None => {},
    }
    let ghost del: Option<nat> = match deleted {
        Some(n) => Some(n as nat),
        None => None,
    };
    assert(out@ =~= mid + match del {
        Some(n) => "\nfixed: deleted "@ + dec(n) + " orphans\n"@,
        None => Seq::<char>::empty(),
    });
    let t = trim_end_from(out.as_slice(), 0);
    assert(out@.subrange(0, out@.len() as int) =~= out@);
    assert(out@ =~= "structures: "@ + dec(c.structures as nat) + "\nbodies:     "@ + dec(c.bodies as nat)
        + "\norphans:    "@ + dec(strs(c.orphans@).len()) + seq!['\n'] + item_lines(strs(c.orphans@))
        + "dead refs:  "@ + dec(dv.len()) + seq!['\n'] + dead_lines(dv) + match del {
        Some(n) => "\nfixed: deleted "@ + dec(n) + " orphans\n"@,
        None => Seq::<char>::empty(),
    });
    string_of(t.as_slice())
}

/// A body file as listed: its size in bytes, its lines of code, its
/// modification time (nanoseconds since the epoch) and its file stem.
pub struct BodyEntry {
    pub size: u64,
    pub loc: usize,
    pub mtime: u128,
    pub stem: String,
}

pub open spec fn entry_view(e: BodyEntry) -> (nat, nat, nat, Seq<char>) {
    (e.size as nat, e.loc as nat, e.mtime as nat, e.stem@)
}

pub open spec fn entries_view(v: Seq<BodyEntry>) -> Seq<(nat, nat, nat, Seq<char>)> {
    v.map_values(|e: BodyEntry| entry_view(e))
}

/// The order a listing is sorted by: 0 by lines of code, 1 by modification
/// time (both largest first), 2 by name (ascending), 3 by size (largest
/// first).
pub open spec fn sort_mode_spec(sort: Seq<char>) -> nat {
    if sort == "loc"@ {
        0
    } else if sort == "mtime"@ {
        1
    } else if sort == "name"@ {
        2
    } else {
        3
    }
}

pub fn sort_mode(sort: &str) -> (r: u8)
    ensures
        r as nat == sort_mode_spec(sort@),
{
    if str_eq(sort, "loc") {
        0
    } else if str_eq(sort, "mtime") {
        1
    } else if str_eq(sort, "name") {
        2
    } else {
        3
    }
}

/// Whether `x` sorts strictly before `e`.
pub open spec fn sorts_before(x: (nat, nat, nat, Seq<char>), e: (nat, nat, nat, Seq<char>), mode: nat) -> bool {
    if mode == 0 {
        x.1 > e.1
    } else if mode == 1 {
        x.2 > e.2
    } else if mode == 2 {
        !bytes_le(vstd::utf8::encode_utf8(e.3), vstd::utf8::encode_utf8(x.3))
    } else {
        x.0 > e.0
    }
}

/// `x` placed into the sorted `t` after every entry it does not sort
/// strictly before.
pub open spec fn ins_sorted(t: Seq<(nat, nat, nat, Seq<char>)>, x: (nat, nat, nat, Seq<char>), mode: nat) -> Seq<
    (nat, nat, nat, Seq<char>),
>
    decreases t.len(),
{
    if t.len() == 0 {
        seq![x]
    } else if sorts_before(x, t.last(), mode) {
        ins_sorted(t.drop_last(), x, mode).push(t.last())
    } else {
        t.push(x)
    }
}

/// `s` sorted stably by `mode`.
pub open spec fn sort_entries(s: Seq<(nat, nat, nat, Seq<char>)>, mode: nat) -> Seq<(nat, nat, nat, Seq<char>)>
    decreases s.len(),
{
    if s.len() == 0 {
        seq![]
    } else {
        ins_sorted(sort_entries(s.drop_last(), mode), s.last(), mode)
    }
}

/// The entries whose stem the glob matches (all when there is none) and
/// whose lines of code lie within the bounds.
pub open spec fn keep_entries(
    s: Seq<(nat, nat, nat, Seq<char>)>,
    glob: Option<Seq<char>>,
    min: Option<nat>,
    max: Option<nat>,
) -> Seq<(nat, nat, nat, Seq<char>)>
    decreases s.len(),
{
    if s.len() == 0 {
        seq![]
    } else {
        let prev = keep_entries(s.drop_last(), glob, min, max);
        let e = s.last();
        let ok = (match glob {
            Some(g) => glob_match(g, e.3),
            None => true,
        }) && (match min {
            Some(m) => e.1 >= m,
            None => true,
        }) && (match max {
            Some(m) => e.1 <= m,
            None => true,
        });
        if ok {
            prev.push(e)
        } else {
            prev
        }
    }
}

/// `s` right-aligned in `w` columns.
pub open spec fn pad_left(s: Seq<char>, w: nat) -> Seq<char> {
    if s.len() < w {
        Seq::new((w - s.len()) as nat, |_i: int| ' ') + s
    } else {
        s
    }
}

/// One listing line.
pub open spec fn entry_line(e: (nat, nat, nat, Seq<char>), with_loc: bool) -> Seq<char> {
    if with_loc {
        pad_left(dec(e.0), 8) + "  "@ + pad_left(dec(e.1), 6) + " loc  "@ + e.3
    } else {
        pad_left(dec(e.0), 8) + "  "@ + e.3
    }
}

pub open spec fn entry_lines(s: Seq<(nat, nat, nat, Seq<char>)>, with_loc: bool) -> Seq<Seq<char>> {
    s.map_values(|e: (nat, nat, nat, Seq<char>)| entry_line(e, with_loc))
}

/// Whether a listing needs the lines of code of its entries.
pub open spec fn needs_loc_spec(min: Option<nat>, max: Option<nat>, sort: Seq<char>) -> bool {
    min is Some || max is Some || sort == "loc"@
}

pub fn needs_loc(min: Option<usize>, max: Option<usize>, sort: &str) -> (r: bool)
    ensures
        r == needs_loc_spec(
            match min {
                Some(m) => Some(m as nat),
                None => None,
            },
            match max {
                Some(m) => Some(m as nat),
                None => None,
            },
            sort@,
        ),
{
    min.is_some() || max.is_some() || str_eq(sort, "loc")
}

/// The listing of body files: an error for a glob that does not compile;
/// otherwise the entries kept (see `keep_entries`), sorted by `sort`, from
/// `cursor` on and at most `limit` of them, one line each (size, lines of
/// code when they matter, name), with a footer of counts; a notice when the
/// page is empty.
pub open spec fn list_bodies_spec(
    es: Seq<(nat, nat, nat, Seq<char>)>,
    glob: Option<Seq<char>>,
    min: Option<nat>,
    max: Option<nat>,
    sort: Seq<char>,
    cursor: nat,
    limit: Option<nat>,
) -> Result<Seq<char>, Seq<char>> {
    match glob {
        Some(g) if glob_new_error(g) is Some => Err("invalid glob: "@ + glob_new_error(g)->0),
        _ => {
            listing_page(
                sort_entries(keep_entries(es, glob, min, max), sort_mode_spec(sort)),
                needs_loc_spec(min, max, sort),
                cursor,
                limit,
            )
        },
    }
}

/// One page of a sorted listing (see `list_bodies_spec`).
pub open spec fn listing_page(
    kept: Seq<(nat, nat, nat, Seq<char>)>,
    with_loc: bool,
    cursor: nat,
    limit: Option<nat>,
) -> Result<Seq<char>, Seq<char>> {
    let total = kept.len();
    let from: nat = if cursor <= total {
        cursor
    } else {
        total
    };
    let end: nat = match limit {
        Some(l) => if from + l <= total {
            from + l
        } else {
            total
        },
        None => total,
    };
    if end <= from {
        Ok("no .md (total="@ + dec(total) + ", cursor="@ + dec(cursor) + ")"@)
    } else {
        let shown = (end - from) as nat;
        let next = cursor + shown;
        Ok(join_with(entry_lines(kept.subrange(from as int, end as int), with_loc), seq!['\n']) + (
        if next < total {
            "\n-- "@ + dec(shown) + "/"@ + dec(total) + " (next cursor: "@ + dec(next) + ")"@
        } else {
            "\n-- "@ + dec(shown) + "/"@ + dec(total)
        }))
    }
}

proof fn lemma_ins_sorted(t: Seq<(nat, nat, nat, Seq<char>)>, x: (nat, nat, nat, Seq<char>), mode: nat, pos: int)
    requires
        0 <= pos <= t.len(),
        forall|k: int| pos <= k < t.len() ==> sorts_before(x, #[trigger] t[k], mode),
        pos == 0 || !sorts_before(x, t[pos - 1], mode),
    ensures
        ins_sorted(t, x, mode) == t.insert(pos, x),
    decreases t.len(),
{
    if t.len() == 0 {
        assert(t.insert(pos, x) =~= seq![x]);
    } else if pos == t.len() {
        assert(t.insert(pos, x) =~= t.push(x));
    } else {
        assert(sorts_before(x, t[t.len() - 1], mode));
        let d = t.drop_last();
        assert forall|k: int| pos <= k < d.len() implies sorts_before(x, #[trigger] d[k], mode) by {
            assert(d[k] == t[k]);
        }
        if pos > 0 {
            assert(d[pos - 1] == t[pos - 1]);
        }
        lemma_ins_sorted(d, x, mode, pos);
        assert(t.insert(pos, x) =~= d.insert(pos, x).push(t.last()));
    }
}

fn before_exec(x: &BodyEntry, e: &BodyEntry, mode: u8) -> (r: bool)
    requires
        mode <= 3,
    ensures
        r == sorts_before(entry_view(*x), entry_view(*e), mode as nat),
{
    if mode == 0 {
        x.loc > e.loc
    } else if mode == 1 {
        x.mtime > e.mtime
    } else if mode == 2 {
        !str_le(e.stem.as_str(), x.stem.as_str())
    } else {
        x.size > e.size
    }
}

fn push_padded_dec(out: &mut Vec<char>, n: u128, w: usize)
    ensures
        final(out)@ == old(out)@ + pad_left(dec(n as nat), w as nat),
{
    let mut d: Vec<char> = Vec::new();
    push_u128_dec(&mut d, n);
    let ghost before = out@;
    let mut k = d.len();
    while k < w
        invariant
            d@.len() <= k <= w || (k == d@.len() && k >= w),
            out@ == before + Seq::new((k - d@.len()) as nat, |_i: int| ' '),
        decreases w - k,
    {
        out.push(' ');
        k = k + 1;
        assert(out@ =~= before + Seq::new((k - d@.len()) as nat, |_i: int| ' '));
    }
    push_chars(out, d.as_slice());
    assert(out@ =~= before + pad_left(dec(n as nat), w as nat));
}

fn push_u128_dec(out: &mut Vec<char>, n: u128)
    ensures
        final(out)@ == old(out)@ + dec(n as nat),
    decreases n,
{
    if n < 10 {
        out.push(crate::text::digit(n as u64));
        assert(dec(n as nat) == crate::text::in_base(n as nat, 10));
    } else {
        push_u128_dec(out, n / 10);
        out.push(crate::text::digit((n % 10) as u64));
        assert(dec(n as nat) == crate::text::in_base(n as nat, 10));
        assert(dec((n / 10) as nat) == crate::text::in_base((n / 10) as nat, 10));
    }
}

fn select_entries<'a>(
    entries: &'a Vec<BodyEntry>,
    glob: Option<&str>,
    min_loc: Option<usize>,
    max_loc: Option<usize>,
    mode: u8,
) -> (kept: Vec<&'a BodyEntry>)
    requires
        mode <= 3,
        glob matches Some(g) ==> glob_new_error(g@) is None,
    ensures
        kept@.map_values(|e: &BodyEntry| entry_view(*e)) == sort_entries(
            keep_entries(entries_view(entries@), match glob {
                Some(g) => Some(g@),
                None => None,
            }, match min_loc {
                Some(m) => Some(m as nat),
                None => None,
            }, match max_loc {
                Some(m) => Some(m as nat),
                None => None,
            }),
            mode as nat,
        ),
{
    let ghost gv: Option<Seq<char>> = match glob {
        Some(g) => Some(g@),
        None => None,
    };
    let ghost mn: Option<nat> = match min_loc {
        Some(m) => Some(m as nat),
        None => None,
    };
    let ghost mx: Option<nat> = match max_loc {
        Some(m) => Some(m as nat),
        None => None,
    };
    let ghost ev = entries_view(entries@);
    let ghost md = mode as nat;
    let mut kept: Vec<&BodyEntry> = Vec::new();
    let mut i: usize = 0;
    while i < entries.len()
        invariant
            i <= entries@.len(),
            ev == entries_view(entries@),
            md == mode as nat,
            mode <= 3,
            gv == match glob {
                Some(g) => Some(g@),
                None => None,
            },
            glob matches Some(g) ==> glob_new_error(g@) is None,
            mn == match min_loc {
                Some(m) => Some(m as nat),
                None => None,
            },
            mx == match max_loc {
                Some(m) => Some(m as nat),
                None => None,
            },
            kept@.map_values(|e: &BodyEntry| entry_view(*e)) == sort_entries(
                keep_entries(ev.subrange(0, i as int), gv, mn, mx),
                md,
            ),
        decreases entries@.len() - i,
    {
        let ghost pre = ev.subrange(0, i as int);
        let ghost cur = ev.subrange(0, i + 1);
        assert(cur.drop_last() =~= pre);
        assert(cur.last() == entry_view(entries@[i as int]));
        let e = &entries[i];
        let ok_glob = match glob {
            Some(g) => glob_matches(g, e.stem.as_str()),
            None => true,
        };
        let ok_min = match min_loc {
            Some(m) => e.loc >= m,
            None => true,
        };
        let ok_max = match max_loc {
            Some(m) => e.loc <= m,
            None => true,
        };
        if ok_glob && ok_min && ok_max {
            let ghost t = kept@.map_values(|e: &BodyEntry| entry_view(*e));
            let ghost xv = entry_view(*e);
            let mut pos: usize = kept.len();
            while pos > 0 && before_exec(e, kept[pos - 1], mode)
                invariant
                    pos <= kept@.len(),
                    mode <= 3,
                    md == mode as nat,
                    t == kept@.map_values(|e: &BodyEntry| entry_view(*e)),
                    xv == entry_view(*e),
                    forall|k: int| pos <= k < t.len() ==> sorts_before(xv, #[trigger] t[k], md),
                decreases pos,
            {
                assert(t[pos - 1] == entry_view(*kept@[pos - 1]));
                pos = pos - 1;
            }
            proof {
                if pos > 0 {
                    assert(t[pos - 1] == entry_view(*kept@[pos - 1]));
                }
                lemma_ins_sorted(t, xv, md, pos as int);
                let k0 = keep_entries(pre, gv, mn, mx);
                assert(keep_entries(cur, gv, mn, mx) =~= k0.push(xv));
                assert(k0.push(xv).drop_last() =~= k0);
            }
            kept.insert(pos, e);
            assert(kept@.map_values(|e: &BodyEntry| entry_view(*e)) =~= t.insert(pos as int, xv));
        } else {
            proof {
                let k0 = keep_entries(pre, gv, mn, mx);
                assert(keep_entries(cur, gv, mn, mx) =~= k0);
            }
        }
        i = i + 1;
    }
    assert(ev.subrange(0, entries@.len() as int) =~= ev);
    kept
}

/// The listing of body files (see `list_bodies_spec`).
pub fn list_bodies(
    entries: &Vec<BodyEntry>,
    glob: Option<&str>,
    min_loc: Option<usize>,
    max_loc: Option<usize>,
    sort: &str,
    cursor: usize,
    limit: Option<usize>,
) -> (r: Result<String, String>)
    ensures
        match list_bodies_spec(
            entries_view(entries@),
            match glob {
                Some(g) => Some(g@),
                None => None,
            },
            match min_loc {
                Some(m) => Some(m as nat),
                None => None,
            },
            match max_loc {
                Some(m) => Some(m as nat),
                None => None,
            },
            sort@,
            cursor as nat,
            match limit {
                Some(l) => Some(l as nat),
                None => None,
            },
        ) {
            Ok(t) => r matches Ok(x) && x@ == t,
            Err(t) => r matches Err(x) && x@ == t,
        },
{
    let ghost gv: Option<Seq<char>> = match glob {
        Some(g) => Some(g@),
        None => None,
    };
    let ghost mn: Option<nat> = match min_loc {
        Some(m) => Some(m as nat),
        None => None,
    };
    let ghost mx: Option<nat> = match max_loc {
        Some(m) => Some(m as nat),
        None => None,
    };
    let ghost lim: Option<nat> = match limit {
        Some(l) => Some(l as nat),
        None => None,
    };
    match glob {
        Some(g) => match glob_problem(g) {
            Some(e) => {
                let mut v: Vec<char> = Vec::new();
                push_str_chars(&mut v, "invalid glob: ");
                push_str_chars(&mut v, e.as_str());
                return Err(string_of(v.as_slice()));
            },
            None => {},
        },
        None => {},
    }
    let mode = sort_mode(sort);
    let with_loc = needs_loc(min_loc, max_loc, sort);
    let kept = select_entries(entries, glob, min_loc, max_loc, mode);
    render_page(&kept, with_loc, cursor, limit)
}

#[verifier::rlimit(40)]
fn render_page(kept: &Vec<&BodyEntry>, with_loc: bool, cursor: usize, limit: Option<usize>) -> (r: Result<String, String>)
    ensures
        match listing_page(kept@.map_values(|e: &BodyEntry| entry_view(*e)), with_loc, cursor as nat, match limit {
            Some(l) => Some(l as nat),
            None => None,
        }) {
            Ok(t) => r matches Ok(x) && x@ == t,
            Err(t) => r matches Err(x) && x@ == t,
        },
{
    let ghost kv = kept@.map_values(|e: &BodyEntry| entry_view(*e));
    let total = kept.len();
    let from: usize = if cursor <= total {
        cursor
    } else {
        total
    };
    let end: usize = match limit {
        Some(l) => if l <= total - from {
            from + l
        } else {
            total
        },
        None => total,
    };
    let mut out: Vec<char> = Vec::new();
    if end <= from {
        push_str_chars(&mut out, "no .md (total=");
        push_dec(&mut out, total);
        push_str_chars(&mut out, ", cursor=");
        push_dec(&mut out, cursor);
        push_str_chars(&mut out, ")");
        return Ok(string_of(out.as_slice()));
    }
    let ghost lines_v = entry_lines(kv.subrange(from as int, end as int), with_loc);
    let mut k: usize = from;
    while k < end
        invariant
            from <= k <= end <= kept@.len(),
            kv == kept@.map_values(|e: &BodyEntry| entry_view(*e)),
            lines_v == entry_lines(kv.subrange(from as int, end as int), with_loc),
            out@ == join_with(lines_v.subrange(0, k - from), seq!['\n']),
        decreases end - k,
    {
        let ghost t = lines_v.subrange(0, k - from + 1);
        assert(t.drop_last() =~= lines_v.subrange(0, k - from));
        if k > from {
            out.push('\n');
        } else {
            assert(out@ =~= Seq::<char>::empty());
        }
        let ghost before = out@;
        let e = kept[k];
        push_padded_dec(&mut out, e.size as u128, 8);
        push_str_chars(&mut out, "  ");
        if with_loc {
            push_padded_dec(&mut out, e.loc as u128, 6);
            push_str_chars(&mut out, " loc  ");
        }
        push_str_chars(&mut out, e.stem.as_str());
        assert(kv[k as int] == entry_view(*e));
        assert(t.last() == entry_line(kv[k as int], with_loc));
        assert(out@ =~= before + entry_line(kv[k as int], with_loc));
        if k == from {
            assert(t.len() == 1);
        }
        k = k + 1;
    }
    assert(lines_v.subrange(0, end - from) =~= lines_v);
    let shown = end - from;
    let ghost body = out@;
    push_str_chars(&mut out, "\n-- ");
    push_dec(&mut out, shown);
    push_str_chars(&mut out, "/");
    push_dec(&mut out, total);
    if cursor < total && shown < total - cursor {
        push_str_chars(&mut out, " (next cursor: ");
        push_dec(&mut out, cursor + shown);
        push_str_chars(&mut out, ")");
    }
    let ghost next = cursor as nat + shown as nat;
    assert(out@ =~= body + if next < total {
        "\n-- "@ + dec(shown as nat) + "/"@ + dec(total as nat) + " (next cursor: "@ + dec(next) + ")"@
    } else {
        "\n-- "@ + dec(shown as nat) + "/"@ + dec(total as nat)
    });
    Ok(string_of(out.as_slice()))
}

/// The lines of an opened source's bodies, each `<loc> loc  <name>` with a
/// warning mark when over `max_loc`.
pub open spec fn open_lines(es: Seq<(nat, nat, nat, Seq<char>)>, max_loc: nat) -> Seq<char>
    decreases es.len(),
{
    if es.len() == 0 {
        seq![]
    } else {
        let e = es.last();
        open_lines(es.drop_last(), max_loc) + pad_left(dec(e.1), 6) + " loc  "@ + e.3 + (if e.1 > max_loc {
            " ⚠"@
        } else {
            seq![]
        }) + seq!['\n']
    }
}

/// What opening a source reports: its structure file and body directory,
/// then its bodies largest first.
pub open spec fn open_report_spec(sp: Seq<char>, bd: Seq<char>, es: Seq<(nat, nat, nat, Seq<char>)>, max_loc: nat) -> Seq<
    char,
> {
    if es.len() == 0 {
        "structure: "@ + sp + " (no fns)"@
    } else {
        trim_end(
            "structure: "@ + sp + "\nbodies:    "@ + bd + seq!['\n'] + open_lines(sort_entries(es, 3), max_loc),
        )
    }
}

/// The report on an opened source (see `open_report_spec`): `sp` is its
/// structure file, `bd` its body directory, `entries` its body files.
pub fn open_report(sp: &str, bd: &str, entries: &Vec<BodyEntry>, max_loc: usize) -> (r: String)
    ensures
        r@ == open_report_spec(sp@, bd@, entries_view(entries@), max_loc as nat),
{
    let mut out: Vec<char> = Vec::new();
    push_str_chars(&mut out, "structure: ");
    push_str_chars(&mut out, sp);
    if entries.len() == 0 {
        push_str_chars(&mut out, " (no fns)");
        return string_of(out.as_slice());
    }
    let kept = select_entries(entries, None, None, None, 3);
    proof {
        lemma_keep_all(entries_view(entries@));
    }
    push_str_chars(&mut out, "\nbodies:    ");
    push_str_chars(&mut out, bd);
    out.push('\n');
    let ghost kv = kept@.map_values(|e: &BodyEntry| entry_view(*e));
    let ghost base = out@;
    let mut i: usize = 0;
    while i < kept.len()
        invariant
            i <= kept@.len(),
            kv == kept@.map_values(|e: &BodyEntry| entry_view(*e)),
            out@ == base + open_lines(kv.subrange(0, i as int), max_loc as nat),
        decreases kept@.len() - i,
    {
        let ghost t = kv.subrange(0, i + 1);
        assert(t.drop_last() =~= kv.subrange(0, i as int));
        assert(t.last() == entry_view(*kept@[i as int]));
        let e = kept[i];
        push_padded_dec(&mut out, e.loc as u128, 6);
        push_str_chars(&mut out, " loc  ");
        push_str_chars(&mut out, e.stem.as_str());
        if e.loc > max_loc {
            push_str_chars(&mut out, " ⚠");
        }
        out.push('\n');
        assert(out@ =~= base + open_lines(t, max_loc as nat));
        i = i + 1;
    }
    assert(kv.subrange(0, kept@.len() as int) =~= kv);
    assert(kv == sort_entries(entries_view(entries@), 3));
    assert(out@ =~= "structure: "@ + sp@ + "\nbodies:    "@ + bd@ + seq!['\n'] + open_lines(kv, max_loc as nat));
    let t = trim_end_from(out.as_slice(), 0);
    assert(out@.subrange(0, out@.len() as int) =~= out@);
    string_of(t.as_slice())
}

proof fn lemma_keep_all(s: Seq<(nat, nat, nat, Seq<char>)>)
    ensures
        keep_entries(s, None, None, None) == s,
    decreases s.len(),
{
    if s.len() > 0 {
        lemma_keep_all(s.drop_last());
        assert(s.drop_last().push(s.last()) =~= s);
    }
}

} // verus!
