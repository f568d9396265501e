//! Tunables of the learn passes: the question templates that are rejected
//! and the per-purpose cap on open questions.

use vstd::prelude::*;
use crate::pattern::{captures_all, regex_captures};
use crate::text::{
    char_range, chars_of, find_chars, find_sub, has_prefix, lines, lines_of, push_chars, push_str_chars,
    starts_with_chars, string_of, trim, trim_char, trim_char_chars, trim_chars, trim_str,
};
use crate::slashpath::{join, path_join};

verus! {

/// Default cap on open questions per purpose.
pub const DEFAULT_OPEN_QUESTIONS_PER_PURPOSE_CAP: usize = 25;

/// The default template-question patterns (full-line, case-insensitive).
pub fn default_template_question_regexes() -> (r: Vec<&'static str>)
    ensures
        r@.len() == 4,
        r@[0]@ == "(?i)^how does .{0,80} relate to or differ from similar concepts\\??$"@,
        r@[1]@ == "(?i)^what are the key characteristics of .{0,80}\\??$"@,
        r@[2]@ == "(?i)^what are the implications of .{0,80}\\??$"@,
        r@[3]@ == "(?i)^what is the (importance|significance|purpose) of .{0,80}\\??$"@,
{
    vec![
        "(?i)^how does .{0,80} relate to or differ from similar concepts\\??$",
        "(?i)^what are the key characteristics of .{0,80}\\??$",
        "(?i)^what are the implications of .{0,80}\\??$",
        "(?i)^what is the (importance|significance|purpose) of .{0,80}\\??$",
    ]
}

/// Whether `pattern` compiles and matches somewhere in `text`.
pub open spec fn pattern_matches(pattern: Seq<char>, text: Seq<char>) -> bool {
    regex_captures(pattern, text) matches Some(c) && c.len() > 0
}

/// A title is templated when, trimmed, it matches one of the patterns
/// (patterns that do not compile match nothing).
pub open spec fn is_template_spec(title: Seq<char>, patterns: Seq<Seq<char>>) -> bool {
    exists|i: int| 0 <= i < patterns.len() && pattern_matches(#[trigger] patterns[i], trim(title))
}

pub open spec fn default_patterns() -> Seq<Seq<char>> {
    seq![
        "(?i)^how does .{0,80} relate to or differ from similar concepts\\??$"@,
        "(?i)^what are the key characteristics of .{0,80}\\??$"@,
        "(?i)^what are the implications of .{0,80}\\??$"@,
        "(?i)^what is the (importance|significance|purpose) of .{0,80}\\??$"@,
    ]
}

fn matches_any(title: &str, patterns: &Vec<&str>) -> (r: bool)
    ensures
        r == is_template_spec(title@, patterns@.map_values(|p: &str| p@)),
{
    let ghost pv = patterns@.map_values(|p: &str| p@);
    let t = trim_str(title);
    let mut i: usize = 0;
    while i < patterns.len()
        invariant
            i <= patterns@.len(),
            pv == patterns@.map_values(|p: &str| p@),
            t@ == trim(title@),
            forall|j: int| 0 <= j < i ==> !pattern_matches(#[trigger] pv[j], trim(title@)),
        decreases patterns@.len() - i,
    {
        assert(pv[i as int] == patterns@[i as int]@);
        match captures_all(patterns[i], t.as_str()) {
            Some(c) => {
                if c.len() > 0 {
                    assert(pattern_matches(pv[i as int], trim(title@)));
                    return true;
                }
            },
            None => {},
        }
        i = i + 1;
    }
    false
}

/// Whether `title` matches one of the given template patterns.
pub fn is_template_question_with(title: &str, patterns: &Vec<&str>) -> (r: bool)
    ensures
        r == is_template_spec(title@, patterns@.map_values(|p: &str| p@)),
{
    matches_any(title, patterns)
}

/// Whether `title` matches one of the default template patterns.
pub fn is_template_question(title: &str) -> (r: bool)
    ensures
        r == is_template_spec(title@, default_patterns()),
{
    let pats = default_template_question_regexes();
    assert(pats@.map_values(|p: &str| p@) =~= default_patterns());
    matches_any(title, &pats)
}

/// Pieces of `s` between the `sep` characters.
pub open spec fn split_on(s: Seq<char>, sep: char) -> Seq<Seq<char>>
    decreases s.len(),
{
    if s.len() == 0 {
        seq![seq![]]
    } else {
        let rest = split_on(s.drop_last(), sep);
        if s.last() == sep {
            rest.push(seq![])
        } else {
            rest.update(rest.len() - 1, rest.last().push(s.last()))
        }
    }
}

pub proof fn lemma_split_on_len(s: Seq<char>, sep: char)
    ensures
        split_on(s, sep).len() >= 1,
    decreases s.len(),
{
    if s.len() > 0 {
        lemma_split_on_len(s.drop_last(), sep);
    }
}

/// The non-empty trimmed pieces of `pieces` from `i` on.
pub open spec fn nonempty_trimmed(pieces: Seq<Seq<char>>) -> Seq<Seq<char>>
    decreases pieces.len(),
{
    if pieces.len() == 0 {
        seq![]
    } else {
        nonempty_trimmed(pieces.drop_last()) + if trim(pieces.last()).len() > 0 {
            seq![trim(pieces.last())]
        } else {
            seq![]
        }
    }
}

/// Template patterns configured by a `;`-separated list: its non-empty
/// trimmed entries, or the defaults when the list is absent or blank.
pub open spec fn configured_patterns_spec(raw: Option<Seq<char>>) -> Seq<Seq<char>> {
    match raw {
        Some(s) => if trim(s).len() > 0 {
            nonempty_trimmed(split_on(s, ';'))
        } else {
            default_patterns()
        },
        None => default_patterns(),
    }
}

/// The template patterns to use given the configured list, if any.
pub fn configured_template_patterns(raw: Option<&str>) -> (r: Vec<String>)
    ensures
        r@.map_values(|p: String| p@) == configured_patterns_spec(
            match raw {
                Some(s) => Some(s@),
                None => None,
            },
        ),
{
    let use_defaults = match raw {
        Some(s) => trim_str(s).as_str().is_empty(),
        None => true,
    };
    if use_defaults {
        let d = default_template_question_regexes();
        let mut out: Vec<String> = Vec::new();
        out.push(d[0].to_owned());
        out.push(d[1].to_owned());
        out.push(d[2].to_owned());
        out.push(d[3].to_owned());
        assert(out@.map_values(|p: String| p@) =~= default_patterns());
        return out;
    }
    let s = match raw {
        Some(s) => s,
        None => "",
    };
    let cs = chars_of(s);
    proof {
        lemma_split_on_len(Seq::<char>::empty(), ';');
        assert(cs@.subrange(0, 0) =~= Seq::<char>::empty());
    }
    let mut out: Vec<String> = Vec::new();
    let mut start: usize = 0;
    let mut i: usize = 0;
    while i < cs.len()
        invariant
            start <= i <= cs@.len(),
            cs@ == s@,
            split_on(cs@.subrange(0, i as int), ';').last() == cs@.subrange(start as int, i as int),
            out@.map_values(|p: String| p@) == nonempty_trimmed(
                split_on(cs@.subrange(0, i as int), ';').drop_last(),
            ),
        decreases cs@.len() - i,
    {
        let ghost sp = split_on(cs@.subrange(0, i as int), ';');
        let ghost sp2 = split_on(cs@.subrange(0, i + 1), ';');
        proof {
            lemma_split_on_len(cs@.subrange(0, i as int), ';');
            assert(cs@.subrange(0, i + 1).drop_last() =~= cs@.subrange(0, i as int));
            assert(sp.drop_last().push(sp.last()) =~= sp);
        }
        if cs[i] == ';' {
            let piece = char_range(cs.as_slice(), start, i);
            let t = trim_chars(piece.as_slice());
            let ghost before = out@.map_values(|p: String| p@);
            if t.len() > 0 {
                out.push(string_of(t.as_slice()));
                assert(out@.map_values(|p: String| p@) =~= before.push(t@));
            } else {
                assert(out@.map_values(|p: String| p@) =~= before + Seq::<Seq<char>>::empty());
            }
            proof {
                assert(sp2 =~= sp.push(seq![]));
                assert(sp2.drop_last() =~= sp);
                assert(cs@.subrange(i + 1, i + 1) =~= Seq::<char>::empty());
            }
            start = i + 1;
        } else {
            proof {
                assert(sp2 =~= sp.update(sp.len() - 1, sp.last().push(cs@[i as int])));
                assert(sp2.drop_last() =~= sp.drop_last());
                assert(cs@.subrange(start as int, i + 1) =~= cs@.subrange(start as int, i as int).push(
                    cs@[i as int],
                ));
            }
        }
        i = i + 1;
    }
    let piece = char_range(cs.as_slice(), start, cs.len());
    let t = trim_chars(piece.as_slice());
    let ghost before = out@.map_values(|p: String| p@);
    proof {
        assert(cs@.subrange(0, cs@.len() as int) =~= cs@);
        lemma_split_on_len(cs@, ';');
        let sp = split_on(cs@, ';');
        assert(sp.drop_last().push(sp.last()) =~= sp);
    }
    if t.len() > 0 {
        out.push(string_of(t.as_slice()));
        assert(out@.map_values(|p: String| p@) =~= before.push(t@));
    } else {
        assert(out@.map_values(|p: String| p@) =~= before + Seq::<Seq<char>>::empty());
    }
    out
}

/// The non-empty pieces of `pieces`, in order.
pub open spec fn nonempty_pieces(pieces: Seq<Seq<char>>) -> Seq<Seq<char>>
    decreases pieces.len(),
{
    if pieces.len() == 0 {
        seq![]
    } else {
        nonempty_pieces(pieces.drop_last()) + if pieces.last().len() > 0 {
            seq![pieces.last()]
        } else {
            seq![]
        }
    }
}

/// `s.split(sep)`.
pub fn split_all(s: &str, sep: char) -> (r: Vec<String>)
    ensures
        r@.map_values(|p: String| p@) == split_on(s@, sep),
{
    let cs = chars_of(s);
    proof {
        lemma_split_on_len(Seq::<char>::empty(), sep);
        assert(cs@.subrange(0, 0) =~= Seq::<char>::empty());
    }
    let mut out: Vec<String> = Vec::new();
    let mut start: usize = 0;
    let mut i: usize = 0;
    while i < cs.len()
        invariant
            start <= i <= cs@.len(),
            cs@ == s@,
            split_on(cs@.subrange(0, i as int), sep).last() == cs@.subrange(start as int, i as int),
            out@.map_values(|p: String| p@) == split_on(cs@.subrange(0, i as int), sep).drop_last(),
        decreases cs@.len() - i,
    {
        let ghost sp = split_on(cs@.subrange(0, i as int), sep);
        let ghost sp2 = split_on(cs@.subrange(0, i + 1), sep);
        proof {
            lemma_split_on_len(cs@.subrange(0, i as int), sep);
            assert(cs@.subrange(0, i + 1).drop_last() =~= cs@.subrange(0, i as int));
            assert(sp.drop_last().push(sp.last()) =~= sp);
        }
        if cs[i] == sep {
            let piece = char_range(cs.as_slice(), start, i);
            let ghost before = out@.map_values(|p: String| p@);
            out.push(string_of(piece.as_slice()));
            assert(out@.map_values(|p: String| p@) =~= before.push(piece@));
            proof {
                assert(sp2 =~= sp.push(seq![]));
                assert(sp2.drop_last() =~= sp);
                assert(cs@.subrange(i + 1, i + 1) =~= Seq::<char>::empty());
            }
            start = i + 1;
        } else {
            proof {
                assert(sp2 =~= sp.update(sp.len() - 1, sp.last().push(cs@[i as int])));
                assert(sp2.drop_last() =~= sp.drop_last());
                assert(cs@.subrange(start as int, i + 1) =~= cs@.subrange(start as int, i as int).push(
                    cs@[i as int],
                ));
            }
        }
        i = i + 1;
    }
    let piece = char_range(cs.as_slice(), start, cs.len());
    let ghost before = out@.map_values(|p: String| p@);
    proof {
        assert(cs@.subrange(0, cs@.len() as int) =~= cs@);
        lemma_split_on_len(cs@, sep);
        let sp = split_on(cs@, sep);
        assert(sp.drop_last().push(sp.last()) =~= sp);
    }
    out.push(string_of(piece.as_slice()));
    assert(out@.map_values(|p: String| p@) =~= before.push(piece@));
    out
}

/// `s.split(sep).filter(|p| !p.is_empty())`.
pub fn split_nonempty(s: &str, sep: char) -> (r: Vec<String>)
    ensures
        r@.map_values(|p: String| p@) == nonempty_pieces(split_on(s@, sep)),
{
    let cs = chars_of(s);
    proof {
        lemma_split_on_len(Seq::<char>::empty(), sep);
        assert(cs@.subrange(0, 0) =~= Seq::<char>::empty());
    }
    let mut out: Vec<String> = Vec::new();
    let mut start: usize = 0;
    let mut i: usize = 0;
    while i < cs.len()
        invariant
            start <= i <= cs@.len(),
            cs@ == s@,
            split_on(cs@.subrange(0, i as int), sep).last() == cs@.subrange(start as int, i as int),
            out@.map_values(|p: String| p@) == nonempty_pieces(split_on(cs@.subrange(0, i as int), sep).drop_last()),
        decreases cs@.len() - i,
    {
        let ghost sp = split_on(cs@.subrange(0, i as int), sep);
        let ghost sp2 = split_on(cs@.subrange(0, i + 1), sep);
        proof {
            lemma_split_on_len(cs@.subrange(0, i as int), sep);
            assert(cs@.subrange(0, i + 1).drop_last() =~= cs@.subrange(0, i as int));
            assert(sp.drop_last().push(sp.last()) =~= sp);
        }
        if cs[i] == sep {
            let piece = char_range(cs.as_slice(), start, i);
            let ghost before = out@.map_values(|p: String| p@);
            if piece.len() > 0 {
                out.push(string_of(piece.as_slice()));
                assert(out@.map_values(|p: String| p@) =~= before.push(piece@));
            } else {
                assert(out@.map_values(|p: String| p@) =~= before + Seq::<Seq<char>>::empty());
            }
            proof {
                assert(sp2 =~= sp.push(seq![]));
                assert(sp2.drop_last() =~= sp);
                assert(cs@.subrange(i + 1, i + 1) =~= Seq::<char>::empty());
            }
            start = i + 1;
        } else {
            proof {
                assert(sp2 =~= sp.update(sp.len() - 1, sp.last().push(cs@[i as int])));
                assert(sp2.drop_last() =~= sp.drop_last());
                assert(cs@.subrange(start as int, i + 1) =~= cs@.subrange(start as int, i as int).push(
                    cs@[i as int],
                ));
            }
        }
        i = i + 1;
    }
    let piece = char_range(cs.as_slice(), start, cs.len());
    let ghost before = out@.map_values(|p: String| p@);
    proof {
        assert(cs@.subrange(0, cs@.len() as int) =~= cs@);
        lemma_split_on_len(cs@, sep);
        let sp = split_on(cs@, sep);
        assert(sp.drop_last().push(sp.last()) =~= sp);
    }
    if piece.len() > 0 {
        out.push(string_of(piece.as_slice()));
        assert(out@.map_values(|p: String| p@) =~= before.push(piece@));
    } else {
        assert(out@.map_values(|p: String| p@) =~= before + Seq::<Seq<char>>::empty());
    }
    out
}

/// The value a `.env` line gives `key`: the line trimmed must start with
/// `key=`; the rest, trimmed and stripped of surrounding `"` and then `'`,
/// must not be empty.
pub open spec fn dotenv_line_value(line: Seq<char>, key: Seq<char>) -> Option<Seq<char>> {
    let l = trim(line);
    let p = key + seq!['='];
    if has_prefix(l, p) {
        let v = trim_char(trim_char(trim(l.subrange(p.len() as int, l.len() as int)), '"'), '\'');
        if v.len() > 0 {
            Some(v)
        } else {
            None
        }
    } else {
        None
    }
}

/// The first value that lines `i..` give `key`.
pub open spec fn dotenv_from(ls: Seq<Seq<char>>, key: Seq<char>, i: nat) -> Option<Seq<char>>
    decreases ls.len() - i,
{
    if i >= ls.len() {
        None
    } else {
        match dotenv_line_value(ls[i as int], key) {
            Some(v) => Some(v),
            None => dotenv_from(ls, key, i + 1),
        }
    }
}

/// The value of `key` in the text of a `.env` file: the first line that
/// gives it one (see `dotenv_line_value`).
pub fn dotenv_value(text: &str, key: &str) -> (r: Option<String>)
    ensures
        match r {
            Some(v) => dotenv_from(lines(text@), key@, 0) == Some(v@),
            None => dotenv_from(lines(text@), key@, 0) is None,
        },
{
    let cs = chars_of(text);
    let ls = lines_of(cs.as_slice());
    let ghost lv = ls@.map_values(|l: Vec<char>| l@);
    assert(lv == lines(text@));
    let mut p: Vec<char> = chars_of(key);
    p.push('=');
    let mut i: usize = 0;
    while i < ls.len()
        invariant
            i <= ls@.len(),
            lv == ls@.map_values(|l: Vec<char>| l@),
            lv == lines(text@),
            p@ == key@ + seq!['='],
            dotenv_from(lv, key@, 0) == dotenv_from(lv, key@, i as nat),
        decreases ls@.len() - i,
    {
        assert(lv[i as int] == ls@[i as int]@);
        let l = trim_chars(ls[i].as_slice());
        if starts_with_chars(l.as_slice(), p.as_slice()) {
            let rest = char_range(l.as_slice(), p.len(), l.len());
            let v0 = trim_chars(rest.as_slice());
            let v1 = trim_char_chars(v0.as_slice(), '"');
            let v2 = trim_char_chars(v1.as_slice(), '\'');
            if v2.len() > 0 {
                proof {
                    assert(l@ == trim(lv[i as int]));
                    assert(p@.len() == key@.len() + 1);
                    assert(dotenv_line_value(lv[i as int], key@) == Some(v2@));
                }
                return Some(string_of(v2.as_slice()));
            }
        }
        i = i + 1;
    }
    None
}

/// `s` with every occurrence of `pat` (non-empty), scanned left to right
/// without overlap, replaced by `rep`.
pub open spec fn replace_all(s: Seq<char>, pat: Seq<char>, rep: Seq<char>) -> Seq<char>
    decreases s.len(),
{
    let k = find_sub(s, pat);
    if pat.len() == 0 || k < 0 {
        s
    } else {
        proof {
            crate::text::lemma_find_from(s, pat, 0);
        }
        s.subrange(0, k) + rep + replace_all(s.subrange(k + pat.len(), s.len() as int), pat, rep)
    }
}

/// `str::replace` for a non-empty pattern.
pub fn replace_str(s: &str, pat: &str, rep: &str) -> (r: String)
    requires
        pat@.len() > 0,
    ensures
        r@ == replace_all(s@, pat@, rep@),
{
    let pc = chars_of(pat);
    let rc = chars_of(rep);
    let mut rest = chars_of(s);
    let mut out: Vec<char> = Vec::new();
    loop
        invariant
            pc@ == pat@,
            rc@ == rep@,
            pat@.len() > 0,
            out@ + replace_all(rest@, pat@, rep@) == replace_all(s@, pat@, rep@),
        decreases rest@.len(),
    {
        match find_chars(rest.as_slice(), pc.as_slice()) {
            None => {
                push_chars(&mut out, rest.as_slice());
                return string_of(out.as_slice());
            },
            Some(k) => {
                let ghost r0 = rest@;
                let ghost out0 = out@;
                let plen = pc.len();
                let rl = rest.len();
                assert(k + plen <= rl);
                let start = k + plen;
                push_chars(&mut out, char_range(rest.as_slice(), 0, k).as_slice());
                push_chars(&mut out, rc.as_slice());
                let next = char_range(rest.as_slice(), start, rest.len());
                proof {
                    assert(replace_all(r0, pat@, rep@) == r0.subrange(0, k as int) + rep@ + replace_all(
                        next@,
                        pat@,
                        rep@,
                    ));
                    assert(out@ + replace_all(next@, pat@, rep@) =~= out0 + replace_all(r0, pat@, rep@));
                }
                rest = next;
            },
        }
    }
}

/// Whether `s` contains `${`.
pub open spec fn has_placeholder(s: Seq<char>) -> bool {
    find_sub(s, seq!['$', '{']) >= 0
}

/// `s` with `${KEY}` replaced by each variable's value, in order.
pub open spec fn expand_vars(s: Seq<char>, vars: Seq<(Seq<char>, Seq<char>)>) -> Seq<char>
    decreases vars.len(),
{
    if vars.len() == 0 {
        s
    } else {
        replace_all(
            expand_vars(s, vars.drop_last()),
            seq!['$', '{'] + vars.last().0 + seq!['}'],
            vars.last().1,
        )
    }
}

/// The vault directory: the configured path (`.wiki` when none) with
/// `${VAR}` placeholders expanded from `vars`, falling back to `.wiki` when
/// one is left; a relative path is taken inside `cwd` when known.
pub open spec fn wiki_root_spec(raw: Option<Seq<char>>, vars: Seq<(Seq<char>, Seq<char>)>, cwd: Option<Seq<char>>) -> Seq<
    char,
> {
    let r = match raw {
        Some(x) => x,
        None => ".wiki"@,
    };
    let e = if has_placeholder(r) {
        let x = expand_vars(r, vars);
        if has_placeholder(x) {
            ".wiki"@
        } else {
            x
        }
    } else {
        r
    };
    if e.len() > 0 && e[0] == '/' {
        e
    } else {
        match cwd {
            Some(c) => join(c, e),
            None => e,
        }
    }
}

pub open spec fn pairs_view(v: Seq<(String, String)>) -> Seq<(Seq<char>, Seq<char>)> {
    v.map_values(|p: (String, String)| (p.0@, p.1@))
}

/// The vault directory (see `wiki_root_spec`).
pub fn wiki_root(raw: Option<&str>, vars: &Vec<(String, String)>, cwd: Option<&str>) -> (r: String)
    ensures
        r@ == wiki_root_spec(
            match raw {
                Some(x) => Some(x@),
                None => None,
            },
            pairs_view(vars@),
            match cwd {
                Some(c) => Some(c@),
                None => None,
            },
        ),
{
    proof {
        reveal_strlit("${");
        reveal_strlit("}");
        assert("${"@ =~= seq!['$', '{']);
    }
    let r: String = match raw {
        Some(x) => string_of(chars_of(x).as_slice()),
        None => string_of(chars_of(".wiki").as_slice()),
    };
    let open = chars_of("${");
    let e: String = if find_chars(chars_of(r.as_str()).as_slice(), open.as_slice()).is_some() {
        let mut x = r.clone();
        let ghost vv = pairs_view(vars@);
        let mut i: usize = 0;
        while i < vars.len()
            invariant
                i <= vars@.len(),
                vv == pairs_view(vars@),
                "${"@ == seq!['$', '{'],
                x@ == expand_vars(r@, vv.subrange(0, i as int)),
            decreases vars@.len() - i,
        {
            let ghost t = vv.subrange(0, i + 1);
            assert(t.drop_last() =~= vv.subrange(0, i as int));
            assert(t.last() == (vars@[i as int].0@, vars@[i as int].1@));
            let mut pv: Vec<char> = chars_of("${");
            push_str_chars(&mut pv, vars[i].0.as_str());
            pv.push('}');
            let pat = string_of(pv.as_slice());
            assert(pat@ =~= seq!['$', '{'] + vars@[i as int].0@ + seq!['}']);
            x = replace_str(x.as_str(), pat.as_str(), vars[i].1.as_str());
            i = i + 1;
        }
        assert(vv.subrange(0, vars@.len() as int) =~= vv);
        if find_chars(chars_of(x.as_str()).as_slice(), open.as_slice()).is_some() {
            string_of(chars_of(".wiki").as_slice())
        } else {
            x
        }
    } else {
        r
    };
    let ec = chars_of(e.as_str());
    if ec.len() > 0 && ec[0] == '/' {
        return e;
    }
    match cwd {
        Some(c) => path_join(c, e.as_str()),
        None => e,
    }
}

pub open spec fn is_digit(c: char) -> bool {
    '0' <= c && c <= '9'
}

/// The number a run of decimal digits spells.
pub open spec fn digits_value(d: Seq<char>) -> nat
    decreases d.len(),
{
    if d.len() == 0 {
        0
    } else {
        10 * digits_value(d.drop_last()) + ((d.last() as u32 - '0' as u32) as nat)
    }
}

/// What `str::parse::<usize>` accepts: an optional `+`, then at least one
/// ASCII digit and nothing else, with a value that fits.
/// The text after an optional leading `+`.
pub open spec fn digit_part(s: Seq<char>) -> Seq<char> {
    if s.len() > 0 && s[0] == '+' {
        s.drop_first()
    } else {
        s
    }
}

pub open spec fn parse_usize_spec(s: Seq<char>) -> Option<nat> {
    let d = digit_part(s);
    if d.len() == 0 || exists|i: int| 0 <= i < d.len() && !is_digit(#[trigger] d[i]) {
        None
    } else if digits_value(d) <= usize::MAX {
        Some(digits_value(d))
    } else {
        None
    }
}

proof fn lemma_digits_mono(d: Seq<char>, j: int)
    requires
        0 <= j <= d.len(),
        forall|i: int| 0 <= i < d.len() ==> is_digit(#[trigger] d[i]),
    ensures
        digits_value(d.subrange(0, j)) <= digits_value(d),
    decreases d.len() - j,
{
    if j < d.len() {
        let e = d.subrange(0, j + 1);
        assert(e.drop_last() =~= d.subrange(0, j));
        lemma_digits_mono(d, j + 1);
    } else {
        assert(d.subrange(0, j) =~= d);
    }
}

pub(crate) proof fn lemma_dec_digits(n: nat)
    ensures
        crate::text::dec(n).len() > 0,
        forall|i: int| 0 <= i < crate::text::dec(n).len() ==> is_digit(#[trigger] crate::text::dec(n)[i]),
        digits_value(crate::text::dec(n)) == n,
    decreases n,
{
    let d = crate::text::dec(n);
    if n < 10 {
        assert(d == seq![crate::text::digit_char(n)]);
        assert(d.drop_last() =~= Seq::<char>::empty());
        assert(crate::text::digit_char(n) as u32 == 48 + n);
        assert(d.last() as u32 - '0' as u32 == n);
        assert(digits_value(d) == 10 * digits_value(d.drop_last()) + ((d.last() as u32 - '0' as u32) as nat));
        assert(digits_value(d.drop_last()) == 0);
    } else {
        let q = n / 10;
        let r = n % 10;
        assert(q < n && r < 10 && n == 10 * q + r) by (nonlinear_arith)
            requires
                n >= 10,
                q == n / 10,
                r == n % 10,
        ;
        lemma_dec_digits(q);
        assert(d == crate::text::dec(q).push(crate::text::digit_char(r)));
        assert(d.drop_last() =~= crate::text::dec(q));
        assert(crate::text::digit_char(r) as u32 == 48 + r);
        assert(d.last() as u32 - '0' as u32 == r);
        assert(digits_value(d) == 10 * digits_value(d.drop_last()) + ((d.last() as u32 - '0' as u32) as nat));
        assert(digits_value(d.drop_last()) == q);
        assert forall|i: int| 0 <= i < d.len() implies is_digit(#[trigger] d[i]) by {
            if i < d.len() - 1 {
                assert(d[i] == crate::text::dec(q)[i]);
            }
        }
    }
}

/// Reading back what `format!("{}", n)` writes gives `n`, for every `n`
/// that fits in a `usize`.
pub proof fn law_parse_reads_decimal(n: nat)
    requires
        n <= usize::MAX,
    ensures
        parse_usize_spec(crate::text::dec(n)) == Some(n),
{
    lemma_dec_digits(n);
    let d = crate::text::dec(n);
    assert(is_digit(d[0]));
    assert(digit_part(d) == d);
}

/// `str::parse::<usize>` (see `parse_usize_spec`).
pub fn parse_usize(s: &str) -> (r: Option<usize>)
    ensures
        match r {
            Some(v) => parse_usize_spec(s@) == Some(v as nat),
            None => parse_usize_spec(s@) is None,
        },
{
    let cs = chars_of(s);
    let start: usize = if cs.len() > 0 && cs[0] == '+' {
        1
    } else {
        0
    };
    let ghost d = digit_part(s@);
    assert(d =~= cs@.subrange(start as int, cs@.len() as int));
    if start >= cs.len() {
        return None;
    }
    let mut v: usize = 0;
    let mut i: usize = start;
    let mut over = false;
    while i < cs.len()
        invariant
            start <= i <= cs@.len(),
            cs@ == s@,
            d == cs@.subrange(start as int, cs@.len() as int),
            d == digit_part(s@),
            forall|k: int| start <= k < i ==> is_digit(#[trigger] cs@[k]),
            !over ==> v as nat == digits_value(cs@.subrange(start as int, i as int)),
            over ==> digits_value(cs@.subrange(start as int, i as int)) > usize::MAX,
        decreases cs@.len() - i,
    {
        let c = cs[i];
        if !('0' <= c && c <= '9') {
            assert(!is_digit(d[i - start]));
            return None;
        }
        let dg = (c as u32 - '0' as u32) as usize;
        let ghost e = cs@.subrange(start as int, i + 1);
        assert(e.drop_last() =~= cs@.subrange(start as int, i as int));
        assert(e.last() == c);
        if over {
            assert(digits_value(e) >= digits_value(e.drop_last())) by (nonlinear_arith)
                requires
                    digits_value(e) == 10 * digits_value(e.drop_last()) + ((c as u32 - '0' as u32) as nat),
            ;
        } else if v > (usize::MAX - dg) / 10 {
            over = true;
            assert(digits_value(e) > usize::MAX) by (nonlinear_arith)
                requires
                    digits_value(e) == 10 * v + dg,
                    v > (usize::MAX - dg) / 10,
                    dg <= 9,
            ;
        } else {
            assert(10 * v + dg <= usize::MAX) by (nonlinear_arith)
                requires
                    v <= (usize::MAX - dg) / 10,
                    dg <= 9,
            ;
            v = 10 * v + dg;
        }
        i = i + 1;
    }
    assert(cs@.subrange(start as int, cs@.len() as int) == d);
    assert forall|k: int| 0 <= k < d.len() implies is_digit(#[trigger] d[k]) by {
        assert(d[k] == cs@[start + k]);
    }
    if over {
        None
    } else {
        proof {
            assert(!(exists|i: int| 0 <= i < d.len() && !is_digit(#[trigger] d[i])));
            assert(v as nat == digits_value(d));
            assert(d.len() > 0);
            assert(digits_value(d) <= usize::MAX);
            assert(parse_usize_spec(s@) == Some(digits_value(d)));
        }
        Some(v)
    }
}

/// A count setting: its configured text when that parses, else `default`.
pub fn count_setting(raw: Option<&str>, default: usize) -> (r: usize)
    ensures
        r == match raw {
            Some(x) => match parse_usize_spec(x@) {
                Some(v) => v,
                None => default as nat,
            },
            None => default as nat,
        },
{
    match raw {
        Some(x) => match parse_usize(x) {
            Some(v) => v,
            None => default,
        },
        None => default,
    }
}

/// The setting that limits the relations kept for a document type, and its
/// default.
pub fn relations_limit_setting(doc_type: &str) -> (r: (&'static str, usize))
    ensures
        doc_type@ == "thoughts"@ ==> r.0@ == "WIKI_RELATIONS_LIMIT_THOUGHTS"@ && r.1 == 5,
        doc_type@ == "questions"@ ==> r.0@ == "WIKI_RELATIONS_LIMIT_QUESTIONS"@ && r.1 == 3,
        doc_type@ == "conclusions"@ ==> r.0@ == "WIKI_RELATIONS_LIMIT_CONCLUSIONS"@ && r.1 == 5,
        doc_type@ == "entities"@ ==> r.0@ == "WIKI_RELATIONS_LIMIT_ENTITIES"@ && r.1 == 10,
        doc_type@ != "thoughts"@ && doc_type@ != "questions"@ && doc_type@ != "conclusions"@ && doc_type@
            != "entities"@ ==> r.0@ == "WIKI_RELATIONS_LIMIT_CODE"@ && r.1 == 5,
{
    proof {
        reveal_strlit("thoughts");
        reveal_strlit("questions");
        reveal_strlit("conclusions");
        reveal_strlit("entities");
        assert("thoughts"@[0] == 't' && "questions"@[0] == 'q' && "conclusions"@[0] == 'c' && "entities"@[0]
            == 'e');
    }
    if crate::text::str_eq(doc_type, "thoughts") {
        ("WIKI_RELATIONS_LIMIT_THOUGHTS", 5)
    } else if crate::text::str_eq(doc_type, "questions") {
        ("WIKI_RELATIONS_LIMIT_QUESTIONS", 3)
    } else if crate::text::str_eq(doc_type, "conclusions") {
        ("WIKI_RELATIONS_LIMIT_CONCLUSIONS", 5)
    } else if crate::text::str_eq(doc_type, "entities") {
        ("WIKI_RELATIONS_LIMIT_ENTITIES", 10)
    } else {
        ("WIKI_RELATIONS_LIMIT_CODE", 5)
    }
}

/// The code index directory: `CODE_INDEX_DIR`, else `SPLIT_INDEX_DIR`,
/// else `.wiki/code`; a relative one is taken inside `cwd` when known.
pub open spec fn index_dir_spec(code: Option<Seq<char>>, split: Option<Seq<char>>, cwd: Option<Seq<char>>) -> Seq<char> {
    let raw = match code {
        Some(c) => c,
        None => match split {
            Some(s) => s,
            None => ".wiki/code"@,
        },
    };
    if raw.len() > 0 && raw[0] == '/' {
        raw
    } else {
        match cwd {
            Some(c) => join(c, raw),
            None => raw,
        }
    }
}

/// The code index directory (see `index_dir_spec`).
pub fn index_dir_from(code: Option<&str>, split: Option<&str>, cwd: Option<&str>) -> (r: String)
    ensures
        r@ == index_dir_spec(
            match code {
                Some(c) => Some(c@),
                None => None,
            },
            match split {
                Some(c) => Some(c@),
                None => None,
            },
            match cwd {
                Some(c) => Some(c@),
                None => None,
            },
        ),
{
    let raw: &str = match code {
        Some(c) => c,
        None => match split {
            Some(s) => s,
            None => ".wiki/code",
        },
    };
    let rc = chars_of(raw);
    if rc.len() > 0 && rc[0] == '/' {
        return string_of(rc.as_slice());
    }
    match cwd {
        Some(c) => path_join(c, raw),
        None => string_of(rc.as_slice()),
    }
}

} // verus!
