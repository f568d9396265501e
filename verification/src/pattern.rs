//! Regular-expression matching through the `regex` crate: all
//! non-overlapping matches of a pattern with the byte spans of their
//! capture groups; and escaping of literal text, written here.

use vstd::prelude::*;
use vstd::string::StringSliceAdditionalSpecFns;

verus! {

/// Byte span of a capture group.
pub type Span = (usize, usize);

/// What `Regex::new(pattern)` followed by `captures_iter(text)` yields:
/// `None` for a pattern that does not compile, else for each successive
/// match the spans of its groups (group 0 is the whole match).
pub uninterp spec fn regex_captures(pattern: Seq<char>, text: Seq<char>) -> Option<
    Seq<Seq<Option<(int, int)>>>,
>;

/// The characters that have a meaning in a regular expression.
pub open spec fn regex_meta(c: char) -> bool {
    c == '\\' || c == '.' || c == '+' || c == '*' || c == '?' || c == '(' || c == ')' || c == '|' || c == '['
        || c == ']' || c == '{' || c == '}' || c == '^' || c == '$' || c == '#' || c == '&' || c == '-' || c == '~'
}

/// A text escaped for use as a literal in a pattern: a backslash before
/// each meta character.
pub open spec fn regex_escaped(text: Seq<char>) -> Seq<char>
    decreases text.len(),
{
    if text.len() == 0 {
        seq![]
    } else {
        let c = text.last();
        regex_escaped(text.drop_last()) + if regex_meta(c) {
            seq!['\\', c]
        } else {
            seq![c]
        }
    }
}

pub open spec fn span_view(s: Option<Span>) -> Option<(int, int)> {
    match s {
        Some((a, b)) => Some((a as int, b as int)),
        None => None,
    }
}

pub open spec fn groups_view(g: Vec<Option<Span>>) -> Seq<Option<(int, int)>> {
    g@.map_values(|s: Option<Span>| span_view(s))
}

pub open spec fn matches_view(v: Seq<Vec<Option<Span>>>) -> Seq<Seq<Option<(int, int)>>> {
    v.map_values(|g: Vec<Option<Span>>| groups_view(g))
}

/// The matches are well formed: each has its whole-match span, every span
/// lies within the text, and successive matches do not overlap.
#[verifier::opaque]
pub open spec fn matches_wf(v: Seq<Vec<Option<Span>>>, len: int) -> bool {
    &&& forall|k: int| 0 <= k < v.len() ==> (#[trigger] v[k])@.len() > 0 && v[k]@[0] is Some
    &&& forall|k: int, j: int|
        0 <= k < v.len() && 0 <= j < v[k]@.len() ==> (#[trigger] v[k]@[j] matches Some((a, b)) ==> a
            <= b <= len)
    &&& forall|a: int, b: int|
        0 <= a < b < v.len() ==> ((#[trigger] v[a]@[0])->0).1 <= ((#[trigger] v[b]@[0])->0).0
}

/// What well-formed matches give at match `k`.
pub proof fn lemma_match_at(v: Seq<Vec<Option<Span>>>, len: int, k: int)
    requires
        matches_wf(v, len),
        0 <= k < v.len(),
    ensures
        v[k]@.len() > 0,
        v[k]@[0] is Some,
        forall|j: int|
            0 <= j < v[k]@.len() ==> (#[trigger] v[k]@[j] matches Some((a, b)) ==> a <= b <= len),
        k > 0 ==> ((v[k - 1]@[0])->0).1 <= ((v[k]@[0])->0).0,
{
    reveal(matches_wf);
    assert forall|j: int| 0 <= j < v[k]@.len() implies (#[trigger] v[k]@[j] matches Some((a, b)) ==> a
        <= b <= len) by {
        assert(v[k]@[j] == v[k]@[j]);
    }
    if k > 0 {
        assert(((v[k - 1]@[0])->0).1 <= ((v[k]@[0])->0).0);
    }
}

/// `Regex::new` and `Regex::captures_iter`: every non-overlapping match of
/// `pattern` in `text`, with the byte spans of its capture groups. Stated:
/// the result is named by the pattern and the text; each match carries its
/// whole-match span, spans lie within the text, and matches come in order
/// without overlapping. `None` when the pattern does not compile.
#[verifier::external_body]
pub fn captures_all(pattern: &str, text: &str) -> (r: Option<Vec<Vec<Option<Span>>>>)
    ensures
        match r {
            Some(v) => regex_captures(pattern@, text@) == Some(matches_view(v@)),
            None => regex_captures(pattern@, text@) is None,
        },
        r matches Some(v) ==> matches_wf(v@, text.spec_bytes().len() as int),
{
    let re = match regex::Regex::new(pattern) {
        Ok(re) => re,
        Err(_) => return None,
    };
    Some(
        re.captures_iter(text).map(|c| c.iter().map(|m| m.map(|m| (m.start(), m.end()))).collect()).collect(),
    )
}

/// `text` with every regex meta character escaped (see `regex_escaped`), so
/// that a pattern made of it matches the text literally, as
/// `regex::escape` writes it.
pub fn escape(text: &str) -> (r: String)
    ensures
        r@ == regex_escaped(text@),
{
    let cs = crate::text::chars_of(text);
    let mut out: Vec<char> = Vec::new();
    let mut i: usize = 0;
    while i < cs.len()
        invariant
            i <= cs@.len(),
            cs@ == text@,
            out@ == regex_escaped(cs@.subrange(0, i as int)),
        decreases cs@.len() - i,
    {
        let c = cs[i];
        let ghost t = cs@.subrange(0, i + 1);
        assert(t.drop_last() =~= cs@.subrange(0, i as int));
        assert(t.last() == c);
        if c == '\\' || c == '.' || c == '+' || c == '*' || c == '?' || c == '(' || c == ')' || c == '|' || c == '['
            || c == ']' || c == '{' || c == '}' || c == '^' || c == '$' || c == '#' || c == '&' || c == '-' || c
            == '~' {
            out.push('\\');
        }
        out.push(c);
        assert(out@ =~= regex_escaped(t));
        i = i + 1;
    }
    assert(cs@.subrange(0, cs@.len() as int) =~= cs@);
    crate::text::string_of(out.as_slice())
}

/// The text of the error that `Regex::new(pattern)` reports.
pub uninterp spec fn regex_error_text(pattern: Seq<char>) -> Seq<char>;

/// `Regex::new`, for its outcome: `Some` with the error's text when the
/// pattern does not compile, else `None`. Stated: the text is named by the
/// pattern, and the outcome agrees with `captures_all`, which is refused
/// for exactly the patterns that do not compile, whatever the text.
#[verifier::external_body]
pub fn regex_problem(pattern: &str) -> (r: Option<String>)
    ensures
        match r {
            Some(e) => e@ == regex_error_text(pattern@) && forall|t: Seq<char>|
                #[trigger] regex_captures(pattern@, t) is None,
            None => forall|t: Seq<char>| #[trigger] regex_captures(pattern@, t) is Some,
        },
{
    match regex::Regex::new(pattern) {
        Ok(_) => None,
        Err(e) => Some(e.to_string()),
    }
}

/// `Regex::new` then `Regex::is_match`: whether `pattern` matches anywhere
/// in `text`; `false` for a pattern that does not compile. Stated: true
/// exactly when `captures_all` finds at least one match, which is what the
/// crate documents for `is_match`.
#[verifier::external_body]
pub fn is_match(pattern: &str, text: &str) -> (r: bool)
    ensures
        r == (regex_captures(pattern@, text@) matches Some(c) && c.len() > 0),
{
    match regex::Regex::new(pattern) {
        Ok(re) => re.is_match(text),
        Err(_) => false,
    }
}

/// Whole-match spans of `pattern` in `text` (none when it does not
/// compile).
pub open spec fn match_spans(pattern: Seq<char>, text: Seq<char>) -> Seq<(int, int)> {
    match regex_captures(pattern, text) {
        Some(c) => c.map_values(|g: Seq<Option<(int, int)>>| g[0]->0),
        None => seq![],
    }
}

/// Whole-match spans of `pattern` in `text`.
pub fn find_spans(pattern: &str, text: &str) -> (r: Vec<Span>)
    ensures
        r@.map_values(|s: Span| (s.0 as int, s.1 as int)) == match_spans(pattern@, text@),
        forall|k: int| 0 <= k < r@.len() ==> (#[trigger] r@[k]).0 <= r@[k].1 <= text.spec_bytes().len(),
{
    match captures_all(pattern, text) {
        None => {
            let v: Vec<Span> = Vec::new();
            assert(v@.map_values(|s: Span| (s.0 as int, s.1 as int)) =~= Seq::<(int, int)>::empty());
            v
        },
        Some(caps) => {
            let ghost cv = matches_view(caps@);
            let mut out: Vec<Span> = Vec::new();
            let mut k: usize = 0;
            while k < caps.len()
                invariant
                    k <= caps@.len(),
                    cv == matches_view(caps@),
                    matches_wf(caps@, text.spec_bytes().len() as int),
                    out@.map_values(|s: Span| (s.0 as int, s.1 as int)) =~= cv.subrange(0, k as int).map_values(
                        |g: Seq<Option<(int, int)>>| g[0]->0,
                    ),
                    forall|j: int| 0 <= j < out@.len() ==> (#[trigger] out@[j]).0 <= out@[j].1 <= text.spec_bytes().len(),
                decreases caps@.len() - k,
            {
                proof {
                    lemma_match_at(caps@, text.spec_bytes().len() as int, k as int);
                }
                let g = &caps[k];
                let s = match g[0] {
                    Some(s) => s,
                    None => (0, 0),
                };
                assert(caps@[k as int]@[0] matches Some((a, b)) ==> a <= b <= text.spec_bytes().len()) by {
                    assert(caps@[k as int]@[0] == caps@[k as int]@[0]);
                }
                assert(cv[k as int] == groups_view(caps@[k as int]));
                assert(cv[k as int][0] == span_view(caps@[k as int]@[0]));
                assert(caps@[k as int]@[0] == Some(s));
                let ghost before = out@.map_values(|s: Span| (s.0 as int, s.1 as int));
                out.push(s);
                proof {
                    let f = |g: Seq<Option<(int, int)>>| g[0]->0;
                    assert(cv.subrange(0, k + 1).map_values(f) =~= cv.subrange(0, k as int).map_values(f).push(
                        (s.0 as int, s.1 as int),
                    ));
                    assert(out@.map_values(|s: Span| (s.0 as int, s.1 as int)) =~= before.push(
                        (s.0 as int, s.1 as int),
                    ));
                }
                k = k + 1;
            }
            assert(cv.subrange(0, caps@.len() as int) =~= cv);
            out
        },
    }
}

/// What `glob::Pattern::new(pattern)` reports: `None` when the pattern
/// compiles, else the text of its error.
pub uninterp spec fn glob_new_error(pattern: Seq<char>) -> Option<Seq<char>>;

/// What `glob::Pattern::matches` answers for a pattern that compiles and a
/// text.
pub uninterp spec fn glob_match(pattern: Seq<char>, text: Seq<char>) -> bool;

/// `glob::Pattern::new`, for its outcome: `None` when the pattern compiles,
/// else the text of its `PatternError`. Stated: the outcome is named by the
/// pattern.
#[verifier::external_body]
pub fn glob_problem(pattern: &str) -> (r: Option<String>)
    ensures
        match r {
            Some(e) => glob_new_error(pattern@) == Some(e@),
            None => glob_new_error(pattern@) is None,
        },
{
    match glob::Pattern::new(pattern) {
        Ok(_) => None,
        Err(e) => Some(e.to_string()),
    }
}

/// `glob::Pattern::new(pattern)` then `Pattern::matches(text)`, for a
/// pattern that compiles. Stated: the answer is named by the pattern and
/// the text.
#[verifier::external_body]
pub fn glob_matches(pattern: &str, text: &str) -> (r: bool)
    requires
        glob_new_error(pattern@) is None,
    ensures
        r == glob_match(pattern@, text@),
{
    match glob::Pattern::new(pattern) {
        Ok(p) => p.matches(text),
        Err(_) => false,
    }
}

} // verus!
