//! Retrieval records: contradiction references attached to search hits and
//! the knobs of smart search, plus the parsing of reason titles
//! (`<from> -[<kind>]-> <to>`).

use vstd::prelude::*;
use crate::text::{char_range, chars_of, find_chars, find_sub, push_str_chars, str_eq, string_of, trim, trim_chars};
use crate::unicode::{alphanumeric, is_alphanumeric, lowercase, to_lowercase};
use crate::chunker::{paragraphs_spec, split_paragraphs};

verus! {

/// Direction of a `Contradicts` edge relative to the hit it was found from.
#[derive(Debug, Clone, Copy, PartialEq, Eq, Structural)]
pub enum ContradictionDirection {
    /// The hit is the edge's source: it contradicts the other document.
    FromHit,
    /// The hit is the edge's target: the other document contradicts it.
    ToHit,
}

/// A contradicting document reached from a hit.
#[derive(Debug, Clone)]
pub struct ContradictionRef {
    pub reason_id: String,
    pub other_doc_id: String,
    pub other_doc_type: String,
    pub direction: ContradictionDirection,
}

/// Optional knobs of smart search.
#[derive(Debug, Clone)]
pub struct SmartSearchOpts {
    /// Also return each contradicting document reachable from a hit.
    pub include_contradiction_docs: bool,
}

impl Default for SmartSearchOpts {
    fn default() -> (r: Self)
        ensures
            !r.include_contradiction_docs,
    {
        SmartSearchOpts { include_contradiction_docs: false }
    }
}

/// Title of a reason document.
pub open spec fn reason_title_spec(from: Seq<char>, kind: Seq<char>, to: Seq<char>) -> Seq<char> {
    from + " -["@ + kind + "]-> "@ + to
}

/// Title of the reason `from -[kind]-> to`.
pub fn reason_title(from: &str, kind: &str, to: &str) -> (r: String)
    ensures
        r@ == reason_title_spec(from@, kind@, to@),
{
    let mut v: Vec<char> = Vec::new();
    push_str_chars(&mut v, from);
    push_str_chars(&mut v, " -[");
    push_str_chars(&mut v, kind);
    push_str_chars(&mut v, "]-> ");
    push_str_chars(&mut v, to);
    string_of(v.as_slice())
}

/// Source id of a reason title: the text before ` -[`, trimmed.
pub open spec fn from_id_spec(title: Seq<char>) -> Option<Seq<char>> {
    let e = find_sub(title, " -["@);
    if e < 0 {
        None
    } else {
        Some(trim(title.subrange(0, e)))
    }
}

/// Target id of a reason title: the text after the first `]-> ` up to any
/// next one, trimmed.
pub open spec fn to_id_spec(title: Seq<char>) -> Option<Seq<char>> {
    let s = find_sub(title, "]-> "@);
    if s < 0 {
        None
    } else {
        let rest = title.subrange(s + 4, title.len() as int);
        let e = find_sub(rest, "]-> "@);
        Some(trim(if e < 0 { rest } else { rest.subrange(0, e) }))
    }
}

/// Kind of a reason title: between the first `-[` and the next `]->`.
pub open spec fn kind_spec(title: Seq<char>) -> Option<Seq<char>> {
    let s = find_sub(title, "-["@);
    if s < 0 {
        None
    } else {
        let rest = title.subrange(s + 2, title.len() as int);
        let e = find_sub(rest, "]->"@);
        if e < 0 {
            None
        } else {
            Some(rest.subrange(0, e))
        }
    }
}

/// The source id named in a reason title.
pub fn extract_from_id(title: &str) -> (r: Option<String>)
    ensures
        match r {
            Some(s) => from_id_spec(title@) == Some(s@),
            None => from_id_spec(title@) is None,
        },
{
    let cs = chars_of(title);
    let pat = chars_of(" -[");
    match find_chars(cs.as_slice(), pat.as_slice()) {
        None => None,
        Some(e) => {
            let head = char_range(cs.as_slice(), 0, e);
            let t = trim_chars(head.as_slice());
            Some(string_of(t.as_slice()))
        },
    }
}

/// The target id named in a reason title.
pub fn extract_to_id(title: &str) -> (r: Option<String>)
    ensures
        match r {
            Some(s) => to_id_spec(title@) == Some(s@),
            None => to_id_spec(title@) is None,
        },
{
    let cs = chars_of(title);
    let pat = chars_of("]-> ");
    proof {
        reveal_strlit("]-> ");
    }
    let n = cs.len();
    match find_chars(cs.as_slice(), pat.as_slice()) {
        None => None,
        Some(s) => {
            assert(s + 4 <= n);
            let rest = char_range(cs.as_slice(), s + 4, n);
            let piece = match find_chars(rest.as_slice(), pat.as_slice()) {
                Some(e) => char_range(rest.as_slice(), 0, e),
                None => {
                    let w = char_range(rest.as_slice(), 0, rest.len());
                    assert(rest@.subrange(0, rest@.len() as int) =~= rest@);
                    w
                },
            };
            let t = trim_chars(piece.as_slice());
            Some(string_of(t.as_slice()))
        },
    }
}

/// The kind named in a reason title.
pub fn extract_kind(title: &str) -> (r: Option<String>)
    ensures
        match r {
            Some(s) => kind_spec(title@) == Some(s@),
            None => kind_spec(title@) is None,
        },
{
    let cs = chars_of(title);
    let open = chars_of("-[");
    let close = chars_of("]->");
    proof {
        reveal_strlit("-[");
    }
    let n = cs.len();
    match find_chars(cs.as_slice(), open.as_slice()) {
        None => None,
        Some(s) => {
            assert(s + 2 <= n);
            let rest = char_range(cs.as_slice(), s + 2, n);
            match find_chars(rest.as_slice(), close.as_slice()) {
                None => None,
                Some(e) => {
                    let k = char_range(rest.as_slice(), 0, e);
                    Some(string_of(k.as_slice()))
                },
            }
        },
    }
}

/// How many times `t` occurs in `s` without overlap, scanning left to
/// right (`str::matches(t).count()`; an empty `t` matches at each of the
/// `len + 1` positions).
pub open spec fn count_occ(s: Seq<char>, t: Seq<char>) -> nat
    decreases s.len(),
{
    if t.len() == 0 {
        s.len() + 1
    } else {
        let k = find_sub(s, t);
        if k < 0 {
            0
        } else {
            proof {
                crate::text::lemma_find_from(s, t, 0);
            }
            1 + count_occ(s.subrange(k + t.len(), s.len() as int), t)
        }
    }
}

/// `count_occ`, stopping at the largest `usize`.
pub open spec fn count_sat(s: Seq<char>, t: Seq<char>) -> nat {
    if count_occ(s, t) <= usize::MAX {
        count_occ(s, t)
    } else {
        usize::MAX as nat
    }
}

/// `str::matches(t).count()` (see `count_occ`), saturating.
pub fn count_matches(s: &str, t: &str) -> (r: usize)
    ensures
        r as nat == count_sat(s@, t@),
{
    let tc = chars_of(t);
    let mut rest = chars_of(s);
    if tc.len() == 0 {
        if rest.len() == usize::MAX {
            return usize::MAX;
        }
        return rest.len() + 1;
    }
    let total = rest.len();
    let mut n: usize = 0;
    loop
        invariant
            tc@ == t@,
            t@.len() > 0,
            n + count_occ(rest@, t@) == count_occ(s@, t@),
            n + rest@.len() <= total,
        decreases rest@.len(),
    {
        match find_chars(rest.as_slice(), tc.as_slice()) {
            None => {
                return n;
            },
            Some(k) => {
                let rl = rest.len();
                let tl = tc.len();
                assert(k + tl <= rl);
                let next = char_range(rest.as_slice(), k + tl, rl);
                n = n + 1;
                rest = next;
            },
        }
    }
}

/// `n` added to `m`, stopping at the largest `usize`.
pub open spec fn sat_add(m: nat, n: nat) -> nat {
    if m + n <= usize::MAX {
        m + n
    } else {
        usize::MAX as nat
    }
}

pub fn saturating_add(m: usize, n: usize) -> (r: usize)
    ensures
        r as nat == sat_add(m as nat, n as nat),
{
    if n <= usize::MAX - m {
        m + n
    } else {
        usize::MAX
    }
}

/// Occurrences of the terms in `s`, summed (saturating).
pub open spec fn hits_of(s: Seq<char>, terms: Seq<Seq<char>>) -> nat
    decreases terms.len(),
{
    if terms.len() == 0 {
        0
    } else {
        sat_add(hits_of(s, terms.drop_last()), count_sat(s, terms.last()))
    }
}

pub open spec fn strs(v: Seq<String>) -> Seq<Seq<char>> {
    v.map_values(|x: String| x@)
}

fn total_hits(s: &str, terms: &Vec<String>) -> (r: usize)
    ensures
        r as nat == hits_of(s@, strs(terms@)),
{
    let ghost tv = strs(terms@);
    let mut total: usize = 0;
    let mut i: usize = 0;
    while i < terms.len()
        invariant
            i <= terms@.len(),
            tv == strs(terms@),
            total as nat == hits_of(s@, tv.subrange(0, i as int)),
        decreases terms@.len() - i,
    {
        let ghost t = tv.subrange(0, i + 1);
        assert(t.drop_last() =~= tv.subrange(0, i as int));
        assert(t.last() == terms@[i as int]@);
        total = saturating_add(total, count_matches(s, terms[i].as_str()));
        i = i + 1;
    }
    assert(tv.subrange(0, terms@.len() as int) =~= tv);
    total
}

/// The first `n` characters of `s`.
pub open spec fn take_chars(s: Seq<char>, n: nat) -> Seq<char> {
    if s.len() <= n {
        s
    } else {
        s.subrange(0, n as int)
    }
}

/// `s` cut to its first `n` characters.
pub fn truncate_chars(s: &str, n: usize) -> (r: String)
    ensures
        r@ == take_chars(s@, n as nat),
{
    let cs = chars_of(s);
    if cs.len() <= n {
        string_of(cs.as_slice())
    } else {
        string_of(char_range(cs.as_slice(), 0, n).as_slice())
    }
}

/// The most hits so far and the paragraph that has them: paragraphs of at
/// least 40 bytes count, and a later one wins only with strictly more.
pub open spec fn best_para(ps: Seq<Seq<char>>, terms: Seq<Seq<char>>) -> (nat, Seq<char>)
    decreases ps.len(),
{
    if ps.len() == 0 {
        (0, seq![])
    } else {
        let prev = best_para(ps.drop_last(), terms);
        let p = ps.last();
        let h = hits_of(lowercase(p), terms);
        if vstd::utf8::encode_utf8(p).len() >= 40 && h > prev.0 {
            (h, p)
        } else {
            prev
        }
    }
}

/// A snippet of a document for a query: its paragraph (`\n\n`-separated,
/// trimmed, at least 40 bytes) with the most occurrences of the query
/// terms in its lowercase, else the start of the text; at most 800
/// characters.
pub open spec fn best_snippet_spec(content: Seq<char>, terms: Seq<Seq<char>>) -> Seq<char> {
    if terms.len() == 0 {
        take_chars(content, 800)
    } else {
        let b = best_para(paragraphs_spec(content), terms);
        if b.0 == 0 {
            take_chars(content, 800)
        } else {
            take_chars(b.1, 800)
        }
    }
}

/// A snippet of a document for a query (see `best_snippet_spec`).
pub fn best_snippet(content: &str, terms: &Vec<String>) -> (r: String)
    ensures
        r@ == best_snippet_spec(content@, strs(terms@)),
{
    if terms.len() == 0 {
        return truncate_chars(content, 800);
    }
    let ps = split_paragraphs(content);
    let ghost pv = strs(ps@);
    assert(pv == paragraphs_spec(content@));
    let mut best: usize = 0;
    let mut best_i: usize = 0;
    let mut i: usize = 0;
    while i < ps.len()
        invariant
            i <= ps@.len(),
            pv == strs(ps@),
            best as nat == best_para(pv.subrange(0, i as int), strs(terms@)).0,
            best > 0 ==> best_i < i && best_para(pv.subrange(0, i as int), strs(terms@)).1 == pv[best_i as int],
        decreases ps@.len() - i,
    {
        let ghost t = pv.subrange(0, i + 1);
        assert(t.drop_last() =~= pv.subrange(0, i as int));
        assert(t.last() == ps@[i as int]@);
        if ps[i].as_str().as_bytes().len() >= 40 {
            let low = to_lowercase(ps[i].as_str());
            let h = total_hits(low.as_str(), terms);
            if h > best {
                best = h;
                best_i = i;
            }
        }
        i = i + 1;
    }
    assert(pv.subrange(0, ps@.len() as int) =~= pv);
    if best == 0 {
        truncate_chars(content, 800)
    } else {
        truncate_chars(ps[best_i].as_str(), 800)
    }
}

/// Pieces of `s` between characters that are not alphanumeric.
pub open spec fn split_words(s: Seq<char>) -> Seq<Seq<char>>
    decreases s.len(),
{
    if s.len() == 0 {
        seq![seq![]]
    } else {
        let rest = split_words(s.drop_last());
        if !alphanumeric(s.last()) {
            rest.push(seq![])
        } else {
            rest.update(rest.len() - 1, rest.last().push(s.last()))
        }
    }
}

proof fn lemma_split_words_len(s: Seq<char>)
    ensures
        split_words(s).len() >= 1,
    decreases s.len(),
{
    if s.len() > 0 {
        lemma_split_words_len(s.drop_last());
    }
}

/// Lowercased pieces of at least three bytes.
pub open spec fn long_lower(pieces: Seq<Seq<char>>) -> Seq<Seq<char>>
    decreases pieces.len(),
{
    if pieces.len() == 0 {
        seq![]
    } else {
        long_lower(pieces.drop_last()) + if vstd::utf8::encode_utf8(pieces.last()).len() >= 3 {
            seq![lowercase(pieces.last())]
        } else {
            seq![]
        }
    }
}

/// The search terms of a query: its alphanumeric runs of at least three
/// bytes, lowercased.
pub open spec fn query_terms_spec(query: Seq<char>) -> Seq<Seq<char>> {
    long_lower(split_words(query))
}

fn push_term(out: &mut Vec<String>, piece: &Vec<char>)
    ensures
        strs(final(out)@) == strs(old(out)@) + if vstd::utf8::encode_utf8(piece@).len() >= 3 {
            seq![lowercase(piece@)]
        } else {
            Seq::<Seq<char>>::empty()
        },
{
    let p = string_of(piece.as_slice());
    let ghost before = strs(out@);
    if p.as_str().as_bytes().len() >= 3 {
        out.push(to_lowercase(p.as_str()));
        assert(strs(out@) =~= before + seq![lowercase(piece@)]);
    } else {
        assert(strs(out@) =~= before + Seq::<Seq<char>>::empty());
    }
}

/// The search terms of a query (see `query_terms_spec`).
pub fn lowercase_terms(query: &str) -> (r: Vec<String>)
    ensures
        strs(r@) == query_terms_spec(query@),
{
    let cs = chars_of(query);
    proof {
        lemma_split_words_len(Seq::<char>::empty());
        assert(cs@.subrange(0, 0) =~= Seq::<char>::empty());
    }
    let mut out: Vec<String> = Vec::new();
    let mut cur: Vec<char> = Vec::new();
    let mut i: usize = 0;
    while i < cs.len()
        invariant
            i <= cs@.len(),
            cs@ == query@,
            split_words(cs@.subrange(0, i as int)).last() == cur@,
            strs(out@) == long_lower(split_words(cs@.subrange(0, i as int)).drop_last()),
        decreases cs@.len() - i,
    {
        let ghost sp = split_words(cs@.subrange(0, i as int));
        let ghost sp2 = split_words(cs@.subrange(0, i + 1));
        proof {
            lemma_split_words_len(cs@.subrange(0, i as int));
            assert(cs@.subrange(0, i + 1).drop_last() =~= cs@.subrange(0, i as int));
            assert(sp.drop_last().push(sp.last()) =~= sp);
        }
        if !is_alphanumeric(cs[i]) {
            push_term(&mut out, &cur);
            proof {
                assert(sp2 =~= sp.push(seq![]));
                assert(sp2.drop_last() =~= sp);
            }
            cur = Vec::new();
        } else {
            cur.push(cs[i]);
            proof {
                assert(sp2 =~= sp.update(sp.len() - 1, sp.last().push(cs@[i as int])));
                assert(sp2.drop_last() =~= sp.drop_last());
            }
        }
        i = i + 1;
    }
    proof {
        assert(cs@.subrange(0, cs@.len() as int) =~= cs@);
        lemma_split_words_len(cs@);
        let sp = split_words(cs@);
        assert(sp.drop_last().push(sp.last()) =~= sp);
    }
    push_term(&mut out, &cur);
    out
}

/// How well a document matches query terms: each term's occurrences in the
/// lowercase title count three times, in the lowercase body once
/// (saturating).
pub open spec fn term_score_spec(title: Seq<char>, body: Seq<char>, terms: Seq<Seq<char>>) -> nat
    decreases terms.len(),
{
    if terms.len() == 0 {
        0
    } else {
        let t = terms.last();
        sat_add(
            term_score_spec(title, body, terms.drop_last()),
            sat_add(
                sat_add(sat_add(count_sat(lowercase(title), t), count_sat(lowercase(title), t)), count_sat(lowercase(title), t)),
                count_sat(lowercase(body), t),
            ),
        )
    }
}

/// How well a document matches query terms (see `term_score_spec`).
pub fn term_score(title: &str, body: &str, terms: &Vec<String>) -> (r: usize)
    ensures
        r as nat == term_score_spec(title@, body@, strs(terms@)),
{
    let tl = to_lowercase(title);
    let bl = to_lowercase(body);
    let ghost tv = strs(terms@);
    let mut total: usize = 0;
    let mut i: usize = 0;
    while i < terms.len()
        invariant
            i <= terms@.len(),
            tv == strs(terms@),
            tl@ == lowercase(title@),
            bl@ == lowercase(body@),
            total as nat == term_score_spec(title@, body@, tv.subrange(0, i as int)),
        decreases terms@.len() - i,
    {
        let ghost t = tv.subrange(0, i + 1);
        assert(t.drop_last() =~= tv.subrange(0, i as int));
        assert(t.last() == terms@[i as int]@);
        let a = count_matches(tl.as_str(), terms[i].as_str());
        let b = count_matches(bl.as_str(), terms[i].as_str());
        let x = saturating_add(saturating_add(saturating_add(a, a), a), b);
        total = saturating_add(total, x);
        i = i + 1;
    }
    assert(tv.subrange(0, terms@.len() as int) =~= tv);
    total
}

/// The first purpose `(tag, title)` whose tag or title, lowercased, occurs
/// in the lowercase query.
pub open spec fn purpose_bias_spec(purposes: Seq<(Seq<char>, Seq<char>)>, query: Seq<char>) -> Option<Seq<char>>
    decreases purposes.len(),
{
    if purposes.len() == 0 {
        None
    } else {
        let q = lowercase(query);
        let (tag, title) = purposes[0];
        if find_sub(q, lowercase(tag)) >= 0 || find_sub(q, lowercase(title)) >= 0 {
            Some(tag)
        } else {
            purpose_bias_spec(purposes.drop_first(), query)
        }
    }
}

pub open spec fn pairs_view(v: Seq<(String, String)>) -> Seq<(Seq<char>, Seq<char>)> {
    v.map_values(|p: (String, String)| (p.0@, p.1@))
}

/// The purpose a query mentions (see `purpose_bias_spec`).
pub fn detect_purpose_bias(purposes: &Vec<(String, String)>, query: &str) -> (r: Option<String>)
    ensures
        match r {
            Some(t) => purpose_bias_spec(pairs_view(purposes@), query@) == Some(t@),
            None => purpose_bias_spec(pairs_view(purposes@), query@) is None,
        },
{
    let ghost pv = pairs_view(purposes@);
    let q = to_lowercase(query);
    let qc = chars_of(q.as_str());
    let mut i: usize = 0;
    assert(pv.subrange(0, pv.len() as int) =~= pv);
    while i < purposes.len()
        invariant
            i <= purposes@.len(),
            pv == pairs_view(purposes@),
            qc@ == lowercase(query@),
            purpose_bias_spec(pv, query@) == purpose_bias_spec(pv.subrange(i as int, pv.len() as int), query@),
        decreases purposes@.len() - i,
    {
        let ghost t = pv.subrange(i as int, pv.len() as int);
        assert(t.drop_first() =~= pv.subrange(i + 1, pv.len() as int));
        assert(t[0] == (purposes@[i as int].0@, purposes@[i as int].1@));
        let tg = to_lowercase(purposes[i].0.as_str());
        let ti = to_lowercase(purposes[i].1.as_str());
        if find_chars(qc.as_slice(), chars_of(tg.as_str()).as_slice()).is_some() || find_chars(
            qc.as_slice(),
            chars_of(ti.as_str()).as_slice(),
        ).is_some() {
            return Some(purposes[i].0.clone());
        }
        i = i + 1;
    }
    None
}

/// The contradicting document a reason names, seen from a hit: for a
/// reason from the hit, its target; for one to the hit, its source (none
/// when empty); only for `Contradicts` reasons.
pub open spec fn contradiction_peer_spec(title: Seq<char>, from_hit: bool) -> Option<Seq<char>> {
    if kind_spec(title) != Some("Contradicts"@) {
        None
    } else {
        let other = if from_hit {
            to_id_spec(title)
        } else {
            Some(
                match from_id_spec(title) {
                    Some(f) => f,
                    None => seq![],
                },
            )
        };
        match other {
            Some(o) => if o.len() > 0 {
                Some(o)
            } else {
                None
            },
            None => None,
        }
    }
}

/// The contradicting document a reason names (see
/// `contradiction_peer_spec`).
pub fn contradiction_peer(title: &str, from_hit: bool) -> (r: Option<String>)
    ensures
        match r {
            Some(o) => contradiction_peer_spec(title@, from_hit) == Some(o@),
            None => contradiction_peer_spec(title@, from_hit) is None,
        },
{
    match extract_kind(title) {
        Some(k) => {
            if !str_eq(k.as_str(), "Contradicts") {
                return None;
            }
        },
        None => {
            return None;
        },
    }
    let other: Option<String> = if from_hit {
        extract_to_id(title)
    } else {
        Some(
            match extract_from_id(title) {
                Some(f) => f,
                None => string_of(Vec::<char>::new().as_slice()),
            },
        )
    };
    match other {
        Some(o) => if chars_of(o.as_str()).len() > 0 {
            Some(o)
        } else {
            None
        },
        None => None,
    }
}

/// The type a document is found under, `?` when it is not found.
pub open spec fn type_of(types: Seq<(Seq<char>, Seq<char>)>, id: Seq<char>) -> Seq<char>
    decreases types.len(),
{
    if types.len() == 0 {
        "?"@
    } else if types[0].0 == id {
        types[0].1
    } else {
        type_of(types.drop_first(), id)
    }
}

/// The contradictions reached through reasons `(id, title)` on one side of
/// a hit: for each `Contradicts` reason, its peer (see
/// `contradiction_peer_spec`) with the peer's type.
pub open spec fn contradictions_from(
    reasons: Seq<(Seq<char>, Seq<char>)>,
    from_hit: bool,
    types: Seq<(Seq<char>, Seq<char>)>,
) -> Seq<(Seq<char>, Seq<char>, Seq<char>, bool)>
    decreases reasons.len(),
{
    if reasons.len() == 0 {
        seq![]
    } else {
        let prev = contradictions_from(reasons.drop_last(), from_hit, types);
        let (rid, title) = reasons.last();
        match contradiction_peer_spec(title, from_hit) {
            Some(o) => prev.push((rid, o, type_of(types, o), from_hit)),
            None => prev,
        }
    }
}

pub open spec fn refs_view(v: Seq<ContradictionRef>) -> Seq<(Seq<char>, Seq<char>, Seq<char>, bool)> {
    v.map_values(|c: ContradictionRef| (c.reason_id@, c.other_doc_id@, c.other_doc_type@, c.direction == ContradictionDirection::FromHit))
}

fn lookup_type(types: &Vec<(String, String)>, id: &str) -> (r: String)
    ensures
        r@ == type_of(pairs_view(types@), id@),
{
    let ghost tv = pairs_view(types@);
    let mut i: usize = 0;
    assert(tv.subrange(0, tv.len() as int) =~= tv);
    while i < types.len()
        invariant
            i <= types@.len(),
            tv == pairs_view(types@),
            type_of(tv, id@) == type_of(tv.subrange(i as int, tv.len() as int), id@),
        decreases types@.len() - i,
    {
        let ghost rest = tv.subrange(i as int, tv.len() as int);
        assert(rest[0] == tv[i as int]);
        assert(rest.drop_first() =~= tv.subrange(i + 1, tv.len() as int));
        if str_eq(types[i].0.as_str(), id) {
            return types[i].1.clone();
        }
        i = i + 1;
    }
    "?".to_owned()
}

fn push_contradictions(
    out: &mut Vec<ContradictionRef>,
    reasons: &Vec<(String, String)>,
    from_hit: bool,
    types: &Vec<(String, String)>,
)
    ensures
        refs_view(final(out)@) == refs_view(old(out)@) + contradictions_from(pairs_view(reasons@), from_hit, pairs_view(types@)),
{
    let ghost rv = pairs_view(reasons@);
    let ghost base = refs_view(out@);
    let mut i: usize = 0;
    while i < reasons.len()
        invariant
            i <= reasons@.len(),
            rv == pairs_view(reasons@),
            refs_view(out@) == base + contradictions_from(rv.subrange(0, i as int), from_hit, pairs_view(types@)),
        decreases reasons@.len() - i,
    {
        assert(rv.subrange(0, i + 1).drop_last() =~= rv.subrange(0, i as int));
        assert(rv[i as int] == (reasons@[i as int].0@, reasons@[i as int].1@));
        match contradiction_peer(reasons[i].1.as_str(), from_hit) {
            Some(o) => {
                let ghost before = refs_view(out@);
                let t = lookup_type(types, o.as_str());
                let c = ContradictionRef {
                    reason_id: reasons[i].0.clone(),
                    other_doc_id: o,
                    other_doc_type: t,
                    direction: if from_hit {
                        ContradictionDirection::FromHit
                    } else {
                        ContradictionDirection::ToHit
                    },
                };
                out.push(c);
                assert(refs_view(out@) =~= before.push(
                    (reasons@[i as int].0@, c.other_doc_id@, c.other_doc_type@, from_hit),
                ));
            },
            None => {},
        }
        i = i + 1;
    }
    assert(rv.subrange(0, reasons@.len() as int) =~= rv);
}

/// The contradictions of a hit: through the reasons `(id, title)` that
/// leave it, then those that arrive at it; `types` gives the type each
/// document is found under.
pub fn gather_contradictions(
    outgoing: &Vec<(String, String)>,
    incoming: &Vec<(String, String)>,
    types: &Vec<(String, String)>,
) -> (r: Vec<ContradictionRef>)
    ensures
        refs_view(r@) == contradictions_from(pairs_view(outgoing@), true, pairs_view(types@)) + contradictions_from(
            pairs_view(incoming@),
            false,
            pairs_view(types@),
        ),
{
    let mut out: Vec<ContradictionRef> = Vec::new();
    assert(refs_view(out@) =~= Seq::<(Seq<char>, Seq<char>, Seq<char>, bool)>::empty());
    push_contradictions(&mut out, outgoing, true, types);
    push_contradictions(&mut out, incoming, false, types);
    out
}

// ── Laws of scoring and snippets ────────────────────────────────────────

/// Scoring ignores case: two documents whose titles and bodies lowercase
/// alike score alike against any terms.
pub proof fn law_term_score_case_blind(
    title1: Seq<char>,
    title2: Seq<char>,
    body1: Seq<char>,
    body2: Seq<char>,
    terms: Seq<Seq<char>>,
)
    requires
        lowercase(title1) == lowercase(title2),
        lowercase(body1) == lowercase(body2),
    ensures
        term_score_spec(title1, body1, terms) == term_score_spec(title2, body2, terms),
    decreases terms.len(),
{
    if terms.len() > 0 {
        law_term_score_case_blind(title1, title2, body1, body2, terms.drop_last());
    }
}

/// Every occurrence counts: for each query term, the score is at least the
/// number of times the term occurs in the lowercase body, and at least the
/// number of times it occurs in the lowercase title (both as counted up to
/// the largest `usize`).
pub proof fn law_term_score_counts_occurrences(title: Seq<char>, body: Seq<char>, terms: Seq<Seq<char>>, t: Seq<char>)
    requires
        terms.contains(t),
    ensures
        term_score_spec(title, body, terms) >= count_sat(lowercase(body), t),
        term_score_spec(title, body, terms) >= count_sat(lowercase(title), t),
    decreases terms.len(),
{
    let k = choose|k: int| 0 <= k < terms.len() && terms[k] == t;
    if k < terms.len() - 1 {
        assert(terms.drop_last()[k] == t);
        law_term_score_counts_occurrences(title, body, terms.drop_last(), t);
    }
}

/// Each term's occurrences in the lowercase title, three times over, plus
/// its occurrences in the lowercase body, summed over the terms.
pub open spec fn weighted_occurrences(title: Seq<char>, body: Seq<char>, terms: Seq<Seq<char>>) -> int
    decreases terms.len(),
{
    if terms.len() == 0 {
        0
    } else {
        3 * count_occ(lowercase(title), terms[0]) + count_occ(lowercase(body), terms[0]) + weighted_occurrences(
            title,
            body,
            terms.drop_first(),
        )
    }
}

proof fn lemma_weighted_push(title: Seq<char>, body: Seq<char>, terms: Seq<Seq<char>>, t: Seq<char>)
    ensures
        weighted_occurrences(title, body, terms.push(t)) == weighted_occurrences(title, body, terms) + 3 * count_occ(
            lowercase(title),
            t,
        ) + count_occ(lowercase(body), t),
    decreases terms.len(),
{
    if terms.len() > 0 {
        assert(terms.push(t).drop_first() =~= terms.drop_first().push(t));
        assert(terms.push(t)[0] == terms[0]);
        lemma_weighted_push(title, body, terms.drop_first(), t);
    } else {
        assert(terms.push(t).drop_first() =~= Seq::<Seq<char>>::empty());
        assert(terms.push(t)[0] == t);
        assert(weighted_occurrences(title, body, Seq::<Seq<char>>::empty()) == 0);
    }
}

/// The score of a document is each term's occurrences in its lowercase
/// title three times plus those in its lowercase body, summed over the
/// terms, and capped at the largest `usize`.
pub proof fn law_term_score_value(title: Seq<char>, body: Seq<char>, terms: Seq<Seq<char>>)
    ensures
        term_score_spec(title, body, terms) == if weighted_occurrences(title, body, terms) <= usize::MAX {
            weighted_occurrences(title, body, terms)
        } else {
            usize::MAX as int
        },
    decreases terms.len(),
{
    if terms.len() > 0 {
        let d = terms.drop_last();
        let t = terms.last();
        law_term_score_value(title, body, d);
        lemma_weighted_push(title, body, d, t);
        assert(d.push(t) =~= terms);
        assert(count_occ(lowercase(title), t) >= 0 && count_occ(lowercase(body), t) >= 0);
    }
}

/// Whether a paragraph may serve as a snippet: at least 40 bytes long.
pub open spec fn snippet_sized(p: Seq<char>) -> bool {
    vstd::utf8::encode_utf8(p).len() >= 40
}

proof fn lemma_best_para(ps: Seq<Seq<char>>, terms: Seq<Seq<char>>)
    ensures
        forall|k: int|
            0 <= k < ps.len() && snippet_sized(ps[k]) ==> hits_of(lowercase(#[trigger] ps[k]), terms) <= best_para(
                ps,
                terms,
            ).0,
        best_para(ps, terms).0 > 0 ==> exists|j: int|
            0 <= j < ps.len() && ps[j] == best_para(ps, terms).1 && snippet_sized(ps[j]) && hits_of(
                lowercase(ps[j]),
                terms,
            ) == best_para(ps, terms).0 && forall|k: int|
                0 <= k < j && snippet_sized(ps[k]) ==> hits_of(lowercase(#[trigger] ps[k]), terms) < best_para(
                    ps,
                    terms,
                ).0,
    decreases ps.len(),
{
    if ps.len() > 0 {
        let d = ps.drop_last();
        lemma_best_para(d, terms);
        assert forall|k: int|
            0 <= k < ps.len() && snippet_sized(ps[k]) implies hits_of(lowercase(#[trigger] ps[k]), terms) <= best_para(
            ps,
            terms,
        ).0 by {
            if k < d.len() {
                assert(ps[k] == d[k]);
            }
        }
        let b = best_para(ps, terms);
        if b.0 > 0 {
            if b == best_para(d, terms) {
                let j = choose|j: int|
                    0 <= j < d.len() && d[j] == best_para(d, terms).1 && snippet_sized(d[j]) && hits_of(
                        lowercase(d[j]),
                        terms,
                    ) == best_para(d, terms).0 && forall|k: int|
                        0 <= k < j && snippet_sized(d[k]) ==> hits_of(lowercase(#[trigger] d[k]), terms)
                            < best_para(d, terms).0;
                assert(ps[j] == d[j]);
                assert forall|k: int| 0 <= k < j && snippet_sized(ps[k]) implies hits_of(
                    lowercase(#[trigger] ps[k]),
                    terms,
                ) < b.0 by {
                    assert(ps[k] == d[k]);
                }
            } else {
                let j = ps.len() - 1;
                assert(ps[j] == ps.last());
                assert forall|k: int| 0 <= k < j && snippet_sized(ps[k]) implies hits_of(
                    lowercase(#[trigger] ps[k]),
                    terms,
                ) < b.0 by {
                    assert(ps[k] == d[k]);
                }
            }
        }
    }
}

/// Without query terms the snippet is the start of the text, at most 800
/// characters.
pub proof fn law_snippet_without_terms(content: Seq<char>)
    ensures
        best_snippet_spec(content, Seq::<Seq<char>>::empty()) == take_chars(content, 800),
{
}

/// The snippet is the best paragraph: when some paragraph of at least 40
/// bytes holds a query term, the snippet is (the start of) the first
/// paragraph of at least 40 bytes with the most term occurrences: no such
/// paragraph has more, and none before it has as many. When none holds a
/// term, it is the start of the text.
pub proof fn law_snippet_is_best(content: Seq<char>, terms: Seq<Seq<char>>)
    requires
        terms.len() > 0,
    ensures
        ({
            let ps = paragraphs_spec(content);
            &&& (forall|k: int| 0 <= k < ps.len() && snippet_sized(ps[k]) ==> hits_of(lowercase(#[trigger] ps[k]), terms)
                == 0) ==> best_snippet_spec(content, terms) == take_chars(content, 800)
            &&& (exists|k: int| 0 <= k < ps.len() && snippet_sized(ps[k]) && hits_of(lowercase(#[trigger] ps[k]), terms)
                > 0) ==> exists|j: int|
                0 <= j < ps.len() && snippet_sized(ps[j]) && hits_of(lowercase(ps[j]), terms) > 0
                    && best_snippet_spec(content, terms) == take_chars(ps[j], 800) && (forall|k: int|
                    0 <= k < ps.len() && snippet_sized(ps[k]) ==> hits_of(lowercase(#[trigger] ps[k]), terms)
                        <= hits_of(lowercase(ps[j]), terms)) && (forall|k: int|
                    0 <= k < j && snippet_sized(ps[k]) ==> hits_of(lowercase(#[trigger] ps[k]), terms) < hits_of(
                        lowercase(ps[j]),
                        terms,
                    ))
        }),
{
    let ps = paragraphs_spec(content);
    lemma_best_para(ps, terms);
}

} // verus!
