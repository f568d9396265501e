//! Links from wiki documents to the code index: the keywords a document is
//! searched by, and the code references read back from search results.

use vstd::prelude::*;
use crate::code::splitter::{comps, is_abs};
use crate::slashpath::file_stem;
use crate::text::{
    char_range, chars_of, find_chars, find_sub, has_prefix, join_with, lines, lines_of, push_chars, push_joined_strings,
    push_str_chars, starts_with_chars, str_eq, string_of,
};
use crate::unicode::{alphanumeric, is_alphanumeric, lowercase, to_lowercase};

verus! {

/// Words too common to search the code for.
pub open spec fn stopwords() -> Seq<Seq<char>> {
    seq![
        "also"@, "about"@, "are"@, "been"@, "but"@, "can"@, "could"@, "does"@, "each"@, "for"@, "from"@,
        "have"@, "how"@, "into"@, "its"@, "more"@, "not"@, "should"@, "some"@, "such"@, "than"@, "that"@,
        "the"@, "their"@, "then"@, "there"@, "these"@, "they"@, "this"@, "those"@, "used"@, "use"@, "was"@,
        "what"@, "when"@, "where"@, "which"@, "will"@, "with"@, "would"@, "why"@,
    ]
}

fn stopword_list() -> (r: Vec<&'static str>)
    ensures
        r@.map_values(|s: &str| s@) == stopwords(),
{
    let v = vec![
        "also", "about", "are", "been", "but", "can", "could", "does", "each", "for", "from", "have", "how", "into",
        "its", "more", "not", "should", "some", "such", "than", "that", "the", "their", "then", "there", "these",
        "they", "this", "those", "used", "use", "was", "what", "when", "where", "which", "will", "with", "would",
        "why",
    ];
    assert(v@.map_values(|s: &str| s@) =~= stopwords());
    v
}

/// Characters that a keyword is made of: alphanumerics and `_`.
pub open spec fn word_char(c: char) -> bool {
    alphanumeric(c) || c == '_'
}

/// Pieces of `s` between characters that are not word characters.
pub open spec fn split_keywords(s: Seq<char>) -> Seq<Seq<char>>
    decreases s.len(),
{
    if s.len() == 0 {
        seq![seq![]]
    } else {
        let rest = split_keywords(s.drop_last());
        if !word_char(s.last()) {
            rest.push(seq![])
        } else {
            rest.update(rest.len() - 1, rest.last().push(s.last()))
        }
    }
}

proof fn lemma_split_keywords_len(s: Seq<char>)
    ensures
        split_keywords(s).len() >= 1,
    decreases s.len(),
{
    if s.len() > 0 {
        lemma_split_keywords_len(s.drop_last());
    }
}

/// The keywords kept from pieces `..n`: at least four bytes long, not a
/// stopword once lowercased, lowercased, each once.
pub open spec fn keep_keywords(acc: Seq<Seq<char>>, pieces: Seq<Seq<char>>) -> Seq<Seq<char>>
    decreases pieces.len(),
{
    if pieces.len() == 0 {
        acc
    } else {
        let prev = keep_keywords(acc, pieces.drop_last());
        let p = pieces.last();
        let l = lowercase(p);
        if vstd::utf8::encode_utf8(p).len() >= 4 && !stopwords().contains(l) && !prev.contains(l) {
            prev.push(l)
        } else {
            prev
        }
    }
}

/// The keywords of a text (see `keep_keywords`).
pub open spec fn keywords_spec(text: Seq<char>) -> Seq<Seq<char>> {
    keep_keywords(seq![], split_keywords(text))
}

fn contains_string(v: &Vec<String>, x: &str) -> (r: bool)
    ensures
        r == v@.map_values(|s: String| s@).contains(x@),
{
    let ghost w = v@.map_values(|s: String| s@);
    let mut i: usize = 0;
    while i < v.len()
        invariant
            i <= v@.len(),
            w == v@.map_values(|s: String| s@),
            forall|k: int| 0 <= k < i ==> (#[trigger] w[k]) != x@,
        decreases v@.len() - i,
    {
        if str_eq(v[i].as_str(), x) {
            assert(w[i as int] == x@);
            return true;
        }
        i = i + 1;
    }
    false
}

fn is_stopword(x: &str) -> (r: bool)
    ensures
        r == stopwords().contains(x@),
{
    let sw = stopword_list();
    let ghost w = sw@.map_values(|s: &str| s@);
    let mut i: usize = 0;
    while i < sw.len()
        invariant
            i <= sw@.len(),
            w == sw@.map_values(|s: &str| s@),
            w == stopwords(),
            forall|k: int| 0 <= k < i ==> (#[trigger] w[k]) != x@,
        decreases sw@.len() - i,
    {
        if str_eq(sw[i], x) {
            assert(w[i as int] == x@);
            return true;
        }
        i = i + 1;
    }
    false
}

fn keep_piece(out: &mut Vec<String>, piece: &Vec<char>)
    ensures
        final(out)@.map_values(|s: String| s@) == keep_keywords(old(out)@.map_values(|s: String| s@), seq![piece@]),
{
    assert(keep_keywords(out@.map_values(|s: String| s@), seq![piece@].drop_last()) == out@.map_values(|s: String| s@)) by {
        assert(seq![piece@].drop_last() =~= Seq::<Seq<char>>::empty());
    }
    let p = string_of(piece.as_slice());
    if p.as_str().as_bytes().len() >= 4 {
        let l = to_lowercase(p.as_str());
        if !is_stopword(l.as_str()) && !contains_string(out, l.as_str()) {
            let ghost before = out@.map_values(|s: String| s@);
            out.push(l);
            assert(out@.map_values(|s: String| s@) =~= before.push(lowercase(piece@)));
        }
    }
}

proof fn lemma_keep_step(acc: Seq<Seq<char>>, ps: Seq<Seq<char>>, p: Seq<char>)
    ensures
        keep_keywords(acc, ps.push(p)) == keep_keywords(keep_keywords(acc, ps), seq![p]),
{
    reveal_with_fuel(keep_keywords, 2);
    assert(ps.push(p).drop_last() =~= ps);
    assert(seq![p].drop_last() =~= Seq::<Seq<char>>::empty());
}

/// The keywords a document is searched by (see `keywords_spec`).
pub fn extract_tokens(text: &str) -> (r: Vec<String>)
    ensures
        r@.map_values(|s: String| s@) == keywords_spec(text@),
{
    let cs = chars_of(text);
    proof {
        lemma_split_keywords_len(Seq::<char>::empty());
        assert(cs@.subrange(0, 0) =~= Seq::<char>::empty());
    }
    let mut out: Vec<String> = Vec::new();
    assert(out@.map_values(|s: String| s@) =~= Seq::<Seq<char>>::empty());
    let mut cur: Vec<char> = Vec::new();
    let mut i: usize = 0;
    while i < cs.len()
        invariant
            i <= cs@.len(),
            cs@ == text@,
            split_keywords(cs@.subrange(0, i as int)).last() == cur@,
            out@.map_values(|s: String| s@) == keep_keywords(seq![], split_keywords(cs@.subrange(0, i as int)).drop_last()),
        decreases cs@.len() - i,
    {
        let ghost sp = split_keywords(cs@.subrange(0, i as int));
        let ghost sp2 = split_keywords(cs@.subrange(0, i + 1));
        proof {
            lemma_split_keywords_len(cs@.subrange(0, i as int));
            assert(cs@.subrange(0, i + 1).drop_last() =~= cs@.subrange(0, i as int));
            assert(sp.drop_last().push(sp.last()) =~= sp);
        }
        let c = cs[i];
        if !(is_alphanumeric(c) || c == '_') {
            keep_piece(&mut out, &cur);
            proof {
                assert(sp2 =~= sp.push(seq![]));
                assert(sp2.drop_last() =~= sp);
                lemma_keep_step(seq![], sp.drop_last(), sp.last());
            }
            cur = Vec::new();
        } else {
            cur.push(c);
            proof {
                assert(sp2 =~= sp.update(sp.len() - 1, sp.last().push(c)));
                assert(sp2.drop_last() =~= sp.drop_last());
            }
        }
        i = i + 1;
    }
    proof {
        assert(cs@.subrange(0, cs@.len() as int) =~= cs@);
        lemma_split_keywords_len(cs@);
        let sp = split_keywords(cs@);
        assert(sp.drop_last().push(sp.last()) =~= sp);
        lemma_keep_step(seq![], sp.drop_last(), sp.last());
    }
    keep_piece(&mut out, &cur);
    out
}

/// The code reference a body file stands for: its path relative to the
/// index is `<ext>/functions/<dir…>/<name>.md`, and the reference
/// `<dir…>.<ext>::<name>`; `None` for paths outside the index or too
/// short.
pub open spec fn body_ref_spec(body: Seq<char>, index: Seq<char>) -> Option<Seq<char>> {
    let bc = comps(body);
    let ic = comps(index);
    if is_abs(body) != is_abs(index) || ic.len() > bc.len() || bc.subrange(0, ic.len() as int) != ic {
        None
    } else {
        let rest = bc.subrange(ic.len() as int, bc.len() as int);
        if rest.len() < 3 || rest.last() == ".."@ {
            None
        } else {
            let tail = rest.subrange(2, rest.len() as int);
            Some(
                join_with(tail.drop_last(), seq!['/']) + seq!['.'] + rest[0] + "::"@ + file_stem(tail.last()),
            )
        }
    }
}

/// The code reference a body file stands for (see `body_ref_spec`).
pub fn body_path_to_ref(body: &str, index: &str) -> (r: Option<String>)
    ensures
        match r {
            Some(x) => body_ref_spec(body@, index@) == Some(x@),
            None => body_ref_spec(body@, index@) is None,
        },
{
    let bcs = chars_of(body);
    let ics = chars_of(index);
    let ba = bcs.len() > 0 && bcs[0] == '/';
    let ia = ics.len() > 0 && ics[0] == '/';
    if ba != ia {
        return None;
    }
    let bc = crate::code::splitter::components_of(body);
    let ic = crate::code::splitter::components_of(index);
    let ghost bv = bc@.map_values(|s: String| s@);
    let ghost iv = ic@.map_values(|s: String| s@);
    if ic.len() > bc.len() {
        return None;
    }
    let mut k: usize = 0;
    while k < ic.len()
        invariant
            k <= ic@.len() <= bc@.len(),
            bv == bc@.map_values(|s: String| s@),
            iv == ic@.map_values(|s: String| s@),
            bv == comps(body@),
            iv == comps(index@),
            forall|j: int| 0 <= j < k ==> bv[j] == iv[j],
        decreases ic@.len() - k,
    {
        if !str_eq(bc[k].as_str(), ic[k].as_str()) {
            proof {
                assert(bv[k as int] != iv[k as int]);
                if bv.subrange(0, iv.len() as int) == iv {
                    assert(bv.subrange(0, iv.len() as int)[k as int] == bv[k as int]);
                }
            }
            return None;
        }
        k = k + 1;
    }
    assert(bv.subrange(0, iv.len() as int) =~= iv);
    let n = bc.len() - ic.len();
    if n < 3 {
        return None;
    }
    let ghost rest = bv.subrange(iv.len() as int, bv.len() as int);
    let last = &bc[bc.len() - 1];
    if str_eq(last.as_str(), "..") {
        assert(rest.last() == bv[bv.len() - 1]);
        return None;
    }
    let start = ic.len() + 2;
    let mut out: Vec<char> = Vec::new();
    push_joined_strings(&mut out, &bc, start, bc.len() - 1, "/");
    proof {
        reveal_strlit("/");
        assert("/"@ =~= seq!['/']);
        let tail = rest.subrange(2, rest.len() as int);
        assert(tail.drop_last() =~= bv.subrange(start as int, bv.len() - 1));
        assert(tail.last() == bv[bv.len() - 1]);
        assert(rest[0] == bv[ic@.len() as int]);
    }
    out.push('.');
    push_str_chars(&mut out, bc[ic.len()].as_str());
    push_str_chars(&mut out, "::");
    let stem = crate::slashpath::path_file_stem(last.as_str());
    push_str_chars(&mut out, stem.as_str());
    Some(string_of(out.as_slice()))
}

/// The code references in the text of a body search: from each result
/// line (not a notice or footer) the path up to its first `.md:`.
pub open spec fn refs_in_lines(ls: Seq<Seq<char>>, index: Seq<char>) -> Seq<Seq<char>>
    decreases ls.len(),
{
    if ls.len() == 0 {
        seq![]
    } else {
        let prev = refs_in_lines(ls.drop_last(), index);
        let l = ls.last();
        let pos = find_sub(l, ".md:"@);
        if has_prefix(l, "no matches"@) || has_prefix(l, "--"@) || pos < 0 {
            prev
        } else {
            match body_ref_spec(l.subrange(0, pos + 3), index) {
                Some(r) => prev.push(r),
                None => prev,
            }
        }
    }
}

/// The code references in the text of a body search (see
/// `refs_in_lines`).
pub fn parse_refs_from_result(result: &str, index: &str) -> (r: Vec<String>)
    ensures
        r@.map_values(|s: String| s@) == refs_in_lines(lines(result@), index@),
{
    let cs = chars_of(result);
    let ls = lines_of(cs.as_slice());
    let ghost lv = ls@.map_values(|l: Vec<char>| l@);
    let nm = chars_of("no matches");
    let dd = chars_of("--");
    let md = chars_of(".md:");
    proof {
        reveal_strlit(".md:");
    }
    let mut out: Vec<String> = Vec::new();
    let mut i: usize = 0;
    while i < ls.len()
        invariant
            i <= ls@.len(),
            lv == ls@.map_values(|l: Vec<char>| l@),
            nm@ == "no matches"@,
            dd@ == "--"@,
            md@ == ".md:"@,
            md@.len() == 4,
            out@.map_values(|s: String| s@) == refs_in_lines(lv.subrange(0, i as int), index@),
        decreases ls@.len() - i,
    {
        let ghost t = lv.subrange(0, i + 1);
        assert(t.drop_last() =~= lv.subrange(0, i as int));
        assert(t.last() == ls@[i as int]@);
        let l = &ls[i];
        if !starts_with_chars(l.as_slice(), nm.as_slice()) && !starts_with_chars(l.as_slice(), dd.as_slice()) {
            match find_chars(l.as_slice(), md.as_slice()) {
                Some(pos) => {
                    let ll = l.len();
                    assert(pos + 4 <= ll);
                    let hit = string_of(char_range(l.as_slice(), 0, pos + 3).as_slice());
                    match body_path_to_ref(hit.as_str(), index) {
                        Some(r) => {
                            let ghost before = out@.map_values(|s: String| s@);
                            out.push(r);
                            assert(out@.map_values(|s: String| s@) =~= before.push(body_ref_spec(hit@, index@)->0));
                        },
                        None => {},
                    }
                },
                None => {},
            }
        }
        i = i + 1;
    }
    assert(lv.subrange(0, ls@.len() as int) =~= lv);
    out
}

/// The keywords a document is searched by: those of its title, then each
/// body keyword not yet among them, stopping once there are twenty.
pub open spec fn merge_keywords(tokens: Seq<Seq<char>>, body: Seq<Seq<char>>, i: int) -> Seq<Seq<char>>
    decreases body.len() - i,
{
    if i < 0 || i >= body.len() {
        tokens
    } else {
        let t = if tokens.contains(body[i]) {
            tokens
        } else {
            tokens.push(body[i])
        };
        if t.len() >= 20 {
            t
        } else {
            merge_keywords(t, body, i + 1)
        }
    }
}

/// The keywords a document is searched by (see `merge_keywords`).
pub fn doc_keywords(title: &str, body: &str) -> (r: Vec<String>)
    ensures
        r@.map_values(|s: String| s@) == merge_keywords(keywords_spec(title@), keywords_spec(body@), 0),
{
    let mut tokens = extract_tokens(title);
    let bt = extract_tokens(body);
    let ghost bv = bt@.map_values(|s: String| s@);
    let mut i: usize = 0;
    while i < bt.len()
        invariant
            i <= bt@.len(),
            bv == bt@.map_values(|s: String| s@),
            bv == keywords_spec(body@),
            merge_keywords(keywords_spec(title@), bv, 0) == merge_keywords(tokens@.map_values(|s: String| s@), bv, i as int),
        decreases bt@.len() - i,
    {
        assert(bv[i as int] == bt@[i as int]@);
        let ghost t0 = tokens@.map_values(|s: String| s@);
        if !contains_string(&tokens, bt[i].as_str()) {
            let ghost before = tokens@.map_values(|s: String| s@);
            tokens.push(bt[i].clone());
            assert(tokens@.map_values(|s: String| s@) =~= before.push(bv[i as int]));
        }
        assert(tokens@.map_values(|s: String| s@) == (if t0.contains(bv[i as int]) {
            t0
        } else {
            t0.push(bv[i as int])
        }));
        if tokens.len() >= 20 {
            assert(merge_keywords(t0, bv, i as int) == tokens@.map_values(|s: String| s@));
            return tokens;
        }
        i = i + 1;
    }
    tokens
}

/// The source part of a code reference: the text before its first `::`.
pub open spec fn ref_source(r: Seq<char>) -> Seq<char> {
    let k = find_sub(r, "::"@);
    if k < 0 {
        r
    } else {
        r.subrange(0, k)
    }
}

/// Adds the references of one search to those kept: each whose source is
/// new, until ten are kept. The answer says whether ten are.
pub open spec fn add_refs_spec(refs: Seq<Seq<char>>, seen: Seq<Seq<char>>, new: Seq<Seq<char>>, i: int) -> (
    Seq<Seq<char>>,
    Seq<Seq<char>>,
    bool,
)
    decreases new.len() - i,
{
    if i < 0 || i >= new.len() {
        (refs, seen, false)
    } else {
        let src = ref_source(new[i]);
        if seen.contains(src) {
            add_refs_spec(refs, seen, new, i + 1)
        } else {
            let r2 = refs.push(new[i]);
            let s2 = seen.push(src);
            if r2.len() >= 10 {
                (r2, s2, true)
            } else {
                add_refs_spec(r2, s2, new, i + 1)
            }
        }
    }
}

fn source_of(r: &str) -> (s: String)
    ensures
        s@ == ref_source(r@),
{
    let cs = chars_of(r);
    match find_chars(cs.as_slice(), chars_of("::").as_slice()) {
        Some(k) => string_of(char_range(cs.as_slice(), 0, k).as_slice()),
        None => string_of(cs.as_slice()),
    }
}

/// Adds the references of one search (see `add_refs_spec`); true once ten
/// are kept.
pub fn add_refs(refs: &mut Vec<String>, seen: &mut Vec<String>, new: &Vec<String>) -> (done: bool)
    ensures
        (final(refs)@.map_values(|s: String| s@), final(seen)@.map_values(|s: String| s@), done) == add_refs_spec(
            old(refs)@.map_values(|s: String| s@),
            old(seen)@.map_values(|s: String| s@),
            new@.map_values(|s: String| s@),
            0,
        ),
{
    let ghost nv = new@.map_values(|s: String| s@);
    let ghost goal = add_refs_spec(refs@.map_values(|s: String| s@), seen@.map_values(|s: String| s@), nv, 0);
    let mut i: usize = 0;
    while i < new.len()
        invariant
            i <= new@.len(),
            nv == new@.map_values(|s: String| s@),
            goal == add_refs_spec(
                old(refs)@.map_values(|s: String| s@),
                old(seen)@.map_values(|s: String| s@),
                nv,
                0,
            ),
            goal == add_refs_spec(refs@.map_values(|s: String| s@), seen@.map_values(|s: String| s@), nv, i as int),
        decreases new@.len() - i,
    {
        assert(nv[i as int] == new@[i as int]@);
        let src = source_of(new[i].as_str());
        if !contains_string(seen, src.as_str()) {
            let ghost r0 = refs@.map_values(|s: String| s@);
            let ghost s0 = seen@.map_values(|s: String| s@);
            refs.push(new[i].clone());
            seen.push(src);
            assert(refs@.map_values(|s: String| s@) =~= r0.push(nv[i as int]));
            assert(seen@.map_values(|s: String| s@) =~= s0.push(ref_source(nv[i as int])));
            if refs.len() >= 10 {
                assert(!s0.contains(ref_source(nv[i as int])));
                assert(add_refs_spec(r0, s0, nv, i as int) == (
                    r0.push(nv[i as int]),
                    s0.push(ref_source(nv[i as int])),
                    true,
                ));
                return true;
            }
        }
        i = i + 1;
    }
    false
}

} // verus!
