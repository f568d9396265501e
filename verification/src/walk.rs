//! The tag-walk retrieval tier: its options, the tags a query resolves
//! to, and which document types it admits.

use vstd::prelude::*;
use crate::smart::{lowercase_terms, query_terms_spec, strs};
use crate::text::{chars_of, find_chars, find_sub, has_prefix, is_ws, push_str_chars, starts_with_chars, str_eq, string_of, trim, trim_chars};
use crate::unicode::{lowercase, to_lowercase};

verus! {

/// How far and how wide the tag walk goes, which edge kinds and document
/// types it follows, and how many hits it returns.
#[derive(Clone, Debug)]
pub struct WalkOpts {
    pub depth: u8,
    pub fanout: u8,
    pub kinds: Option<Vec<String>>,
    pub types: Option<Vec<String>>,
    pub k: usize,
}

impl Default for WalkOpts {
    /// Two hops, eight edges per node, the default kinds and all types,
    /// twenty hits.
    fn default() -> (r: Self)
        ensures
            r.depth == 2,
            r.fanout == 8,
            r.kinds is None,
            r.types is None,
            r.k == 20,
    {
        WalkOpts { depth: 2, fanout: 8, kinds: None, types: None, k: 20 }
    }
}

/// `s` with `x` added at the end unless already there.
pub open spec fn push_unique(s: Seq<Seq<char>>, x: Seq<char>) -> Seq<Seq<char>> {
    if s.contains(x) {
        s
    } else {
        s.push(x)
    }
}

/// Whether some token occurs in `s`.
pub open spec fn any_token_in(s: Seq<char>, tokens: Seq<Seq<char>>) -> bool {
    exists|i: int| 0 <= i < tokens.len() && find_sub(s, #[trigger] tokens[i]) >= 0
}

/// Whether a purpose `(tag, title)` matches the query tokens: its
/// lowercase tag is a token, or a token occurs in its lowercase title or
/// tag.
pub open spec fn purpose_hit(tag: Seq<char>, title: Seq<char>, tokens: Seq<Seq<char>>) -> bool {
    tokens.contains(lowercase(tag)) || any_token_in(lowercase(title), tokens) || any_token_in(lowercase(tag), tokens)
}

/// Tags from the purposes `..n` that match.
pub open spec fn purpose_tags(acc: Seq<Seq<char>>, ps: Seq<(Seq<char>, Seq<char>)>, tokens: Seq<Seq<char>>, n: int) -> Seq<
    Seq<char>,
>
    decreases n,
{
    if n <= 0 || n > ps.len() {
        acc
    } else {
        let prev = purpose_tags(acc, ps, tokens, n - 1);
        if purpose_hit(ps[n - 1].0, ps[n - 1].1, tokens) {
            push_unique(prev, ps[n - 1].0)
        } else {
            prev
        }
    }
}

/// An entity as tag resolution sees it: id, title, purpose.
pub struct EntityTag {
    pub id: String,
    pub title: String,
    pub purpose: Option<String>,
}

/// The seed tag of an entity.
pub open spec fn entity_seed(id: Seq<char>) -> Seq<char> {
    "__entity__:"@ + id
}

/// Tags from the entities `..n` whose lowercase title or id holds a token:
/// the entity's seed tag and its purpose.
pub open spec fn entity_tags(acc: Seq<Seq<char>>, es: Seq<EntityTag>, tokens: Seq<Seq<char>>, n: int) -> Seq<
    Seq<char>,
>
    decreases n,
{
    if n <= 0 || n > es.len() {
        acc
    } else {
        let prev = entity_tags(acc, es, tokens, n - 1);
        let e = es[n - 1];
        if any_token_in(lowercase(e.title@), tokens) || any_token_in(lowercase(e.id@), tokens) {
            let a = push_unique(prev, entity_seed(e.id@));
            match e.purpose {
                Some(p) => push_unique(a, p@),
                None => a,
            }
        } else {
            prev
        }
    }
}

/// Pieces of `s` between whitespace characters and commas.
pub open spec fn split_ws_comma(s: Seq<char>) -> Seq<Seq<char>>
    decreases s.len(),
{
    if s.len() == 0 {
        seq![seq![]]
    } else {
        let rest = split_ws_comma(s.drop_last());
        if is_ws(s.last()) || s.last() == ',' {
            rest.push(seq![])
        } else {
            rest.update(rest.len() - 1, rest.last().push(s.last()))
        }
    }
}

/// Question hash tags (`q-…`, longer than two bytes) among the pieces
/// `..n`.
pub open spec fn hash_tags(acc: Seq<Seq<char>>, pieces: Seq<Seq<char>>, n: int) -> Seq<Seq<char>>
    decreases n,
{
    if n <= 0 || n > pieces.len() {
        acc
    } else {
        let prev = hash_tags(acc, pieces, n - 1);
        let t = trim(pieces[n - 1]);
        if has_prefix(t, "q-"@) && vstd::utf8::encode_utf8(t).len() > 2 {
            push_unique(prev, t)
        } else {
            prev
        }
    }
}

/// The tags a query resolves to, each once: matching purpose tags, the
/// seed tags and purposes of matching entities, and question hash tags
/// written in the query; none when the query has no terms.
pub open spec fn candidate_tags_spec(query: Seq<char>, ps: Seq<(Seq<char>, Seq<char>)>, es: Seq<EntityTag>) -> Seq<
    Seq<char>,
> {
    let tokens = query_terms_spec(query);
    if tokens.len() == 0 {
        seq![]
    } else {
        let a = purpose_tags(seq![], ps, tokens, ps.len() as int);
        let b = entity_tags(a, es, tokens, es.len() as int);
        let pieces = split_ws_comma(query);
        hash_tags(b, pieces, pieces.len() as int)
    }
}

fn add_unique(v: &mut Vec<String>, x: String)
    ensures
        strs(final(v)@) == push_unique(strs(old(v)@), x@),
{
    let ghost w = strs(v@);
    let mut i: usize = 0;
    while i < v.len()
        invariant
            i <= v@.len(),
            w == strs(v@),
            v@ == old(v)@,
            forall|k: int| 0 <= k < i ==> (#[trigger] w[k]) != x@,
        decreases v@.len() - i,
    {
        if str_eq(v[i].as_str(), x.as_str()) {
            assert(w[i as int] == x@);
            return;
        }
        i = i + 1;
    }
    assert(!w.contains(x@));
    v.push(x);
    assert(strs(v@) =~= w.push(x@));
}

fn token_in(s: &str, tokens: &Vec<String>) -> (r: bool)
    ensures
        r == any_token_in(s@, strs(tokens@)),
{
    let sc = chars_of(s);
    let ghost tv = strs(tokens@);
    let mut i: usize = 0;
    while i < tokens.len()
        invariant
            i <= tokens@.len(),
            tv == strs(tokens@),
            sc@ == s@,
            forall|k: int| 0 <= k < i ==> find_sub(s@, #[trigger] tv[k]) < 0,
        decreases tokens@.len() - i,
    {
        assert(tv[i as int] == tokens@[i as int]@);
        if find_chars(sc.as_slice(), chars_of(tokens[i].as_str()).as_slice()).is_some() {
            return true;
        }
        i = i + 1;
    }
    false
}

fn is_token(x: &str, tokens: &Vec<String>) -> (r: bool)
    ensures
        r == strs(tokens@).contains(x@),
{
    let ghost tv = strs(tokens@);
    let mut i: usize = 0;
    while i < tokens.len()
        invariant
            i <= tokens@.len(),
            tv == strs(tokens@),
            forall|k: int| 0 <= k < i ==> (#[trigger] tv[k]) != x@,
        decreases tokens@.len() - i,
    {
        if str_eq(tokens[i].as_str(), x) {
            assert(tv[i as int] == x@);
            return true;
        }
        i = i + 1;
    }
    false
}

proof fn lemma_split_ws_comma_len(s: Seq<char>)
    ensures
        split_ws_comma(s).len() >= 1,
    decreases s.len(),
{
    if s.len() > 0 {
        lemma_split_ws_comma_len(s.drop_last());
    }
}

fn add_hash_tag(out: &mut Vec<String>, piece: &Vec<char>)
    ensures
        strs(final(out)@) == hash_tags(strs(old(out)@), seq![piece@], 1),
{
    let t = trim_chars(piece.as_slice());
    let ts = string_of(t.as_slice());
    let q = chars_of("q-");
    assert(hash_tags(strs(out@), seq![piece@], 0) == strs(out@));
    assert(seq![piece@][0] == piece@);
    if starts_with_chars(t.as_slice(), q.as_slice()) && ts.as_str().as_bytes().len() > 2 {
        add_unique(out, ts);
    }
}

/// The tags a query resolves to (see `candidate_tags_spec`): `purposes`
/// are `(tag, title)`.
pub fn resolve_candidate_tags(query: &str, purposes: &Vec<(String, String)>, entities: &Vec<EntityTag>) -> (r: Vec<
    String,
>)
    ensures
        strs(r@) == candidate_tags_spec(query@, crate::smart::pairs_view(purposes@), entities@),
{
    let tokens = lowercase_terms(query);
    let ghost tv = strs(tokens@);
    let mut out: Vec<String> = Vec::new();
    if tokens.len() == 0 {
        assert(strs(out@) =~= Seq::<Seq<char>>::empty());
        return out;
    }
    let ghost pv = crate::smart::pairs_view(purposes@);
    assert(strs(out@) =~= Seq::<Seq<char>>::empty());
    let mut i: usize = 0;
    while i < purposes.len()
        invariant
            i <= purposes@.len(),
            tv == strs(tokens@),
            pv == crate::smart::pairs_view(purposes@),
            strs(out@) == purpose_tags(seq![], pv, tv, i as int),
        decreases purposes@.len() - i,
    {
        assert(pv[i as int] == (purposes@[i as int].0@, purposes@[i as int].1@));
        let tl = to_lowercase(purposes[i].0.as_str());
        let hit = if is_token(tl.as_str(), &tokens) {
            true
        } else {
            let til = to_lowercase(purposes[i].1.as_str());
            token_in(til.as_str(), &tokens) || token_in(tl.as_str(), &tokens)
        };
        if hit {
            add_unique(&mut out, purposes[i].0.clone());
        }
        i = i + 1;
    }
    let ghost a = strs(out@);
    let mut j: usize = 0;
    while j < entities.len()
        invariant
            j <= entities@.len(),
            tv == strs(tokens@),
            strs(out@) == entity_tags(a, entities@, tv, j as int),
        decreases entities@.len() - j,
    {
        let e = &entities[j];
        let tl = to_lowercase(e.title.as_str());
        let il = to_lowercase(e.id.as_str());
        if token_in(tl.as_str(), &tokens) || token_in(il.as_str(), &tokens) {
            let mut sv: Vec<char> = chars_of("__entity__:");
            push_str_chars(&mut sv, e.id.as_str());
            add_unique(&mut out, string_of(sv.as_slice()));
            match &e.purpose {
                Some(p) => add_unique(&mut out, p.clone()),
                None => {},
            }
        }
        j = j + 1;
    }
    let ghost b = strs(out@);
    let cs = chars_of(query);
    proof {
        lemma_split_ws_comma_len(Seq::<char>::empty());
        assert(cs@.subrange(0, 0) =~= Seq::<char>::empty());
    }
    let mut cur: Vec<char> = Vec::new();
    let mut k: usize = 0;
    while k < cs.len()
        invariant
            k <= cs@.len(),
            cs@ == query@,
            split_ws_comma(cs@.subrange(0, k as int)).last() == cur@,
            strs(out@) == hash_tags(
                b,
                split_ws_comma(cs@.subrange(0, k as int)),
                split_ws_comma(cs@.subrange(0, k as int)).len() - 1,
            ),
        decreases cs@.len() - k,
    {
        let ghost sp = split_ws_comma(cs@.subrange(0, k as int));
        let ghost sp2 = split_ws_comma(cs@.subrange(0, k + 1));
        proof {
            lemma_split_ws_comma_len(cs@.subrange(0, k as int));
            assert(cs@.subrange(0, k + 1).drop_last() =~= cs@.subrange(0, k as int));
        }
        if crate::text::char_is_whitespace(cs[k]) || cs[k] == ',' {
            let ghost o = strs(out@);
            add_hash_tag(&mut out, &cur);
            proof {
                assert(sp2 =~= sp.push(seq![]));
                assert(sp2.subrange(0, sp.len() as int) =~= sp.subrange(0, sp.len() as int));
                lemma_hash_tags_prefix2(b, sp, sp2, sp.len() as int);
                lemma_hash_tags_step(b, sp, sp.len() - 1, cur@, o);
            }
            cur = Vec::new();
        } else {
            cur.push(cs[k]);
            proof {
                assert(sp2 =~= sp.update(sp.len() - 1, sp.last().push(cs@[k as int])));
                assert(sp.subrange(0, sp.len() - 1) =~= sp2.subrange(0, sp.len() - 1));
                lemma_hash_tags_prefix2(b, sp, sp2, sp.len() - 1);
            }
        }
        k = k + 1;
    }
    proof {
        assert(cs@.subrange(0, cs@.len() as int) =~= cs@);
        lemma_split_ws_comma_len(cs@);
    }
    let ghost o = strs(out@);
    add_hash_tag(&mut out, &cur);
    proof {
        let sp = split_ws_comma(cs@);
        lemma_hash_tags_step(b, sp, sp.len() - 1, cur@, o);
    }
    out
}

proof fn lemma_hash_tags_prefix2(acc: Seq<Seq<char>>, a: Seq<Seq<char>>, b: Seq<Seq<char>>, n: int)
    requires
        0 <= n,
        n <= a.len(),
        n <= b.len(),
        a.subrange(0, n) == b.subrange(0, n),
    ensures
        hash_tags(acc, a, n) == hash_tags(acc, b, n),
    decreases n,
{
    if n > 0 {
        assert(a.subrange(0, n - 1) =~= a.subrange(0, n).subrange(0, n - 1));
        assert(b.subrange(0, n - 1) =~= b.subrange(0, n).subrange(0, n - 1));
        assert(a[n - 1] == a.subrange(0, n)[n - 1]);
        assert(b[n - 1] == b.subrange(0, n)[n - 1]);
        lemma_hash_tags_prefix2(acc, a, b, n - 1);
    }
}

proof fn lemma_hash_tags_step(acc: Seq<Seq<char>>, sp: Seq<Seq<char>>, n: int, piece: Seq<char>, before: Seq<Seq<char>>)
    requires
        0 <= n < sp.len(),
        sp[n] == piece,
        before == hash_tags(acc, sp, n),
    ensures
        hash_tags(before, seq![piece], 1) == hash_tags(acc, sp, n + 1),
{
    assert(hash_tags(before, seq![piece], 0) == before);
}

/// Whether the walk admits a document type: any type without a filter,
/// else the listed ones.
pub fn type_allowed(dt: &str, filter: Option<&Vec<String>>) -> (r: bool)
    ensures
        r == match filter {
            Some(f) => strs(f@).contains(dt@),
            None => true,
        },
{
    match filter {
        None => true,
        Some(f) => {
            let ghost w = strs(f@);
            let mut i: usize = 0;
            while i < f.len()
                invariant
                    i <= f@.len(),
                    w == strs(f@),
                    filter == Some(f),
                    forall|k: int| 0 <= k < i ==> (#[trigger] w[k]) != dt@,
                decreases f@.len() - i,
            {
                if str_eq(f[i].as_str(), dt) {
                    assert(w[i as int] == dt@);
                    assert(strs(f@).contains(dt@));
                    return true;
                }
                i = i + 1;
            }
            false
        },
    }
}

/// The edge kinds the walk follows: the configured ones, else `Answers`,
/// `Derives`, `Consolidates` and `Supports`.
pub fn walk_kinds(kinds: &Option<Vec<String>>) -> (r: Vec<String>)
    ensures
        match kinds {
            Some(k) => strs(r@) == strs(k@),
            None => strs(r@) == seq!["Answers"@, "Derives"@, "Consolidates"@, "Supports"@],
        },
{
    match kinds {
        Some(k) => {
            let mut out: Vec<String> = Vec::new();
            let mut i: usize = 0;
            while i < k.len()
                invariant
                    i <= k@.len(),
                    strs(out@) == strs(k@).subrange(0, i as int),
                decreases k@.len() - i,
            {
                let c = k[i].clone();
                let ghost before = strs(out@);
                out.push(c);
                assert(strs(out@) =~= before.push(k@[i as int]@));
                assert(strs(out@) =~= strs(k@).subrange(0, i + 1));
                i = i + 1;
            }
            assert(strs(k@).subrange(0, k@.len() as int) =~= strs(k@));
            out
        },
        None => {
            let mut out: Vec<String> = Vec::new();
            out.push(string_of(chars_of("Answers").as_slice()));
            out.push(string_of(chars_of("Derives").as_slice()));
            out.push(string_of(chars_of("Consolidates").as_slice()));
            out.push(string_of(chars_of("Supports").as_slice()));
            assert(strs(out@) =~= seq!["Answers"@, "Derives"@, "Consolidates"@, "Supports"@]);
            out
        },
    }
}

// ── Laws of tag resolution ──────────────────────────────────────────────

proof fn lemma_push_unique_keeps(s: Seq<Seq<char>>, x: Seq<char>, y: Seq<char>)
    ensures
        s.contains(y) ==> push_unique(s, x).contains(y),
        push_unique(s, x).contains(x),
{
    if !s.contains(x) {
        assert(s.push(x)[s.len() as int] == x);
        if s.contains(y) {
            let k = choose|k: int| 0 <= k < s.len() && s[k] == y;
            assert(s.push(x)[k] == y);
        }
    }
}

proof fn lemma_purpose_tags_keep(acc: Seq<Seq<char>>, ps: Seq<(Seq<char>, Seq<char>)>, tokens: Seq<Seq<char>>, n: int, y: Seq<char>)
    requires
        acc.contains(y),
    ensures
        purpose_tags(acc, ps, tokens, n).contains(y),
    decreases n,
{
    if 0 < n <= ps.len() {
        lemma_purpose_tags_keep(acc, ps, tokens, n - 1, y);
        lemma_push_unique_keeps(purpose_tags(acc, ps, tokens, n - 1), ps[n - 1].0, y);
    }
}

proof fn lemma_purpose_tags_hit(acc: Seq<Seq<char>>, ps: Seq<(Seq<char>, Seq<char>)>, tokens: Seq<Seq<char>>, n: int, k: int)
    requires
        0 <= k < n <= ps.len(),
        purpose_hit(ps[k].0, ps[k].1, tokens),
    ensures
        purpose_tags(acc, ps, tokens, n).contains(ps[k].0),
    decreases n,
{
    if k == n - 1 {
        lemma_push_unique_keeps(purpose_tags(acc, ps, tokens, n - 1), ps[k].0, ps[k].0);
    } else {
        lemma_purpose_tags_hit(acc, ps, tokens, n - 1, k);
        lemma_push_unique_keeps(purpose_tags(acc, ps, tokens, n - 1), ps[n - 1].0, ps[k].0);
    }
}

proof fn lemma_entity_tags_keep(acc: Seq<Seq<char>>, es: Seq<EntityTag>, tokens: Seq<Seq<char>>, n: int, y: Seq<char>)
    requires
        acc.contains(y),
    ensures
        entity_tags(acc, es, tokens, n).contains(y),
    decreases n,
{
    if 0 < n <= es.len() {
        lemma_entity_tags_keep(acc, es, tokens, n - 1, y);
        let prev = entity_tags(acc, es, tokens, n - 1);
        let e = es[n - 1];
        lemma_push_unique_keeps(prev, entity_seed(e.id@), y);
        match e.purpose {
            Some(p) => lemma_push_unique_keeps(push_unique(prev, entity_seed(e.id@)), p@, y),
            None => {},
        }
    }
}

proof fn lemma_hash_tags_keep(acc: Seq<Seq<char>>, pieces: Seq<Seq<char>>, n: int, y: Seq<char>)
    requires
        acc.contains(y),
    ensures
        hash_tags(acc, pieces, n).contains(y),
    decreases n,
{
    if 0 < n <= pieces.len() {
        lemma_hash_tags_keep(acc, pieces, n - 1, y);
        lemma_push_unique_keeps(hash_tags(acc, pieces, n - 1), trim(pieces[n - 1]), y);
    }
}

/// A purpose is found by its title or its tag: when one of the query's
/// terms (its alphanumeric runs of three bytes or more, lowercased) occurs
/// in the lowercase title or the lowercase tag of a purpose, or is its
/// lowercase tag, that purpose's tag is among the tags the query resolves
/// to.
pub proof fn law_purpose_found_by_title_or_tag(
    query: Seq<char>,
    ps: Seq<(Seq<char>, Seq<char>)>,
    es: Seq<EntityTag>,
    k: int,
    i: int,
)
    requires
        0 <= k < ps.len(),
        0 <= i < query_terms_spec(query).len(),
        find_sub(lowercase(ps[k].1), query_terms_spec(query)[i]) >= 0 || find_sub(
            lowercase(ps[k].0),
            query_terms_spec(query)[i],
        ) >= 0 || lowercase(ps[k].0) == query_terms_spec(query)[i],
    ensures
        candidate_tags_spec(query, ps, es).contains(ps[k].0),
{
    let tokens = query_terms_spec(query);
    if lowercase(ps[k].0) == tokens[i] {
        assert(tokens.contains(lowercase(ps[k].0)));
    }
    assert(purpose_hit(ps[k].0, ps[k].1, tokens));
    let a = purpose_tags(seq![], ps, tokens, ps.len() as int);
    lemma_purpose_tags_hit(seq![], ps, tokens, ps.len() as int, k);
    lemma_entity_tags_keep(a, es, tokens, es.len() as int, ps[k].0);
    let b = entity_tags(a, es, tokens, es.len() as int);
    let pieces = split_ws_comma(query);
    lemma_hash_tags_keep(b, pieces, pieces.len() as int, ps[k].0);
}

/// Each tag is resolved once.
pub proof fn law_candidate_tags_distinct(query: Seq<char>, ps: Seq<(Seq<char>, Seq<char>)>, es: Seq<EntityTag>)
    ensures
        candidate_tags_spec(query, ps, es).no_duplicates(),
{
    let tokens = query_terms_spec(query);
    if tokens.len() > 0 {
        lemma_purpose_tags_distinct(seq![], ps, tokens, ps.len() as int);
        let a = purpose_tags(seq![], ps, tokens, ps.len() as int);
        lemma_entity_tags_distinct(a, es, tokens, es.len() as int);
        let b = entity_tags(a, es, tokens, es.len() as int);
        let pieces = split_ws_comma(query);
        lemma_hash_tags_distinct(b, pieces, pieces.len() as int);
    }
}

proof fn lemma_push_unique_distinct(s: Seq<Seq<char>>, x: Seq<char>)
    requires
        s.no_duplicates(),
    ensures
        push_unique(s, x).no_duplicates(),
{
    if !s.contains(x) {
        let t = s.push(x);
        assert forall|a: int, b: int| 0 <= a < t.len() && 0 <= b < t.len() && a != b implies t[a] != t[b] by {
            if a == s.len() as int {
                assert(t[b] == s[b]);
            } else if b == s.len() as int {
                assert(t[a] == s[a]);
            } else {
                assert(t[a] == s[a] && t[b] == s[b]);
            }
        }
    }
}

proof fn lemma_purpose_tags_distinct(acc: Seq<Seq<char>>, ps: Seq<(Seq<char>, Seq<char>)>, tokens: Seq<Seq<char>>, n: int)
    requires
        acc.no_duplicates(),
    ensures
        purpose_tags(acc, ps, tokens, n).no_duplicates(),
    decreases n,
{
    if 0 < n <= ps.len() {
        lemma_purpose_tags_distinct(acc, ps, tokens, n - 1);
        lemma_push_unique_distinct(purpose_tags(acc, ps, tokens, n - 1), ps[n - 1].0);
    }
}

proof fn lemma_entity_tags_distinct(acc: Seq<Seq<char>>, es: Seq<EntityTag>, tokens: Seq<Seq<char>>, n: int)
    requires
        acc.no_duplicates(),
    ensures
        entity_tags(acc, es, tokens, n).no_duplicates(),
    decreases n,
{
    if 0 < n <= es.len() {
        lemma_entity_tags_distinct(acc, es, tokens, n - 1);
        let prev = entity_tags(acc, es, tokens, n - 1);
        let e = es[n - 1];
        lemma_push_unique_distinct(prev, entity_seed(e.id@));
        match e.purpose {
            Some(p) => lemma_push_unique_distinct(push_unique(prev, entity_seed(e.id@)), p@),
            None => {},
        }
    }
}

proof fn lemma_hash_tags_distinct(acc: Seq<Seq<char>>, pieces: Seq<Seq<char>>, n: int)
    requires
        acc.no_duplicates(),
    ensures
        hash_tags(acc, pieces, n).no_duplicates(),
    decreases n,
{
    if 0 < n <= pieces.len() {
        lemma_hash_tags_distinct(acc, pieces, n - 1);
        lemma_push_unique_distinct(hash_tags(acc, pieces, n - 1), trim(pieces[n - 1]));
    }
}

/// Whether the query term `t` picks out a text: it occurs in it.
pub open spec fn term_in(text: Seq<char>, t: Seq<char>) -> bool {
    find_sub(text, t) >= 0
}

/// Why a tag may be among those a query resolves to: it is the tag of a
/// purpose whose lowercase tag is a query term or holds one, or whose
/// lowercase title holds one; the seed tag or the purpose of an entity
/// whose lowercase title or id holds a query term; or a `q-` tag written in
/// the query.
pub open spec fn tag_reason(query: Seq<char>, ps: Seq<(Seq<char>, Seq<char>)>, es: Seq<EntityTag>, y: Seq<char>) -> bool {
    let tokens = query_terms_spec(query);
    ||| exists|k: int, i: int|
        0 <= k < ps.len() && 0 <= i < tokens.len() && (#[trigger] ps[k]).0 == y && (lowercase(ps[k].0)
            == #[trigger] tokens[i] || term_in(lowercase(ps[k].1), tokens[i]) || term_in(lowercase(ps[k].0), tokens[i]))
    ||| exists|k: int, i: int|
        0 <= k < es.len() && 0 <= i < tokens.len() && (term_in(lowercase((#[trigger] es[k]).title@), #[trigger] tokens[i])
            || term_in(lowercase(es[k].id@), tokens[i])) && (y == entity_seed(es[k].id@) || (es[k].purpose matches Some(
            p) && p@ == y))
    ||| exists|k: int|
        0 <= k < split_ws_comma(query).len() && y == trim(#[trigger] split_ws_comma(query)[k]) && has_prefix(y, "q-"@)
}

proof fn lemma_push_unique_from(s: Seq<Seq<char>>, x: Seq<char>, y: Seq<char>)
    ensures
        push_unique(s, x).contains(y) ==> s.contains(y) || y == x,
{
    if push_unique(s, x).contains(y) && !s.contains(x) {
        let k = choose|k: int| 0 <= k < s.len() + 1 && s.push(x)[k] == y;
        if k < s.len() {
            assert(s[k] == y);
        }
    }
}

proof fn lemma_purpose_tags_from(acc: Seq<Seq<char>>, ps: Seq<(Seq<char>, Seq<char>)>, tokens: Seq<Seq<char>>, n: int, y: Seq<char>)
    requires
        n <= ps.len(),
        purpose_tags(acc, ps, tokens, n).contains(y),
    ensures
        acc.contains(y) || exists|k: int| 0 <= k < n && (#[trigger] ps[k]).0 == y && purpose_hit(ps[k].0, ps[k].1, tokens),
    decreases n,
{
    if 0 < n {
        let prev = purpose_tags(acc, ps, tokens, n - 1);
        if purpose_hit(ps[n - 1].0, ps[n - 1].1, tokens) {
            lemma_push_unique_from(prev, ps[n - 1].0, y);
        }
        if prev.contains(y) {
            lemma_purpose_tags_from(acc, ps, tokens, n - 1, y);
        }
    }
}

proof fn lemma_entity_tags_from(acc: Seq<Seq<char>>, es: Seq<EntityTag>, tokens: Seq<Seq<char>>, n: int, y: Seq<char>)
    requires
        n <= es.len(),
        entity_tags(acc, es, tokens, n).contains(y),
    ensures
        acc.contains(y) || exists|k: int|
            0 <= k < n && (any_token_in(lowercase((#[trigger] es[k]).title@), tokens) || any_token_in(
                lowercase(es[k].id@),
                tokens,
            )) && (y == entity_seed(es[k].id@) || (es[k].purpose matches Some(p) && p@ == y)),
    decreases n,
{
    if 0 < n {
        let prev = entity_tags(acc, es, tokens, n - 1);
        let e = es[n - 1];
        if any_token_in(lowercase(e.title@), tokens) || any_token_in(lowercase(e.id@), tokens) {
            let a = push_unique(prev, entity_seed(e.id@));
            match e.purpose {
                Some(p) => {
                    lemma_push_unique_from(a, p@, y);
                },
                None => {},
            }
            lemma_push_unique_from(prev, entity_seed(e.id@), y);
        }
        if prev.contains(y) {
            lemma_entity_tags_from(acc, es, tokens, n - 1, y);
        }
    }
}

proof fn lemma_hash_tags_from(acc: Seq<Seq<char>>, pieces: Seq<Seq<char>>, n: int, y: Seq<char>)
    requires
        n <= pieces.len(),
        hash_tags(acc, pieces, n).contains(y),
    ensures
        acc.contains(y) || exists|k: int| 0 <= k < n && y == trim(#[trigger] pieces[k]) && has_prefix(y, "q-"@),
    decreases n,
{
    if 0 < n {
        let prev = hash_tags(acc, pieces, n - 1);
        let t = trim(pieces[n - 1]);
        if has_prefix(t, "q-"@) && vstd::utf8::encode_utf8(t).len() > 2 {
            lemma_push_unique_from(prev, t, y);
        }
        if prev.contains(y) {
            lemma_hash_tags_from(acc, pieces, n - 1, y);
        }
    }
}

/// Nothing is resolved without a reason: each tag a query resolves to is
/// the tag of a purpose the query matches, the seed tag or purpose of an
/// entity whose lowercase title or id holds a query term, or a `q-` tag
/// written in the query.
pub proof fn law_candidate_tags_have_reasons(query: Seq<char>, ps: Seq<(Seq<char>, Seq<char>)>, es: Seq<EntityTag>, y: Seq<char>)
    requires
        candidate_tags_spec(query, ps, es).contains(y),
    ensures
        tag_reason(query, ps, es, y),
{
    let tokens = query_terms_spec(query);
    let a = purpose_tags(seq![], ps, tokens, ps.len() as int);
    let b = entity_tags(a, es, tokens, es.len() as int);
    let pieces = split_ws_comma(query);
    lemma_hash_tags_from(b, pieces, pieces.len() as int, y);
    if b.contains(y) {
        lemma_entity_tags_from(a, es, tokens, es.len() as int, y);
        if a.contains(y) {
            lemma_purpose_tags_from(seq![], ps, tokens, ps.len() as int, y);
            let k = choose|k: int| 0 <= k < ps.len() && (#[trigger] ps[k]).0 == y && purpose_hit(ps[k].0, ps[k].1, tokens);
            if tokens.contains(lowercase(ps[k].0)) {
                let i = choose|i: int| 0 <= i < tokens.len() && tokens[i] == lowercase(ps[k].0);
                assert(lowercase(ps[k].0) == tokens[i]);
            } else if any_token_in(lowercase(ps[k].1), tokens) {
                let i = choose|i: int| 0 <= i < tokens.len() && find_sub(lowercase(ps[k].1), #[trigger] tokens[i]) >= 0;
                assert(term_in(lowercase(ps[k].1), tokens[i]));
            } else {
                let i = choose|i: int| 0 <= i < tokens.len() && find_sub(lowercase(ps[k].0), #[trigger] tokens[i]) >= 0;
                assert(term_in(lowercase(ps[k].0), tokens[i]));
            }
        } else {
            let k = choose|k: int|
                0 <= k < es.len() && (any_token_in(lowercase((#[trigger] es[k]).title@), tokens) || any_token_in(
                    lowercase(es[k].id@),
                    tokens,
                )) && (y == entity_seed(es[k].id@) || (es[k].purpose matches Some(p) && p@ == y));
            if any_token_in(lowercase(es[k].title@), tokens) {
                let i = choose|i: int| 0 <= i < tokens.len() && find_sub(lowercase(es[k].title@), #[trigger] tokens[i]) >= 0;
                assert(term_in(lowercase(es[k].title@), tokens[i]));
            } else {
                let i = choose|i: int| 0 <= i < tokens.len() && find_sub(lowercase(es[k].id@), #[trigger] tokens[i]) >= 0;
                assert(term_in(lowercase(es[k].id@), tokens[i]));
            }
        }
    }
}

} // verus!
