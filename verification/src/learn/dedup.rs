//! Folding paragraphs that repeat an entity into that entity: which
//! paragraphs are compared, which entity a paragraph is folded into, and
//! the body that is left with the merges it records.

use vstd::prelude::*;
use vstd::string::StringSliceAdditionalSpecFns;
use crate::chunker::{split_blocks, split_str_from};
use crate::io::{fnv64, fnv64_bytes};
use crate::learn::infra::EntityRef;
use crate::unicode::{lowercase, to_lowercase};
use crate::text::{find_from, hex, hex_string, join_with, occurs_at, push_joined_strings, str_eq, string_of, trim, trim_str};

verus! {

/// The blocks of a body: its pieces between blank lines.
pub open spec fn blocks(body: Seq<char>) -> Seq<Seq<char>> {
    split_str_from(body, seq!['\n', '\n'], 0)
}

/// A block compared against the entities: trimmed, at least forty bytes.
pub open spec fn is_candidate(p: Seq<char>) -> bool {
    vstd::utf8::encode_utf8(trim(p)).len() >= 40
}

/// The candidate blocks from `i` on: index and trimmed text.
pub open spec fn cands_from(ps: Seq<Seq<char>>, i: int) -> Seq<(int, Seq<char>)>
    decreases ps.len() - i,
{
    if i < 0 || i >= ps.len() {
        seq![]
    } else if is_candidate(ps[i]) {
        seq![(i, trim(ps[i]))] + cands_from(ps, i + 1)
    } else {
        cands_from(ps, i + 1)
    }
}

pub open spec fn candidates_spec(body: Seq<char>) -> Seq<(int, Seq<char>)> {
    cands_from(blocks(body), 0)
}

pub open spec fn cand_view(v: Seq<(usize, String)>) -> Seq<(int, Seq<char>)> {
    v.map_values(|c: (usize, String)| (c.0 as int, c.1@))
}

/// The blocks of `body` compared against the entities (see
/// `candidates_spec`).
pub fn dedupe_candidates(body: &str) -> (r: Vec<(usize, String)>)
    ensures
        cand_view(r@) == candidates_spec(body@),
{
    let ps = split_blocks(body);
    let ghost pv = ps@.map_values(|p: String| p@);
    let mut out: Vec<(usize, String)> = Vec::new();
    let mut i: usize = 0;
    while i < ps.len()
        invariant
            i <= ps@.len(),
            pv == ps@.map_values(|p: String| p@),
            pv == blocks(body@),
            cand_view(out@) + cands_from(pv, i as int) == candidates_spec(body@),
        decreases ps@.len() - i,
    {
        assert(pv[i as int] == ps@[i as int]@);
        let t = trim_str(ps[i].as_str());
        let ghost before = cand_view(out@);
        if t.as_str().as_bytes().len() >= 40 {
            out.push((i, t));
            assert(cand_view(out@) =~= before.push((i as int, trim(pv[i as int]))));
            assert(before.push((i as int, trim(pv[i as int]))) + cands_from(pv, i + 1) =~= before + (seq![
                (i as int, trim(pv[i as int])),
            ] + cands_from(pv, i + 1)));
        }
        i = i + 1;
    }
    assert(cand_view(out@) + Seq::<(int, Seq<char>)>::empty() =~= cand_view(out@));
    out
}

/// The entity a paragraph is folded into: the first one, other than the
/// document itself, that it was found close to (`passes`, one per entity).
pub open spec fn pick_from(es: Seq<EntityRef>, self_id: Seq<char>, passes: Seq<bool>, k: int) -> Option<Seq<char>>
    decreases es.len() - k,
{
    if k < 0 || k >= es.len() || k >= passes.len() {
        None
    } else if es[k].id@ != self_id && passes[k] {
        Some(es[k].id@)
    } else {
        pick_from(es, self_id, passes, k + 1)
    }
}

/// The entity a paragraph is folded into (see `pick_from`).
pub fn pick_entity(entities: &Vec<EntityRef>, self_id: &str, passes: &Vec<bool>) -> (r: Option<String>)
    ensures
        match r {
            Some(id) => pick_from(entities@, self_id@, passes@, 0) == Some(id@),
            None => pick_from(entities@, self_id@, passes@, 0) is None,
        },
{
    let mut k: usize = 0;
    while k < entities.len() && k < passes.len()
        invariant
            k <= entities@.len(),
            pick_from(entities@, self_id@, passes@, 0) == pick_from(entities@, self_id@, passes@, k as int),
        decreases entities@.len() - k,
    {
        if !str_eq(entities[k].id.as_str(), self_id) && passes[k] {
            return Some(entities[k].id.clone());
        }
        k = k + 1;
    }
    None
}

/// Whether an entity is named `t` (lowercase): its title or one of its
/// aliases, lowercased.
pub open spec fn named(e: EntityRef, t: Seq<char>) -> bool {
    lowercase(e.title@) == t || exists|k: int| 0 <= k < e.aliases@.len() && lowercase(#[trigger] e.aliases@[k]@) == t
}

/// The first entity named as a new title, trimmed, ignoring case.
pub open spec fn title_match_from(es: Seq<EntityRef>, t: Seq<char>, k: int) -> Option<int>
    decreases es.len() - k,
{
    if k < 0 || k >= es.len() {
        None
    } else if named(es[k], t) {
        Some(k)
    } else {
        title_match_from(es, t, k + 1)
    }
}

fn is_named(e: &EntityRef, t: &str) -> (r: bool)
    ensures
        r == named(*e, t@),
{
    if str_eq(to_lowercase(e.title.as_str()).as_str(), t) {
        return true;
    }
    let mut k: usize = 0;
    while k < e.aliases.len()
        invariant
            k <= e.aliases@.len(),
            forall|m: int| 0 <= m < k ==> lowercase(#[trigger] e.aliases@[m]@) != t@,
        decreases e.aliases@.len() - k,
    {
        if str_eq(to_lowercase(e.aliases[k].as_str()).as_str(), t) {
            return true;
        }
        k = k + 1;
    }
    false
}

/// The entity a new document's title names (see `title_match_from`):
/// its index among `entities`.
pub fn entity_by_title(entities: &Vec<EntityRef>, title: &str) -> (r: Option<usize>)
    ensures
        match r {
            Some(k) => title_match_from(entities@, lowercase(trim(title@)), 0) == Some(k as int),
            None => title_match_from(entities@, lowercase(trim(title@)), 0) is None,
        },
{
    let t = to_lowercase(trim_str(title).as_str());
    let mut k: usize = 0;
    while k < entities.len()
        invariant
            k <= entities@.len(),
            t@ == lowercase(trim(title@)),
            title_match_from(entities@, t@, 0) == title_match_from(entities@, t@, k as int),
        decreases entities@.len() - k,
    {
        if is_named(&entities[k], t.as_str()) {
            return Some(k);
        }
        k = k + 1;
    }
    None
}

/// The fingerprint a merge records of a paragraph: the hexadecimal FNV-1a
/// hash of its bytes.
pub open spec fn fingerprint(p: Seq<char>) -> Seq<char> {
    hex(fnv64_bytes(vstd::utf8::encode_utf8(p)) as nat)
}

/// Blocks `i..` kept, and the merges of those folded: candidate `j` on is
/// folded when its match is an entity.
pub open spec fn fold_from(
    ps: Seq<Seq<char>>,
    cs: Seq<(int, Seq<char>)>,
    ms: Seq<Option<Seq<char>>>,
    i: int,
    j: int,
) -> (Seq<Seq<char>>, Seq<(Seq<char>, Seq<char>)>)
    decreases ps.len() - i,
{
    if i < 0 || i >= ps.len() {
        (seq![], seq![])
    } else if 0 <= j < cs.len() && cs[j].0 == i {
        let rest = fold_from(ps, cs, ms, i + 1, j + 1);
        if j < ms.len() && ms[j] is Some {
            (rest.0, seq![(ms[j]->0, fingerprint(cs[j].1))] + rest.1)
        } else {
            (seq![ps[i]] + rest.0, rest.1)
        }
    } else {
        let rest = fold_from(ps, cs, ms, i + 1, j);
        (seq![ps[i]] + rest.0, rest.1)
    }
}

/// The body left after folding and the merges, `(entity, fingerprint)`:
/// `ms[j]` is the entity candidate `j` was matched to, if any (matches
/// past the candidates are ignored). The kept blocks are joined by blank
/// lines; without candidates the body is left as it is.
pub open spec fn fold_spec(body: Seq<char>, ms: Seq<Option<Seq<char>>>) -> (Seq<char>, Seq<(Seq<char>, Seq<char>)>) {
    let cs = candidates_spec(body);
    if cs.len() == 0 {
        (body, seq![])
    } else {
        let f = fold_from(blocks(body), cs, ms, 0, 0);
        (join_with(f.0, seq!['\n', '\n']), f.1)
    }
}

pub open spec fn opt_view(v: Seq<Option<String>>) -> Seq<Option<Seq<char>>> {
    v.map_values(|o: Option<String>| match o {
        Some(s) => Some(s@),
        None => None,
    })
}

pub open spec fn merges_view(v: Seq<(String, String)>) -> Seq<(Seq<char>, Seq<char>)> {
    v.map_values(|p: (String, String)| (p.0@, p.1@))
}

/// Folds matched paragraphs out of a body (see `fold_spec`).
pub fn fold_paragraphs(body: &str, matches: &Vec<Option<String>>) -> (r: (String, Vec<(String, String)>))
    ensures
        (r.0@, merges_view(r.1@)) == fold_spec(body@, opt_view(matches@)),
{
    let cs = dedupe_candidates(body);
    if cs.len() == 0 {
        return (body.to_owned(), Vec::new());
    }
    let ps = split_blocks(body);
    let ghost pv = ps@.map_values(|p: String| p@);
    let ghost cv = cand_view(cs@);
    let ghost mv = opt_view(matches@);
    let ghost goal = fold_from(pv, cv, mv, 0, 0);
    let mut kept: Vec<String> = Vec::new();
    let mut merges: Vec<(String, String)> = Vec::new();
    let mut i: usize = 0;
    let mut j: usize = 0;
    while i < ps.len()
        invariant
            i <= ps@.len(),
            j <= cs@.len(),
            pv == ps@.map_values(|p: String| p@),
            cv == cand_view(cs@),
            mv == opt_view(matches@),
            goal == fold_from(pv, cv, mv, 0, 0),
            kept@.map_values(|p: String| p@) + fold_from(pv, cv, mv, i as int, j as int).0 == goal.0,
            merges_view(merges@) + fold_from(pv, cv, mv, i as int, j as int).1 == goal.1,
        decreases ps@.len() - i,
    {
        assert(pv[i as int] == ps@[i as int]@);
        let ghost kb = kept@.map_values(|p: String| p@);
        let ghost mb = merges_view(merges@);
        if j < cs.len() && cs[j].0 == i {
            assert(cv[j as int] == (cs@[j as int].0 as int, cs@[j as int].1@));
            let ghost rest = fold_from(pv, cv, mv, i + 1, j + 1);
            if j < matches.len() && matches[j].is_some() {
                let id = matches[j].clone().unwrap();
                assert(mv[j as int] == Some(id@));
                let h = fnv64(cs[j].1.as_str());
                let fp = hex_string(h);
                merges.push((id, fp));
                assert(merges_view(merges@) =~= mb.push((mv[j as int]->0, fingerprint(cv[j as int].1))));
                assert(mb.push((mv[j as int]->0, fingerprint(cv[j as int].1))) + rest.1 =~= mb + (seq![
                    (mv[j as int]->0, fingerprint(cv[j as int].1)),
                ] + rest.1));
            } else {
                proof {
                    if j < matches@.len() {
                        assert(mv[j as int] is None);
                    }
                }
                kept.push(ps[i].clone());
                assert(kept@.map_values(|p: String| p@) =~= kb.push(pv[i as int]));
                assert(kb.push(pv[i as int]) + rest.0 =~= kb + (seq![pv[i as int]] + rest.0));
            }
            j = j + 1;
        } else {
            let ghost rest = fold_from(pv, cv, mv, i + 1, j as int);
            kept.push(ps[i].clone());
            assert(kept@.map_values(|p: String| p@) =~= kb.push(pv[i as int]));
            assert(kb.push(pv[i as int]) + rest.0 =~= kb + (seq![pv[i as int]] + rest.0));
        }
        i = i + 1;
    }
    assert(kept@.map_values(|p: String| p@) + Seq::<Seq<char>>::empty() =~= kept@.map_values(|p: String| p@));
    assert(merges_view(merges@) + Seq::<(Seq<char>, Seq<char>)>::empty() =~= merges_view(merges@));
    let mut out: Vec<char> = Vec::new();
    push_joined_strings(&mut out, &kept, 0, kept.len(), "\n\n");
    proof {
        reveal_strlit("\n\n");
        assert("\n\n"@ =~= seq!['\n', '\n']);
        assert(kept@.map_values(|p: String| p@).subrange(0, kept@.len() as int) =~= kept@.map_values(
            |p: String| p@,
        ));
    }
    (string_of(out.as_slice()), merges)
}

proof fn lemma_join_cons(a: Seq<char>, rest: Seq<Seq<char>>, sep: Seq<char>)
    requires
        rest.len() > 0,
    ensures
        join_with(seq![a] + rest, sep) == a + sep + join_with(rest, sep),
    decreases rest.len(),
{
    let all = seq![a] + rest;
    if rest.len() == 1 {
        assert(all.drop_last() =~= seq![a]);
        assert(join_with(all.drop_last(), sep) == a);
        assert(all.last() == rest[0]);
        assert(join_with(all, sep) == a + sep + rest[0]);
    } else {
        lemma_join_cons(a, rest.drop_last(), sep);
        assert(all.drop_last() =~= seq![a] + rest.drop_last());
        assert(all.last() == rest.last());
        assert(join_with(all, sep) == (a + sep + join_with(rest.drop_last(), sep)) + sep + rest.last());
        assert(join_with(rest, sep) == join_with(rest.drop_last(), sep) + sep + rest.last());
        assert((a + sep + join_with(rest.drop_last(), sep)) + sep + rest.last() =~= a + sep + (join_with(
            rest.drop_last(),
            sep,
        ) + sep + rest.last()));
    }
}

proof fn lemma_split_join(s: Seq<char>, sep: Seq<char>, i: int)
    requires
        sep.len() > 0,
        0 <= i <= s.len(),
    ensures
        split_str_from(s, sep, i).len() > 0,
        join_with(split_str_from(s, sep, i), sep) == s.subrange(i, s.len() as int),
    decreases s.len() - i,
{
    crate::text::lemma_find_from(s, sep, i);
    let f = find_from(s, sep, i);
    if f >= 0 {
        lemma_split_join(s, sep, f + sep.len());
        let rest = split_str_from(s, sep, f + sep.len());
        lemma_join_cons(s.subrange(i, f), rest, sep);
        assert(occurs_at(s, sep, f));
        assert(s.subrange(i, f) + sep + s.subrange(f + sep.len(), s.len() as int) =~= s.subrange(i, s.len() as int));
    }
}

proof fn lemma_fold_none(
    ps: Seq<Seq<char>>,
    cs: Seq<(int, Seq<char>)>,
    ms: Seq<Option<Seq<char>>>,
    i: int,
    j: int,
)
    requires
        0 <= i <= ps.len(),
        forall|k: int| 0 <= k < ms.len() ==> (#[trigger] ms[k]) is None,
    ensures
        fold_from(ps, cs, ms, i, j) == (ps.subrange(i, ps.len() as int), Seq::<(Seq<char>, Seq<char>)>::empty()),
    decreases ps.len() - i,
{
    if i < ps.len() {
        if 0 <= j < cs.len() && cs[j].0 == i {
            lemma_fold_none(ps, cs, ms, i + 1, j + 1);
        } else {
            lemma_fold_none(ps, cs, ms, i + 1, j);
        }
        assert(seq![ps[i]] + ps.subrange(i + 1, ps.len() as int) =~= ps.subrange(i, ps.len() as int));
    }
}

/// A body none of whose paragraphs repeats an entity is left exactly as it
/// was, and nothing is merged.
pub proof fn law_distinct_body_kept(body: Seq<char>, ms: Seq<Option<Seq<char>>>)
    requires
        forall|k: int| 0 <= k < ms.len() ==> (#[trigger] ms[k]) is None,
    ensures
        fold_spec(body, ms) == (body, Seq::<(Seq<char>, Seq<char>)>::empty()),
{
    let ps = blocks(body);
    lemma_split_join(body, seq!['\n', '\n'], 0);
    lemma_fold_none(ps, candidates_spec(body), ms, 0, 0);
    assert(ps.subrange(0, ps.len() as int) =~= ps);
    assert(body.subrange(0, body.len() as int) =~= body);
}

} // verus!
