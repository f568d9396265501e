//! Densifying the graph around a document: which neighbours are offered
//! for scoring, and which scored edges are created.

use vstd::prelude::*;
use crate::learn::infra::{allowed_kind, allowed_kind_spec};
use crate::text::{chars_of, push_str_chars, str_eq, string_of, trim, trim_str};

verus! {

pub open spec fn strs(v: Seq<String>) -> Seq<Seq<char>> {
    v.map_values(|s: String| s@)
}

fn contains_str(v: &Vec<String>, x: &str) -> (r: bool)
    ensures
        r == strs(v@).contains(x@),
{
    let ghost w = strs(v@);
    let mut i: usize = 0;
    while i < v.len()
        invariant
            i <= v@.len(),
            w == strs(v@),
            forall|k: int| 0 <= k < i ==> (#[trigger] w[k]) != x@,
        decreases v@.len() - i,
    {
        if str_eq(v[i].as_str(), x) {
            assert(w[i as int] == x@);
            return true;
        }
        i = i + 1;
    }
    false
}

/// The documents a document already points at: the targets of its
/// reasons (`(from, to)`) that leave it, each once, in order.
pub open spec fn outbound_spec(metas: Seq<(Seq<char>, Seq<char>)>, from_id: Seq<char>) -> Seq<Seq<char>>
    decreases metas.len(),
{
    if metas.len() == 0 {
        seq![]
    } else {
        let prev = outbound_spec(metas.drop_last(), from_id);
        let (f, t) = metas.last();
        if f == from_id && !prev.contains(t) {
            prev.push(t)
        } else {
            prev
        }
    }
}

pub open spec fn pairs_view(v: Seq<(String, String)>) -> Seq<(Seq<char>, Seq<char>)> {
    v.map_values(|p: (String, String)| (p.0@, p.1@))
}

/// The documents a document already points at (see `outbound_spec`),
/// from the `(from, to)` of the reasons on its side of the graph.
pub fn existing_outbound_targets(metas: &Vec<(String, String)>, from_id: &str) -> (r: Vec<String>)
    ensures
        strs(r@) == outbound_spec(pairs_view(metas@), from_id@),
{
    let ghost mv = pairs_view(metas@);
    let mut out: Vec<String> = Vec::new();
    let mut i: usize = 0;
    while i < metas.len()
        invariant
            i <= metas@.len(),
            mv == pairs_view(metas@),
            strs(out@) == outbound_spec(mv.subrange(0, i as int), from_id@),
        decreases metas@.len() - i,
    {
        assert(mv.subrange(0, i + 1).drop_last() =~= mv.subrange(0, i as int));
        assert(mv[i as int] == (metas@[i as int].0@, metas@[i as int].1@));
        if str_eq(metas[i].0.as_str(), from_id) && !contains_str(&out, metas[i].1.as_str()) {
            let ghost before = strs(out@);
            out.push(metas[i].1.clone());
            assert(strs(out@) =~= before.push(metas@[i as int].1@));
        }
        i = i + 1;
    }
    assert(mv.subrange(0, metas@.len() as int) =~= mv);
    out
}

/// The neighbours offered for scoring: each search result other than the
/// document itself and those it already points at, that is a document
/// (its type known), with that type, in order.
pub open spec fn offered_spec(
    results: Seq<(Seq<char>, Option<Seq<char>>)>,
    self_id: Seq<char>,
    already: Seq<Seq<char>>,
) -> Seq<(Seq<char>, Seq<char>)>
    decreases results.len(),
{
    if results.len() == 0 {
        seq![]
    } else {
        let prev = offered_spec(results.drop_last(), self_id, already);
        let (id, dt) = results.last();
        if id == self_id || already.contains(id) {
            prev
        } else {
            match dt {
                Some(t) => prev.push((id, t)),
                None => prev,
            }
        }
    }
}

pub open spec fn results_view(v: Seq<(String, Option<String>)>) -> Seq<(Seq<char>, Option<Seq<char>>)> {
    v.map_values(|r: (String, Option<String>)| (r.0@, match r.1 {
        Some(t) => Some(t@),
        None => None,
    }))
}

/// The neighbours offered for scoring (see `offered_spec`): each result's
/// id with the type of the document found under it, if any.
pub fn offered_candidates(results: &Vec<(String, Option<String>)>, self_id: &str, already: &Vec<String>) -> (r: Vec<
    (String, String),
>)
    ensures
        pairs_view(r@) == offered_spec(results_view(results@), self_id@, strs(already@)),
{
    let ghost rv = results_view(results@);
    let mut out: Vec<(String, String)> = Vec::new();
    let mut i: usize = 0;
    while i < results.len()
        invariant
            i <= results@.len(),
            rv == results_view(results@),
            pairs_view(out@) == offered_spec(rv.subrange(0, i as int), self_id@, strs(already@)),
        decreases results@.len() - i,
    {
        assert(rv.subrange(0, i + 1).drop_last() =~= rv.subrange(0, i as int));
        let (id, dt) = &results[i];
        assert(rv[i as int].0 == id@);
        if !str_eq(id.as_str(), self_id) && !contains_str(already, id.as_str()) {
            match dt {
                Some(t) => {
                    let ghost before = pairs_view(out@);
                    out.push((id.clone(), t.clone()));
                    assert(pairs_view(out@) =~= before.push((id@, t@)));
                },
                None => {},
            }
        }
        i = i + 1;
    }
    assert(rv.subrange(0, results@.len() as int) =~= rv);
    out
}

/// A scored edge as the model returned it: the candidate, whether its
/// score reached the threshold, the kind and reason given, and the score
/// as text.
#[derive(Debug, Clone)]
pub struct ScoredEdge {
    pub picked_id: String,
    pub strong: bool,
    pub kind: String,
    pub body: String,
    pub score_text: String,
}

/// The reason text of an edge: the one given, or, when that is blank,
/// `connect: <kind> (score <score>)`.
pub open spec fn edge_body(c: ScoredEdge) -> Seq<char> {
    if trim(c.body@).len() == 0 {
        "connect: "@ + allowed_kind_spec(c.kind@) + " (score "@ + c.score_text@ + ")"@
    } else {
        c.body@
    }
}

/// The edges created from scored candidates, `(target, kind, body)`: each
/// strong one to an offered document not yet pointed at, its kind made
/// canonical.
pub open spec fn edges_spec(cs: Seq<ScoredEdge>, offered: Seq<Seq<char>>, already: Seq<Seq<char>>) -> Seq<
    (Seq<char>, Seq<char>, Seq<char>),
>
    decreases cs.len(),
{
    if cs.len() == 0 {
        seq![]
    } else {
        let prev = edges_spec(cs.drop_last(), offered, already);
        let c = cs.last();
        if c.strong && offered.contains(c.picked_id@) && !already.contains(c.picked_id@) {
            prev.push((c.picked_id@, allowed_kind_spec(c.kind@), edge_body(c)))
        } else {
            prev
        }
    }
}

pub open spec fn triples_view(v: Seq<(String, String, String)>) -> Seq<(Seq<char>, Seq<char>, Seq<char>)> {
    v.map_values(|t: (String, String, String)| (t.0@, t.1@, t.2@))
}

fn body_of(c: &ScoredEdge) -> (r: String)
    ensures
        r@ == edge_body(*c),
{
    let t = trim_str(c.body.as_str());
    if chars_of(t.as_str()).len() == 0 {
        let mut v: Vec<char> = Vec::new();
        push_str_chars(&mut v, "connect: ");
        push_str_chars(&mut v, allowed_kind(c.kind.as_str()));
        push_str_chars(&mut v, " (score ");
        push_str_chars(&mut v, c.score_text.as_str());
        push_str_chars(&mut v, ")");
        string_of(v.as_slice())
    } else {
        c.body.clone()
    }
}

/// The edges created from scored candidates (see `edges_spec`), given the
/// ids offered and those already pointed at.
pub fn connect_edges(scored: &Vec<ScoredEdge>, offered: &Vec<String>, already: &Vec<String>) -> (r: Vec<
    (String, String, String),
>)
    ensures
        triples_view(r@) == edges_spec(scored@, strs(offered@), strs(already@)),
{
    let mut out: Vec<(String, String, String)> = Vec::new();
    let mut i: usize = 0;
    while i < scored.len()
        invariant
            i <= scored@.len(),
            triples_view(out@) == edges_spec(scored@.subrange(0, i as int), strs(offered@), strs(already@)),
        decreases scored@.len() - i,
    {
        assert(scored@.subrange(0, i + 1).drop_last() =~= scored@.subrange(0, i as int));
        let c = &scored[i];
        if c.strong && contains_str(offered, c.picked_id.as_str()) && !contains_str(
            already,
            c.picked_id.as_str(),
        ) {
            let ghost before = triples_view(out@);
            let kind = allowed_kind(c.kind.as_str());
            out.push((c.picked_id.clone(), kind.to_owned(), body_of(c)));
            assert(triples_view(out@) =~= before.push((c.picked_id@, allowed_kind_spec(c.kind@), edge_body(*c))));
        }
        i = i + 1;
    }
    assert(scored@.subrange(0, scored@.len() as int) =~= scored@);
    out
}

/// No edge is created twice: none of the created edges goes to a document
/// that was already pointed at.
pub proof fn law_no_duplicate_edge(cs: Seq<ScoredEdge>, offered: Seq<Seq<char>>, already: Seq<Seq<char>>, k: int)
    requires
        0 <= k < edges_spec(cs, offered, already).len(),
    ensures
        !already.contains(edges_spec(cs, offered, already)[k].0),
        offered.contains(edges_spec(cs, offered, already)[k].0),
    decreases cs.len(),
{
    let prev = edges_spec(cs.drop_last(), offered, already);
    if k < prev.len() {
        law_no_duplicate_edge(cs.drop_last(), offered, already, k);
    }
}

} // verus!
