//! Promotion bookkeeping: the purposes whose documents support a question
//! or candidate, when a question calls for cross-topic synthesis, and the
//! tags of a conclusion that bridges purposes.

use vstd::prelude::*;
use crate::text::{chars_of, push_str_chars, str_eq, string_of};

verus! {

/// A reason arriving at a document: the document it leaves, its kind, and
/// the purpose of that document when it was found and has one.
#[derive(Debug, Clone)]
pub struct InboundEdge {
    pub from_id: String,
    pub kind: String,
    pub source_purpose: Option<String>,
}

pub open spec fn supports_word() -> Seq<char> {
    seq!['S', 'u', 'p', 'p', 'o', 'r', 't', 's']
}

/// The purpose an edge contributes: that of the source of a `Supports`
/// edge, when non-empty.
pub open spec fn edge_purpose(e: InboundEdge) -> Option<Seq<char>> {
    match e.source_purpose {
        Some(p) => if e.kind@ == supports_word() && p@.len() > 0 {
            Some(p@)
        } else {
            None
        },
        None => None,
    }
}

/// Distinct purposes contributed by `edges`, in order of first appearance.
pub open spec fn support_list(edges: Seq<InboundEdge>) -> Seq<Seq<char>>
    decreases edges.len(),
{
    if edges.len() == 0 {
        seq![]
    } else {
        let prev = support_list(edges.drop_last());
        match edge_purpose(edges.last()) {
            Some(p) => if prev.contains(p) {
                prev
            } else {
                prev.push(p)
            },
            None => prev,
        }
    }
}

fn list_contains(v: &Vec<String>, s: &str) -> (r: bool)
    ensures
        r == v@.map_values(|x: String| x@).contains(s@),
{
    let ghost vv = v@.map_values(|x: String| x@);
    let mut i: usize = 0;
    while i < v.len()
        invariant
            i <= v@.len(),
            vv == v@.map_values(|x: String| x@),
            forall|j: int| 0 <= j < i ==> vv[j] != s@,
        decreases v@.len() - i,
    {
        assert(vv[i as int] == v@[i as int]@);
        if str_eq(v[i].as_str(), s) {
            return true;
        }
        i = i + 1;
    }
    false
}

/// Purposes whose documents support the target through `Supports` edges.
pub fn support_purposes(edges: &Vec<InboundEdge>) -> (r: Vec<String>)
    ensures
        r@.map_values(|x: String| x@) == support_list(edges@),
{
    proof {
        reveal_strlit("Supports");
        assert("Supports"@ == supports_word());
    }
    let mut out: Vec<String> = Vec::new();
    let mut i: usize = 0;
    while i < edges.len()
        invariant
            i <= edges@.len(),
            "Supports"@ == supports_word(),
            out@.map_values(|x: String| x@) == support_list(edges@.subrange(0, i as int)),
        decreases edges@.len() - i,
    {
        let ghost s = edges@.subrange(0, i + 1);
        proof {
            assert(s.drop_last() =~= edges@.subrange(0, i as int));
            assert(s.last() == edges@[i as int]);
        }
        let e = &edges[i];
        if str_eq(e.kind.as_str(), "Supports") {
            match &e.source_purpose {
                Some(p) => {
                    if !p.as_str().is_empty() && !list_contains(&out, p.as_str()) {
                        let ghost before = out@.map_values(|x: String| x@);
                        out.push(p.clone());
                        assert(out@.map_values(|x: String| x@) =~= before.push(p@));
                    }
                },
                None => {},
            }
        }
        i = i + 1;
    }
    assert(edges@.subrange(0, edges@.len() as int) =~= edges@);
    out
}

/// Purposes supporting a candidate document (its arriving edges given).
pub fn candidate_support_purposes(edges: &Vec<InboundEdge>) -> (r: Vec<String>)
    ensures
        r@.map_values(|x: String| x@) == support_list(edges@),
{
    support_purposes(edges)
}

/// Purposes supporting a question (its arriving edges given).
pub fn question_support_purposes(edges: &Vec<InboundEdge>) -> (r: Vec<String>)
    ensures
        r@.map_values(|x: String| x@) == support_list(edges@),
{
    support_purposes(edges)
}

/// A question supported from two or more purposes calls for cross-topic
/// synthesis.
pub fn should_invoke_cross_topic(edges: &Vec<InboundEdge>) -> (r: bool)
    ensures
        r == (support_list(edges@).len() >= 2),
{
    question_support_purposes(edges).len() >= 2
}

/// Every contributed purpose is listed, once.
pub proof fn law_support_list(edges: Seq<InboundEdge>)
    ensures
        support_list(edges).no_duplicates(),
        forall|k: int| 0 <= k < edges.len() && edge_purpose(#[trigger] edges[k]) is Some
            ==> support_list(edges).contains(edge_purpose(edges[k])->0),
        forall|p: Seq<char>| #[trigger] support_list(edges).contains(p) ==> exists|k: int|
            0 <= k < edges.len() && edge_purpose(edges[k]) == Some(p),
    decreases edges.len(),
{
    if edges.len() > 0 {
        let d = edges.drop_last();
        law_support_list(d);
        let prev = support_list(d);
        let r = support_list(edges);
        assert forall|k: int| 0 <= k < edges.len() && edge_purpose(#[trigger] edges[k]) is Some implies r.contains(
            edge_purpose(edges[k])->0,
        ) by {
            if k < edges.len() - 1 {
                assert(d[k] == edges[k]);
                let p = edge_purpose(edges[k])->0;
                let w = choose|w: int| 0 <= w < prev.len() && prev[w] == p;
                if r != prev {
                    assert(r[w] == prev[w]);
                }
            } else {
                let p = edge_purpose(edges[k])->0;
                if prev.contains(p) {
                } else {
                    assert(r[prev.len() as int] == p);
                }
            }
        }
        assert forall|p: Seq<char>| #[trigger] r.contains(p) implies exists|k: int|
            0 <= k < edges.len() && edge_purpose(edges[k]) == Some(p) by {
            let w = choose|w: int| 0 <= w < r.len() && r[w] == p;
            if w < prev.len() {
                assert(prev[w] == r[w]);
                assert(prev.contains(p));
                let k = choose|k: int| 0 <= k < d.len() && edge_purpose(d[k]) == Some(p);
                assert(edges[k] == d[k]);
            } else {
                assert(edge_purpose(edges[edges.len() - 1]) == Some(p));
            }
        }
    }
}

/// Tags of a conclusion that bridges `bridges`: `crosstopic` and
/// `bridges-<purpose>` added when missing, in that order.
pub open spec fn bridge_tags_spec(tags: Seq<Seq<char>>, bridges: Seq<Seq<char>>) -> Seq<Seq<char>>
    decreases bridges.len(),
{
    if bridges.len() == 0 {
        if tags.contains("crosstopic"@) {
            tags
        } else {
            tags.push("crosstopic"@)
        }
    } else {
        let prev = bridge_tags_spec(tags, bridges.drop_last());
        let t = "bridges-"@ + bridges.last();
        if prev.contains(t) {
            prev
        } else {
            prev.push(t)
        }
    }
}

/// The tags of a bridging conclusion.
pub fn bridge_tags(tags: &Vec<String>, bridges: &Vec<String>) -> (r: Vec<String>)
    ensures
        r@.map_values(|x: String| x@) == bridge_tags_spec(
            tags@.map_values(|x: String| x@),
            bridges@.map_values(|x: String| x@),
        ),
{
    let ghost tv = tags@.map_values(|x: String| x@);
    let ghost bv = bridges@.map_values(|x: String| x@);
    let mut out: Vec<String> = Vec::new();
    let mut i: usize = 0;
    while i < tags.len()
        invariant
            i <= tags@.len(),
            tv == tags@.map_values(|x: String| x@),
            out@.map_values(|x: String| x@) =~= tv.subrange(0, i as int),
        decreases tags@.len() - i,
    {
        let ghost before = out@.map_values(|x: String| x@);
        out.push(tags[i].clone());
        assert(out@.map_values(|x: String| x@) =~= before.push(tv[i as int]));
        i = i + 1;
    }
    assert(tv.subrange(0, tags@.len() as int) =~= tv);
    if !list_contains(&out, "crosstopic") {
        let ghost before = out@.map_values(|x: String| x@);
        out.push("crosstopic".to_owned());
        assert(out@.map_values(|x: String| x@) =~= before.push("crosstopic"@));
    }
    assert(bv.subrange(0, 0) =~= Seq::<Seq<char>>::empty());
    let mut k: usize = 0;
    while k < bridges.len()
        invariant
            k <= bridges@.len(),
            tv == tags@.map_values(|x: String| x@),
            bv == bridges@.map_values(|x: String| x@),
            out@.map_values(|x: String| x@) == bridge_tags_spec(tv, bv.subrange(0, k as int)),
        decreases bridges@.len() - k,
    {
        let ghost s = bv.subrange(0, k + 1);
        proof {
            assert(s.drop_last() =~= bv.subrange(0, k as int));
            assert(s.last() == bridges@[k as int]@);
        }
        let mut t: Vec<char> = Vec::new();
        push_str_chars(&mut t, "bridges-");
        push_str_chars(&mut t, bridges[k].as_str());
        let ts = string_of(t.as_slice());
        if !list_contains(&out, ts.as_str()) {
            let ghost before = out@.map_values(|x: String| x@);
            out.push(ts);
            assert(out@.map_values(|x: String| x@) =~= before.push("bridges-"@ + bridges@[k as int]@));
        }
        k = k + 1;
    }
    assert(bv.subrange(0, bridges@.len() as int) =~= bv);
    out
}

/// The purposes a cross-topic conclusion bridges, each once, in order:
/// for each strong candidate, the purposes supporting it, then its own
/// purpose (when not empty), leaving out the question's purpose.
pub open spec fn bridges_spec(
    supports: Seq<Seq<Seq<char>>>,
    own: Seq<Option<Seq<char>>>,
    question: Option<Seq<char>>,
) -> Seq<Seq<char>>
    decreases supports.len(),
{
    if supports.len() == 0 {
        seq![]
    } else {
        let n = supports.len() - 1;
        let prev = bridges_spec(supports.drop_last(), own, question);
        let a = add_all_except(prev, supports.last(), question);
        match if n < own.len() {
            own[n]
        } else {
            None
        } {
            Some(p) => if p.len() > 0 && Some(p) != question && !a.contains(p) {
                a.push(p)
            } else {
                a
            },
            None => a,
        }
    }
}

/// `acc` with each of `xs` added in order, unless already there or equal
/// to `except`.
pub open spec fn add_all_except(acc: Seq<Seq<char>>, xs: Seq<Seq<char>>, except: Option<Seq<char>>) -> Seq<Seq<char>>
    decreases xs.len(),
{
    if xs.len() == 0 {
        acc
    } else {
        let prev = add_all_except(acc, xs.drop_last(), except);
        let x = xs.last();
        if Some(x) == except || prev.contains(x) {
            prev
        } else {
            prev.push(x)
        }
    }
}

fn contains_str(v: &Vec<String>, x: &str) -> (r: bool)
    ensures
        r == v@.map_values(|s: String| s@).contains(x@),
{
    let ghost w = v@.map_values(|s: String| s@);
    let mut i: usize = 0;
    while i < v.len()
        invariant
            i <= v@.len(),
            w == v@.map_values(|s: String| s@),
            forall|k: int| 0 <= k < i ==> (#[trigger] w[k]) != x@,
        decreases v@.len() - i,
    {
        if str_eq(v[i].as_str(), x) {
            assert(w[i as int] == x@);
            return true;
        }
        i = i + 1;
    }
    false
}

fn differs(x: &str, q: Option<&str>) -> (r: bool)
    ensures
        r == (Some(x@) != match q {
            Some(s) => Some(s@),
            None => None,
        }),
{
    match q {
        Some(s) => !str_eq(x, s),
        None => true,
    }
}

pub open spec fn opt_strs(v: Seq<Option<String>>) -> Seq<Option<Seq<char>>> {
    v.map_values(|o: Option<String>| match o {
        Some(s) => Some(s@),
        None => None,
    })
}

pub open spec fn nested(v: Seq<Vec<String>>) -> Seq<Seq<Seq<char>>> {
    v.map_values(|x: Vec<String>| x@.map_values(|s: String| s@))
}

/// The purposes a cross-topic conclusion bridges (see `bridges_spec`):
/// `supports[i]` are the purposes supporting strong candidate `i` and
/// `own[i]` its own purpose.
pub fn bridge_purposes(supports: &Vec<Vec<String>>, own: &Vec<Option<String>>, question: Option<&str>) -> (r: Vec<
    String,
>)
    ensures
        r@.map_values(|s: String| s@) == bridges_spec(nested(supports@), opt_strs(own@), match question {
            Some(q) => Some(q@),
            None => None,
        }),
{
    let ghost qv: Option<Seq<char>> = match question {
        Some(q) => Some(q@),
        None => None,
    };
    let ghost sv = nested(supports@);
    let ghost ov = opt_strs(own@);
    let mut out: Vec<String> = Vec::new();
    let mut i: usize = 0;
    while i < supports.len()
        invariant
            i <= supports@.len(),
            sv == nested(supports@),
            ov == opt_strs(own@),
            qv == match question {
                Some(q) => Some(q@),
                None => None,
            },
            out@.map_values(|s: String| s@) == bridges_spec(sv.subrange(0, i as int), ov, qv),
        decreases supports@.len() - i,
    {
        let ghost t = sv.subrange(0, i + 1);
        assert(t.drop_last() =~= sv.subrange(0, i as int));
        assert(t.last() == supports@[i as int]@.map_values(|s: String| s@));
        let ghost base = out@.map_values(|s: String| s@);
        let xs = &supports[i];
        let ghost xv = xs@.map_values(|s: String| s@);
        let mut j: usize = 0;
        while j < xs.len()
            invariant
                j <= xs@.len(),
                xv == xs@.map_values(|s: String| s@),
                qv == match question {
                    Some(q) => Some(q@),
                    None => None,
                },
                out@.map_values(|s: String| s@) == add_all_except(base, xv.subrange(0, j as int), qv),
            decreases xs@.len() - j,
        {
            let ghost u = xv.subrange(0, j + 1);
            assert(u.drop_last() =~= xv.subrange(0, j as int));
            assert(u.last() == xs@[j as int]@);
            if differs(xs[j].as_str(), question) && !contains_str(&out, xs[j].as_str()) {
                let ghost before = out@.map_values(|s: String| s@);
                out.push(xs[j].clone());
                assert(out@.map_values(|s: String| s@) =~= before.push(xs@[j as int]@));
            }
            j = j + 1;
        }
        assert(xv.subrange(0, xs@.len() as int) =~= xv);
        if i < own.len() {
            assert(ov[i as int] == match own@[i as int] {
                Some(s) => Some(s@),
                None => None,
            });
            match &own[i] {
                Some(p) => {
                    if chars_of(p.as_str()).len() > 0 && differs(p.as_str(), question) && !contains_str(&out, p.as_str()) {
                        let ghost before = out@.map_values(|s: String| s@);
                        out.push(p.clone());
                        assert(out@.map_values(|s: String| s@) =~= before.push(p@));
                    }
                },
                None => {},
            }
        }
        i = i + 1;
    }
    assert(sv.subrange(0, supports@.len() as int) =~= sv);
    out
}

/// The tags a promoted conclusion gets: `conclusion`, its purpose tag
/// (`general` without a purpose), and the question's hash.
pub fn conclusion_tags(purpose: Option<&str>, hash: &str) -> (r: Vec<String>)
    ensures
        r@.map_values(|s: String| s@) == seq![
            "conclusion"@,
            match purpose {
                Some(p) => p@,
                None => "general"@,
            },
            hash@,
        ],
{
    let mut v: Vec<String> = Vec::new();
    v.push(string_of(chars_of("conclusion").as_slice()));
    match purpose {
        Some(p) => v.push(string_of(chars_of(p).as_slice())),
        None => v.push(string_of(chars_of("general").as_slice())),
    }
    v.push(string_of(chars_of(hash).as_slice()));
    let ghost pt = match purpose {
        Some(p) => p@,
        None => "general"@,
    };
    assert(v@.map_values(|s: String| s@) =~= seq!["conclusion"@, pt, hash@]);
    v
}

} // verus!
