//! Decisions of the tool handlers: paging of long lists, the document type
//! a hit is reported under, search modes, default titles, marking a
//! question resolved, the layers of an edge walk, the chunks an ingested
//! text is filed as, and the function a code symbol names.

use vstd::prelude::*;
use crate::chunker::Chunk;
use crate::text::{chars_of, dec, lines, lines_of, push_chars, str_eq, string_of, trim, trim_str};

verus! {

/// The page of a list of `total` items that a cursor and a limit select:
/// its start, its end, and the cursor of the next page when items remain.
/// The start is the cursor (0 when none) but at most `total`; the limit is
/// 25 when none and at least 1.
pub open spec fn window_spec(total: nat, cursor: Option<nat>, limit: Option<nat>) -> (nat, nat, Option<nat>) {
    let c = match cursor {
        Some(c) => c,
        None => 0,
    };
    let l0 = match limit {
        Some(l) => l,
        None => 25,
    };
    let lim = if l0 < 1 {
        1
    } else {
        l0
    };
    let cur = if c < total {
        c
    } else {
        total
    };
    let end = if cur + lim < total {
        cur + lim
    } else {
        total
    };
    (cur, end, if end < total {
        Some(end)
    } else {
        None
    })
}

pub open spec fn opt_nat(o: Option<usize>) -> Option<nat> {
    match o {
        Some(x) => Some(x as nat),
        None => None,
    }
}

/// The page a cursor and a limit select (see `window_spec`).
pub fn page_window(total: usize, cursor: Option<usize>, limit: Option<usize>) -> (r: (usize, usize, Option<usize>))
    ensures
        (r.0 as nat, r.1 as nat, opt_nat(r.2)) == window_spec(total as nat, opt_nat(cursor), opt_nat(limit)),
{
    let c = match cursor {
        Some(c) => c,
        None => 0,
    };
    let l0 = match limit {
        Some(l) => l,
        None => 25,
    };
    let lim = if l0 < 1 {
        1
    } else {
        l0
    };
    let cur = if c < total {
        c
    } else {
        total
    };
    let end = if lim < total - cur {
        cur + lim
    } else {
        total
    };
    (cur, end, if end < total {
        Some(end)
    } else {
        None
    })
}

/// Paging walks a list item by item: a page lies within the list, holds at
/// most the limit and at least one item while any remain, and the next
/// page starts where it ends.
pub proof fn law_pages_follow(total: nat, cursor: Option<nat>, limit: Option<nat>)
    ensures
        ({
            let (cur, end, next) = window_spec(total, cursor, limit);
            &&& cur <= end <= total
            &&& cur < total ==> cur < end
            &&& end - cur <= match limit {
                Some(l) => if l < 1 {
                    1
                } else {
                    l
                },
                None => 25,
            }
            &&& match next {
                Some(n) => window_spec(total, Some(n), limit).0 == end,
                None => end == total,
            }
        }),
{
}

/// The document type a base tag names: the plural of `thought`, `entity`,
/// `question`, `conclusion` and `reason`; any other tag as it is.
pub open spec fn base_type_spec(tag: Seq<char>) -> Seq<char> {
    if tag == "thought"@ {
        "thoughts"@
    } else if tag == "entity"@ {
        "entities"@
    } else if tag == "question"@ {
        "questions"@
    } else if tag == "conclusion"@ {
        "conclusions"@
    } else if tag == "reason"@ {
        "reasons"@
    } else {
        tag
    }
}

/// The document type a base tag names (see `base_type_spec`).
pub fn doc_type_from_base_tag(tag: &str) -> (r: String)
    ensures
        r@ == base_type_spec(tag@),
{
    if str_eq(tag, "thought") {
        "thoughts".to_owned()
    } else if str_eq(tag, "entity") {
        "entities".to_owned()
    } else if str_eq(tag, "question") {
        "questions".to_owned()
    } else if str_eq(tag, "conclusion") {
        "conclusions".to_owned()
    } else if str_eq(tag, "reason") {
        "reasons".to_owned()
    } else {
        tag.to_owned()
    }
}

/// The type a search hit is reported under: that of its first tag, or
/// `thoughts` when it has none.
pub open spec fn hit_type_spec(tags: Seq<Seq<char>>) -> Seq<char> {
    if tags.len() > 0 {
        base_type_spec(tags[0])
    } else {
        "thoughts"@
    }
}

/// The type a search hit is reported under (see `hit_type_spec`).
pub fn hit_doc_type(tags: &Vec<String>) -> (r: String)
    ensures
        r@ == hit_type_spec(tags@.map_values(|t: String| t@)),
{
    if tags.len() > 0 {
        assert(tags@.map_values(|t: String| t@)[0] == tags@[0]@);
        doc_type_from_base_tag(tags[0].as_str())
    } else {
        "thoughts".to_owned()
    }
}

/// The modes of a search.
#[derive(Debug, Clone, Copy, PartialEq, Eq)]
pub enum SearchMode {
    Smart,
    Qa,
    Fts,
    Tag,
}

/// The mode a search names: `smart` when none; an error naming any other
/// text.
pub open spec fn mode_spec(mode: Option<Seq<char>>) -> Result<SearchMode, Seq<char>> {
    let m = match mode {
        Some(m) => m,
        None => "smart"@,
    };
    if m == "smart"@ {
        Ok(SearchMode::Smart)
    } else if m == "qa"@ {
        Ok(SearchMode::Qa)
    } else if m == "fts"@ {
        Ok(SearchMode::Fts)
    } else if m == "tag"@ {
        Ok(SearchMode::Tag)
    } else {
        Err("Unknown mode: "@ + m + " (use smart|fts|tag|qa)"@)
    }
}

/// The mode a search names (see `mode_spec`).
pub fn search_mode(mode: Option<&str>) -> (r: Result<SearchMode, String>)
    ensures
        match r {
            Ok(m) => mode_spec(
                match mode {
                    Some(x) => Some(x@),
                    None => None,
                },
            ) == Ok::<SearchMode, Seq<char>>(m),
            Err(e) => mode_spec(
                match mode {
                    Some(x) => Some(x@),
                    None => None,
                },
            ) == Err::<SearchMode, Seq<char>>(e@),
        },
{
    let m = match mode {
        Some(m) => m,
        None => "smart",
    };
    if str_eq(m, "smart") {
        Ok(SearchMode::Smart)
    } else if str_eq(m, "qa") {
        Ok(SearchMode::Qa)
    } else if str_eq(m, "fts") {
        Ok(SearchMode::Fts)
    } else if str_eq(m, "tag") {
        Ok(SearchMode::Tag)
    } else {
        let mut v: Vec<char> = chars_of("Unknown mode: ");
        let mc = chars_of(m);
        push_chars(&mut v, mc.as_slice());
        let tail = chars_of(" (use smart|fts|tag|qa)");
        push_chars(&mut v, tail.as_slice());
        Err(string_of(v.as_slice()))
    }
}

/// Whether a hit of type `dt` is kept in a question-and-answer search:
/// only questions and conclusions are.
pub fn qa_keeps(dt: &str) -> (r: bool)
    ensures
        r == (dt@ == "questions"@ || dt@ == "conclusions"@),
{
    str_eq(dt, "questions") || str_eq(dt, "conclusions")
}

/// The title a document gets when none is given: `question` or `reason`
/// for those kinds; else the first line of the body, at most eighty
/// characters of it, or `untitled` for an empty body.
pub open spec fn default_title_spec(kind: Seq<char>, body: Seq<char>) -> Seq<char> {
    if kind == "question"@ {
        "question"@
    } else if kind == "reason"@ {
        "reason"@
    } else {
        let ls = lines(body);
        let first = if ls.len() > 0 {
            ls[0]
        } else {
            "untitled"@
        };
        if first.len() > 80 {
            first.subrange(0, 80)
        } else {
            first
        }
    }
}

/// The title a document gets when none is given (see `default_title_spec`).
pub fn default_title(kind: &str, body: &str) -> (r: String)
    ensures
        r@ == default_title_spec(kind@, body@),
{
    if str_eq(kind, "question") {
        return "question".to_owned();
    }
    if str_eq(kind, "reason") {
        return "reason".to_owned();
    }
    let cs = chars_of(body);
    let ls = lines_of(cs.as_slice());
    let first: Vec<char> = if ls.len() > 0 {
        assert(ls@.map_values(|l: Vec<char>| l@)[0] == ls@[0]@);
        ls[0].clone()
    } else {
        chars_of("untitled")
    };
    if first.len() > 80 {
        let part = crate::text::char_range(first.as_slice(), 0, 80);
        string_of(part.as_slice())
    } else {
        string_of(first.as_slice())
    }
}

/// Tags that an answered question drops before it is tagged `resolved`.
pub open spec fn answer_state_tag(t: Seq<char>) -> bool {
    t == "resolved"@ || t == "unanswerable"@ || t == "partial_answer"@
}

/// The tags other than the answer states, in order.
pub open spec fn without_states(tags: Seq<Seq<char>>) -> Seq<Seq<char>>
    decreases tags.len(),
{
    if tags.len() == 0 {
        seq![]
    } else {
        let prev = without_states(tags.drop_last());
        if answer_state_tag(tags.last()) {
            prev
        } else {
            prev.push(tags.last())
        }
    }
}

/// The tags of a question marked resolved: its answer states dropped and
/// `resolved` added last.
pub open spec fn resolved_spec(tags: Seq<Seq<char>>) -> Seq<Seq<char>> {
    without_states(tags).push("resolved"@)
}

pub open spec fn strs(v: Seq<String>) -> Seq<Seq<char>> {
    v.map_values(|s: String| s@)
}

/// The tags of a question marked resolved (see `resolved_spec`).
pub fn resolved_tags(tags: &Vec<String>) -> (r: Vec<String>)
    ensures
        strs(r@) == resolved_spec(strs(tags@)),
{
    let ghost tv = strs(tags@);
    let mut out: Vec<String> = Vec::new();
    let mut i: usize = 0;
    while i < tags.len()
        invariant
            i <= tags@.len(),
            tv == strs(tags@),
            strs(out@) == without_states(tv.subrange(0, i as int)),
        decreases tags@.len() - i,
    {
        assert(tv.subrange(0, i + 1).drop_last() =~= tv.subrange(0, i as int));
        assert(tv[i as int] == tags@[i as int]@);
        let t = tags[i].as_str();
        if !(str_eq(t, "resolved") || str_eq(t, "unanswerable") || str_eq(t, "partial_answer")) {
            let ghost before = strs(out@);
            out.push(tags[i].clone());
            assert(strs(out@) =~= before.push(tv[i as int]));
        }
        i = i + 1;
    }
    assert(tv.subrange(0, tags@.len() as int) =~= tv);
    let ghost before = strs(out@);
    out.push("resolved".to_owned());
    assert(strs(out@) =~= before.push("resolved"@));
    out
}

proof fn lemma_without_states_clean(tags: Seq<Seq<char>>)
    ensures
        forall|k: int| 0 <= k < without_states(tags).len() ==> !answer_state_tag(#[trigger] without_states(tags)[k]),
        without_states(without_states(tags)) == without_states(tags),
    decreases tags.len(),
{
    if tags.len() > 0 {
        lemma_without_states_clean(tags.drop_last());
        let w = without_states(tags);
        let p = without_states(tags.drop_last());
        if !answer_state_tag(tags.last()) {
            assert(w.drop_last() =~= p);
            assert(w.last() == tags.last());
        }
    }
}

/// Marking a question resolved twice is marking it once: its tags are the
/// same, with `resolved` once.
pub proof fn law_resolve_once(tags: Seq<Seq<char>>)
    ensures
        resolved_spec(resolved_spec(tags)) == resolved_spec(tags),
{
    lemma_without_states_clean(tags);
    let w = without_states(tags);
    let r = w.push("resolved"@);
    assert(r.drop_last() =~= w);
    assert(answer_state_tag(r.last()));
    assert(without_states(r) == without_states(w));
}

/// Whether a question is open: tagged neither `resolved` nor
/// `unanswerable`.
pub fn is_open_question(tags: &Vec<String>) -> (r: bool)
    ensures
        r == !(strs(tags@).contains("resolved"@) || strs(tags@).contains("unanswerable"@)),
{
    let ghost tv = strs(tags@);
    let mut i: usize = 0;
    while i < tags.len()
        invariant
            i <= tags@.len(),
            tv == strs(tags@),
            forall|k: int| 0 <= k < i ==> (#[trigger] tv[k]) != "resolved"@ && tv[k] != "unanswerable"@,
        decreases tags@.len() - i,
    {
        assert(tv[i as int] == tags@[i as int]@);
        if str_eq(tags[i].as_str(), "resolved") || str_eq(tags[i].as_str(), "unanswerable") {
            return false;
        }
        i = i + 1;
    }
    true
}

/// One layer of an edge walk: the neighbours of the frontier, in order,
/// not seen before, each once.
pub open spec fn layer_spec(neighbours: Seq<Seq<Seq<char>>>, seen: Seq<Seq<char>>) -> Seq<Seq<char>>
    decreases neighbours.len(),
{
    if neighbours.len() == 0 {
        seq![]
    } else {
        let prev = layer_spec(neighbours.drop_last(), seen);
        prev + new_ids(neighbours.last(), seen + prev)
    }
}

/// The ids of `ns` not in `seen`, each once, in order, after `seen`'s new
/// ones: `seen` grown by them, less `seen`.
pub open spec fn new_ids(ns: Seq<Seq<char>>, seen: Seq<Seq<char>>) -> Seq<Seq<char>>
    decreases ns.len(),
{
    if ns.len() == 0 {
        seq![]
    } else {
        let prev = new_ids(ns.drop_last(), seen);
        if seen.contains(ns.last()) || prev.contains(ns.last()) {
            prev
        } else {
            prev.push(ns.last())
        }
    }
}

pub open spec fn nested_view(v: Seq<Vec<String>>) -> Seq<Seq<Seq<char>>> {
    v.map_values(|l: Vec<String>| strs(l@))
}

fn contains_str(v: &Vec<String>, x: &str) -> (r: bool)
    ensures
        r == strs(v@).contains(x@),
{
    let ghost w = strs(v@);
    let mut i: usize = 0;
    while i < v.len()
        invariant
            i <= v@.len(),
            w == strs(v@),
            forall|k: int| 0 <= k < i ==> (#[trigger] w[k]) != x@,
        decreases v@.len() - i,
    {
        if str_eq(v[i].as_str(), x) {
            assert(w[i as int] == x@);
            return true;
        }
        i = i + 1;
    }
    false
}

/// One layer of an edge walk (see `layer_spec`): `neighbours` holds the
/// ids next to each frontier node; `seen` grows by the layer returned.
pub fn expand_layer(neighbours: &Vec<Vec<String>>, seen: &mut Vec<String>) -> (r: Vec<String>)
    ensures
        strs(r@) == layer_spec(nested_view(neighbours@), strs(old(seen)@)),
        strs(final(seen)@) == strs(old(seen)@) + strs(r@),
{
    let ghost nv = nested_view(neighbours@);
    let ghost s0 = strs(seen@);
    let mut layer: Vec<String> = Vec::new();
    let mut i: usize = 0;
    while i < neighbours.len()
        invariant
            i <= neighbours@.len(),
            nv == nested_view(neighbours@),
            strs(layer@) == layer_spec(nv.subrange(0, i as int), s0),
            strs(seen@) == s0 + strs(layer@),
        decreases neighbours@.len() - i,
    {
        assert(nv.subrange(0, i + 1).drop_last() =~= nv.subrange(0, i as int));
        assert(nv[i as int] == strs(neighbours@[i as int]@));
        let ns = &neighbours[i];
        let ghost base = strs(seen@);
        let ghost l0 = strs(layer@);
        let mut j: usize = 0;
        while j < ns.len()
            invariant
                j <= ns@.len(),
                base == s0 + l0,
                strs(layer@) == l0 + new_ids(strs(ns@).subrange(0, j as int), base),
                strs(seen@) == base + new_ids(strs(ns@).subrange(0, j as int), base),
            decreases ns@.len() - j,
        {
            let ghost pre = strs(ns@).subrange(0, j as int);
            assert(strs(ns@).subrange(0, j + 1).drop_last() =~= pre);
            assert(strs(ns@)[j as int] == ns@[j as int]@);
            let id = ns[j].as_str();
            if !contains_str(seen, id) {
                proof {
                    assert(!base.contains(id@)) by {
                        if base.contains(id@) {
                            let k = choose|k: int| 0 <= k < base.len() && base[k] == id@;
                            assert(strs(seen@)[k] == id@);
                        }
                    }
                    assert(!new_ids(pre, base).contains(id@)) by {
                        if new_ids(pre, base).contains(id@) {
                            let k = choose|k: int| 0 <= k < new_ids(pre, base).len() && new_ids(pre, base)[k] == id@;
                            assert(strs(seen@)[base.len() + k] == id@);
                        }
                    }
                }
                let ghost bl = strs(layer@);
                let ghost bs = strs(seen@);
                layer.push(ns[j].clone());
                seen.push(ns[j].clone());
                assert(strs(layer@) =~= bl.push(id@));
                assert(strs(seen@) =~= bs.push(id@));
                assert(l0 + new_ids(pre, base).push(id@) =~= (l0 + new_ids(pre, base)).push(id@));
                assert(base + new_ids(pre, base).push(id@) =~= (base + new_ids(pre, base)).push(id@));
            } else {
                proof {
                    let k = choose|k: int| 0 <= k < strs(seen@).len() && strs(seen@)[k] == id@;
                    if k < base.len() {
                        assert(base.contains(id@));
                    } else {
                        assert(new_ids(pre, base)[k - base.len()] == id@);
                        assert(new_ids(pre, base).contains(id@));
                    }
                }
            }
            j = j + 1;
        }
        assert(strs(ns@).subrange(0, ns@.len() as int) =~= strs(ns@));
        proof {
            assert(layer_spec(nv.subrange(0, i + 1), s0) == l0 + new_ids(nv[i as int], s0 + l0));
            assert(l0 + new_ids(strs(ns@), base) == layer_spec(nv.subrange(0, i + 1), s0));
        }
        i = i + 1;
    }
    assert(nv.subrange(0, neighbours@.len() as int) =~= nv);
    layer
}

proof fn lemma_new_ids_fresh(ns: Seq<Seq<char>>, seen: Seq<Seq<char>>)
    ensures
        forall|k: int| 0 <= k < new_ids(ns, seen).len() ==> !seen.contains(#[trigger] new_ids(ns, seen)[k]),
    decreases ns.len(),
{
    if ns.len() > 0 {
        lemma_new_ids_fresh(ns.drop_last(), seen);
        let p = new_ids(ns.drop_last(), seen);
        let w = new_ids(ns, seen);
        assert forall|k: int| 0 <= k < w.len() implies !seen.contains(#[trigger] w[k]) by {
            if k < p.len() {
                assert(w[k] == p[k]);
            }
        }
    }
}

/// An edge walk never reports a document twice: no id of a layer was seen
/// before it.
pub proof fn law_layer_is_new(neighbours: Seq<Seq<Seq<char>>>, seen: Seq<Seq<char>>, k: int)
    requires
        0 <= k < layer_spec(neighbours, seen).len(),
    ensures
        !seen.contains(layer_spec(neighbours, seen)[k]),
    decreases neighbours.len(),
{
    let prev = layer_spec(neighbours.drop_last(), seen);
    let w = layer_spec(neighbours, seen);
    let nw = new_ids(neighbours.last(), seen + prev);
    assert(w == prev + nw);
    if k < prev.len() {
        assert(w[k] == prev[k]);
        law_layer_is_new(neighbours.drop_last(), seen, k);
    } else {
        lemma_new_ids_fresh(neighbours.last(), seen + prev);
        assert(w[k] == nw[k - prev.len()]);
        if seen.contains(w[k]) {
            let j = choose|j: int| 0 <= j < seen.len() && seen[j] == w[k];
            assert((seen + prev)[j] == w[k]);
        }
    }
}

/// The chunks an ingested text is filed as, `(purpose, content)`: one of
/// the hinted purpose when a hint is given; else the classifier's chunks,
/// or one `general` chunk when it returned none.
pub open spec fn chunks_spec(content: Seq<char>, hint: Option<Seq<char>>, classified: Seq<(Seq<char>, Seq<char>)>) -> Seq<
    (Seq<char>, Seq<char>),
> {
    match hint {
        Some(h) => seq![(h, content)],
        None => if classified.len() > 0 {
            classified
        } else {
            seq![("general"@, content)]
        },
    }
}

pub open spec fn chunk_pairs(v: Seq<Chunk>) -> Seq<(Seq<char>, Seq<char>)> {
    v.map_values(|c: Chunk| (c.purpose@, c.content@))
}

/// The chunks an ingested text is filed as (see `chunks_spec`).
pub fn ingest_chunks(content: &str, hint: Option<&str>, classified: &Vec<Chunk>) -> (r: Vec<Chunk>)
    ensures
        chunk_pairs(r@) == chunks_spec(
            content@,
            match hint {
                Some(h) => Some(h@),
                None => None,
            },
            chunk_pairs(classified@),
        ),
{
    match hint {
        Some(h) => {
            let v = vec![Chunk { purpose: h.to_owned(), content: content.to_owned() }];
            assert(chunk_pairs(v@) =~= seq![(h@, content@)]);
            v
        },
        None => {
            if classified.len() > 0 {
                let mut out: Vec<Chunk> = Vec::new();
                let mut i: usize = 0;
                while i < classified.len()
                    invariant
                        i <= classified@.len(),
                        chunk_pairs(out@) == chunk_pairs(classified@).subrange(0, i as int),
                    decreases classified@.len() - i,
                {
                    let ghost before = chunk_pairs(out@);
                    let c = Chunk { purpose: classified[i].purpose.clone(), content: classified[i].content.clone() };
                    out.push(c);
                    assert(chunk_pairs(out@) =~= before.push((classified@[i as int].purpose@, classified@[i as int].content@)));
                    assert(chunk_pairs(classified@).subrange(0, i + 1) =~= chunk_pairs(classified@).subrange(0, i as int).push(
                        (classified@[i as int].purpose@, classified@[i as int].content@),
                    ));
                    i = i + 1;
                }
                assert(chunk_pairs(classified@).subrange(0, classified@.len() as int) =~= chunk_pairs(classified@));
                out
            } else {
                let v = vec![Chunk { purpose: "general".to_owned(), content: content.to_owned() }];
                assert(chunk_pairs(v@) =~= seq![("general"@, content@)]);
                v
            }
        },
    }
}

/// Whether some chunk is filed under `general` (which must then exist).
pub fn needs_general(chunks: &Vec<Chunk>) -> (r: bool)
    ensures
        r == exists|k: int| 0 <= k < chunks@.len() && chunks@[k].purpose@ == "general"@,
{
    let mut i: usize = 0;
    while i < chunks.len()
        invariant
            i <= chunks@.len(),
            forall|k: int| 0 <= k < i ==> chunks@[k].purpose@ != "general"@,
        decreases chunks@.len() - i,
    {
        if str_eq(chunks[i].purpose.as_str(), "general") {
            return true;
        }
        i = i + 1;
    }
    false
}

/// A child document of a text filed in several chunks: its title, tags,
/// purpose and content, and the body of the `PartOf` reason that links it
/// to the parent.
#[derive(Debug, Clone)]
pub struct ChildPlan {
    pub title: String,
    pub tags: Vec<String>,
    pub purpose: String,
    pub content: String,
    pub part_of: String,
}

/// The title of chunk `i` (from 0): `<title> [<purpose>#<i + 1>]`.
pub open spec fn child_title_spec(title: Seq<char>, purpose: Seq<char>, i: nat) -> Seq<char> {
    title + " ["@ + purpose + "#"@ + dec(i + 1) + "]"@
}

/// The body of the `PartOf` reason of chunk `i` (from 0).
pub open spec fn part_of_spec(title: Seq<char>, purpose: Seq<char>, i: nat) -> Seq<char> {
    "Chunk "@ + dec(i + 1) + " of '"@ + title + "' (purpose: "@ + purpose + ")"@
}

/// The child documents of a text filed in several chunks: one per chunk,
/// in order, tagged with the base tag and its purpose.
pub fn child_plans(title: &str, base_tag: &str, chunks: &Vec<Chunk>) -> (r: Vec<ChildPlan>)
    requires
        chunks@.len() < usize::MAX,
    ensures
        r@.len() == chunks@.len(),
        forall|k: int|
            0 <= k < r@.len() ==> {
                let c = #[trigger] r@[k];
                &&& c.title@ == child_title_spec(title@, chunks@[k].purpose@, k as nat)
                &&& strs(c.tags@) == seq![base_tag@, chunks@[k].purpose@]
                &&& c.purpose@ == chunks@[k].purpose@
                &&& c.content@ == chunks@[k].content@
                &&& c.part_of@ == part_of_spec(title@, chunks@[k].purpose@, k as nat)
            },
{
    let mut out: Vec<ChildPlan> = Vec::new();
    let mut i: usize = 0;
    while i < chunks.len()
        invariant
            i <= chunks@.len() < usize::MAX,
            out@.len() == i,
            forall|k: int|
                0 <= k < i ==> {
                    let c = #[trigger] out@[k];
                    &&& c.title@ == child_title_spec(title@, chunks@[k].purpose@, k as nat)
                    &&& strs(c.tags@) == seq![base_tag@, chunks@[k].purpose@]
                    &&& c.purpose@ == chunks@[k].purpose@
                    &&& c.content@ == chunks@[k].content@
                    &&& c.part_of@ == part_of_spec(title@, chunks@[k].purpose@, k as nat)
                },
        decreases chunks@.len() - i,
    {
        let p = chunks[i].purpose.as_str();
        let mut t: Vec<char> = chars_of(title);
        crate::text::push_str_chars(&mut t, " [");
        crate::text::push_str_chars(&mut t, p);
        crate::text::push_str_chars(&mut t, "#");
        crate::text::push_dec(&mut t, i + 1);
        crate::text::push_str_chars(&mut t, "]");
        let mut b: Vec<char> = chars_of("Chunk ");
        crate::text::push_dec(&mut b, i + 1);
        crate::text::push_str_chars(&mut b, " of '");
        crate::text::push_str_chars(&mut b, title);
        crate::text::push_str_chars(&mut b, "' (purpose: ");
        crate::text::push_str_chars(&mut b, p);
        crate::text::push_str_chars(&mut b, ")");
        let tags = vec![base_tag.to_owned(), chunks[i].purpose.clone()];
        assert(strs(tags@) =~= seq![base_tag@, chunks@[i as int].purpose@]);
        out.push(ChildPlan {
            title: string_of(t.as_slice()),
            tags,
            purpose: chunks[i].purpose.clone(),
            content: chunks[i].content.clone(),
            part_of: string_of(b.as_slice()),
        });
        i = i + 1;
    }
    out
}

/// The text after the last `::` ending at or before `n` in `s`, or all of
/// `s` when there is none.
pub open spec fn after_last_colons(s: Seq<char>, n: int) -> Seq<char>
    decreases n,
{
    if n < 2 || n > s.len() {
        s
    } else if s[n - 2] == ':' && s[n - 1] == ':' {
        s.subrange(n, s.len() as int)
    } else {
        after_last_colons(s, n - 1)
    }
}

/// The function a symbol names: the part after its last `::`, trimmed.
pub open spec fn symbol_stem_spec(symbol: Seq<char>) -> Seq<char> {
    trim(after_last_colons(symbol, symbol.len() as int))
}

/// The function a symbol names (see `symbol_stem_spec`).
pub fn symbol_stem(symbol: &str) -> (r: String)
    ensures
        r@ == symbol_stem_spec(symbol@),
{
    let cs = chars_of(symbol);
    let len = cs.len();
    let mut n: usize = len;
    while n >= 2 && !(cs[n - 2] == ':' && cs[n - 1] == ':')
        invariant
            n <= len,
            len == symbol@.len(),
            cs@ == symbol@,
            after_last_colons(symbol@, len as int) == after_last_colons(symbol@, n as int),
        decreases n,
    {
        n = n - 1;
    }
    let part: Vec<char> = if n >= 2 {
        crate::text::char_range(cs.as_slice(), n, len)
    } else {
        assert(cs@.subrange(0, len as int) =~= cs@);
        crate::text::char_range(cs.as_slice(), 0, len)
    };
    trim_str(string_of(part.as_slice()).as_str())
}

/// Whether a body file named `name` (without extension) can stand for the
/// function `stem`: it is `stem` or ends with it.
pub fn stem_matches(name: &str, stem: &str) -> (r: bool)
    ensures
        r == (name@.len() >= stem@.len() && name@.subrange(name@.len() - stem@.len(), name@.len() as int) == stem@),
{
    let a = chars_of(name);
    let b = chars_of(stem);
    if a.len() < b.len() {
        return false;
    }
    let off = a.len() - b.len();
    let mut k: usize = 0;
    while k < b.len()
        invariant
            k <= b@.len(),
            off + b@.len() == a@.len(),
            a@.len() == a.len(),
            a@ == name@,
            b@ == stem@,
            forall|j: int| 0 <= j < k ==> a@[off + j] == b@[j],
        decreases b@.len() - k,
    {
        if a[off + k] != b[k] {
            assert(name@.subrange(off as int, name@.len() as int)[k as int] == a@[off + k]);
            return false;
        }
        k = k + 1;
    }
    assert(name@.subrange(off as int, name@.len() as int) =~= stem@);
    true
}

/// The kinds of document an ingest files.
#[derive(Debug, Clone, Copy, PartialEq, Eq)]
pub enum IngestKind {
    Thought,
    Entity,
    Question,
    Reason,
    Conclusion,
}

/// The kind an ingest names; an error naming any other text.
pub open spec fn ingest_kind_spec(kind: Seq<char>) -> Result<IngestKind, Seq<char>> {
    if kind == "thought"@ {
        Ok(IngestKind::Thought)
    } else if kind == "entity"@ {
        Ok(IngestKind::Entity)
    } else if kind == "question"@ {
        Ok(IngestKind::Question)
    } else if kind == "reason"@ {
        Ok(IngestKind::Reason)
    } else if kind == "conclusion"@ {
        Ok(IngestKind::Conclusion)
    } else {
        Err("Unknown kind: "@ + kind + " (thought|entity|question|reason|conclusion)"@)
    }
}

/// The kind an ingest names (see `ingest_kind_spec`).
pub fn ingest_kind(kind: &str) -> (r: Result<IngestKind, String>)
    ensures
        match r {
            Ok(k) => ingest_kind_spec(kind@) == Ok::<IngestKind, Seq<char>>(k),
            Err(e) => ingest_kind_spec(kind@) == Err::<IngestKind, Seq<char>>(e@),
        },
{
    if str_eq(kind, "thought") {
        Ok(IngestKind::Thought)
    } else if str_eq(kind, "entity") {
        Ok(IngestKind::Entity)
    } else if str_eq(kind, "question") {
        Ok(IngestKind::Question)
    } else if str_eq(kind, "reason") {
        Ok(IngestKind::Reason)
    } else if str_eq(kind, "conclusion") {
        Ok(IngestKind::Conclusion)
    } else {
        let mut v: Vec<char> = chars_of("Unknown kind: ");
        crate::text::push_str_chars(&mut v, kind);
        crate::text::push_str_chars(&mut v, " (thought|entity|question|reason|conclusion)");
        Err(string_of(v.as_slice()))
    }
}

/// The ends of an ingested reason: both ids are required, the source
/// first; its kind defaults to `References`.
pub fn reason_ends(from_id: Option<String>, to_id: Option<String>, kind: Option<String>) -> (r: Result<
    (String, String, String),
    String,
>)
    ensures
        match (from_id, to_id) {
            (Some(f), Some(t)) => r matches Ok(x) && x.0 == f && x.1 == t && x.2@ == match kind {
                Some(k) => k@,
                None => "References"@,
            },
            (None, _) => r matches Err(e) && e@ == "reason requires from_id"@,
            (Some(_), None) => r matches Err(e) && e@ == "reason requires to_id"@,
        },
{
    let f = match from_id {
        Some(f) => f,
        None => return Err("reason requires from_id".to_owned()),
    };
    let t = match to_id {
        Some(t) => t,
        None => return Err("reason requires to_id".to_owned()),
    };
    let k = match kind {
        Some(k) => k,
        None => "References".to_owned(),
    };
    Ok((f, t, k))
}

} // verus!
