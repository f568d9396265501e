//! Raising open questions: screening the candidates a model proposes, and
//! counting the open questions of a purpose against its cap.

use vstd::prelude::*;
use crate::cache::{refs_view, tag_lookup_spec, DocRef, RootCache};
use crate::config::{default_patterns, default_template_question_regexes, is_template_question_with, is_template_spec};
use crate::text::{chars_of, push_str_chars, str_eq, string_of, trim, trim_str};

verus! {

/// A question proposed for a document.
#[derive(Debug, Clone)]
pub struct RaisedQItem {
    pub title: String,
    pub body: String,
}

/// A question raised (or found already present) for a document.
#[derive(Debug, Clone)]
pub struct RaisedQuestion {
    pub question_id: String,
    pub title: String,
    pub purpose: Option<String>,
    pub created: bool,
}

pub open spec fn items_view(v: Seq<RaisedQItem>) -> Seq<(Seq<char>, Seq<char>)> {
    v.map_values(|q: RaisedQItem| (q.title@, q.body@))
}

/// Screening of candidates in order: titles are trimmed, blank ones
/// dropped, templated ones set aside, the rest kept with their bodies.
pub open spec fn screen_spec(items: Seq<(Seq<char>, Seq<char>)>, patterns: Seq<Seq<char>>) -> (
    Seq<(Seq<char>, Seq<char>)>,
    Seq<Seq<char>>,
)
    decreases items.len(),
{
    if items.len() == 0 {
        (seq![], seq![])
    } else {
        let prev = screen_spec(items.drop_last(), patterns);
        let t = trim(items.last().0);
        if t.len() == 0 {
            prev
        } else if is_template_spec(t, patterns) {
            (prev.0, prev.1.push(t))
        } else {
            (prev.0.push((t, items.last().1)), prev.1)
        }
    }
}

/// At most the first three candidates are screened.
pub open spec fn filter_raised_spec(items: Seq<(Seq<char>, Seq<char>)>, patterns: Seq<Seq<char>>) -> (
    Seq<(Seq<char>, Seq<char>)>,
    Seq<Seq<char>>,
) {
    screen_spec(
        items.subrange(
            0,
            if items.len() < 3 {
                items.len() as int
            } else {
                3
            },
        ),
        patterns,
    )
}

/// Screens proposed questions against `patterns`: returns the kept
/// questions and the titles set aside as templated.
pub fn filter_raised_candidates_with(items: Vec<RaisedQItem>, patterns: &Vec<&str>) -> (r: (
    Vec<RaisedQItem>,
    Vec<String>,
))
    ensures
        ({
            let s = filter_raised_spec(items_view(items@), patterns@.map_values(|p: &str| p@));
            &&& items_view(r.0@) == s.0
            &&& r.1@.map_values(|t: String| t@) == s.1
        }),
{
    let ghost iv = items_view(items@);
    let ghost pv = patterns@.map_values(|p: &str| p@);
    let n: usize = if items.len() < 3 {
        items.len()
    } else {
        3
    };
    let mut kept: Vec<RaisedQItem> = Vec::new();
    let mut skipped: Vec<String> = Vec::new();
    let mut i: usize = 0;
    while i < n
        invariant
            i <= n <= items@.len(),
            iv == items_view(items@),
            pv == patterns@.map_values(|p: &str| p@),
            items_view(kept@) == screen_spec(iv.subrange(0, i as int), pv).0,
            skipped@.map_values(|t: String| t@) == screen_spec(iv.subrange(0, i as int), pv).1,
        decreases n - i,
    {
        let ghost sub = iv.subrange(0, i + 1);
        proof {
            assert(sub.drop_last() =~= iv.subrange(0, i as int));
            assert(sub.last() == (items@[i as int].title@, items@[i as int].body@));
        }
        let q = &items[i];
        let title = trim_str(q.title.as_str());
        if !title.as_str().is_empty() {
            if is_template_question_with(title.as_str(), patterns) {
                let ghost before = skipped@.map_values(|t: String| t@);
                skipped.push(title);
                assert(skipped@.map_values(|t: String| t@) =~= before.push(trim(items@[i as int].title@)));
            } else {
                let ghost before = items_view(kept@);
                kept.push(RaisedQItem { title, body: q.body.clone() });
                assert(items_view(kept@) =~= before.push(
                    (trim(items@[i as int].title@), items@[i as int].body@),
                ));
            }
        }
        i = i + 1;
    }
    (kept, skipped)
}

/// Screens proposed questions against the default template patterns.
pub fn filter_raised_candidates(items: Vec<RaisedQItem>) -> (r: (Vec<RaisedQItem>, Vec<String>))
    ensures
        ({
            let s = filter_raised_spec(items_view(items@), default_patterns());
            &&& items_view(r.0@) == s.0
            &&& r.1@.map_values(|t: String| t@) == s.1
        }),
{
    let pats = default_template_question_regexes();
    assert(pats@.map_values(|p: &str| p@) =~= default_patterns());
    filter_raised_candidates_with(items, &pats)
}

pub open spec fn questions_word() -> Seq<char> {
    seq!['q', 'u', 'e', 's', 't', 'i', 'o', 'n', 's']
}

/// Whether question `id` is among the resolved references.
pub open spec fn is_resolved(resolved: Seq<(Seq<char>, Seq<char>)>, id: Seq<char>) -> bool {
    exists|j: int| 0 <= j < resolved.len() && resolved[j].0 == questions_word() && (#[trigger] resolved[j]).1 == id
}

/// Questions among `refs` that are not resolved.
pub open spec fn open_count(refs: Seq<(Seq<char>, Seq<char>)>, resolved: Seq<(Seq<char>, Seq<char>)>) -> nat
    decreases refs.len(),
{
    if refs.len() == 0 {
        0
    } else {
        open_count(refs.drop_last(), resolved) + if refs.last().0 == questions_word() && !is_resolved(
            resolved,
            refs.last().1,
        ) {
            1nat
        } else {
            0nat
        }
    }
}

pub open spec fn general_word() -> Seq<char> {
    seq!['g', 'e', 'n', 'e', 'r', 'a', 'l']
}

pub open spec fn resolved_word() -> Seq<char> {
    seq!['r', 'e', 's', 'o', 'l', 'v', 'e', 'd']
}

fn resolved_contains(resolved: &Vec<DocRef>, id: &str) -> (r: bool)
    ensures
        r == is_resolved(refs_view(resolved@), id@),
{
    proof {
        reveal_strlit("questions");
        assert("questions"@ == questions_word());
    }
    let ghost rv = refs_view(resolved@);
    let mut j: usize = 0;
    while j < resolved.len()
        invariant
            j <= resolved@.len(),
            rv == refs_view(resolved@),
            "questions"@ == questions_word(),
            forall|k: int| 0 <= k < j ==> !(rv[k].0 == questions_word() && (#[trigger] rv[k]).1 == id@),
        decreases resolved@.len() - j,
    {
        assert(rv[j as int] == resolved@[j as int]@);
        if str_eq(resolved[j].doc_type.as_str(), "questions") && str_eq(resolved[j].id.as_str(), id) {
            return true;
        }
        j = j + 1;
    }
    false
}

/// Open (not resolved) questions tagged with `purpose` (default
/// `general`), from the cache's tag index; `None` while the indexes are not
/// built.
pub fn count_open_questions_in_purpose<P, E>(cache: &RootCache<P, E>, purpose: Option<&str>) -> (r: Option<usize>)
    ensures
        r is Some <==> cache@.index is Some,
        r matches Some(n) ==> n == open_count(
            tag_lookup_spec(
                cache@.index->0,
                match purpose {
                    Some(p) => p@,
                    None => general_word(),
                },
            ),
            tag_lookup_spec(cache@.index->0, resolved_word()),
        ),
{
    proof {
        reveal_strlit("general");
        reveal_strlit("resolved");
        reveal_strlit("questions");
        assert("general"@ == general_word());
        assert("resolved"@ == resolved_word());
        assert("questions"@ == questions_word());
    }
    let tag = match purpose {
        Some(p) => p,
        None => "general",
    };
    let by = match cache.tag_index_lookup(tag) {
        Some(v) => v,
        None => {
            return None;
        },
    };
    let resolved = match cache.tag_index_lookup("resolved") {
        Some(v) => v,
        None => {
            return None;
        },
    };
    let ghost bv = refs_view(by@);
    let ghost rv = refs_view(resolved@);
    let mut n: usize = 0;
    let mut k: usize = 0;
    while k < by.len()
        invariant
            k <= by@.len(),
            bv == refs_view(by@),
            rv == refs_view(resolved@),
            "questions"@ == questions_word(),
            n == open_count(bv.subrange(0, k as int), rv),
            n <= k,
        decreases by@.len() - k,
    {
        proof {
            let s = bv.subrange(0, k + 1);
            assert(s.drop_last() =~= bv.subrange(0, k as int));
            assert(s.last() == by@[k as int]@);
        }
        let d = &by[k];
        if str_eq(d.doc_type.as_str(), "questions") && !resolved_contains(&resolved, d.id.as_str()) {
            n = n + 1;
        }
        k = k + 1;
    }
    assert(bv.subrange(0, by@.len() as int) =~= bv);
    Some(n)
}

/// How many new questions a purpose still takes: its cap less its open
/// questions, never below zero.
pub fn raise_slots(cap: usize, open: usize) -> (r: usize)
    ensures
        r == if cap >= open {
            cap - open
        } else {
            0
        },
{
    if cap >= open {
        cap - open
    } else {
        0
    }
}

/// The body a raised question gets: its own, or its title when that is
/// blank.
pub fn question_body(title: &str, body: &str) -> (r: String)
    ensures
        r@ == if trim(body@).len() == 0 {
            title@
        } else {
            body@
        },
{
    if trim_str(body).as_str().as_bytes().len() == 0 {
        proof {
            let t = trim(body@);
            if t.len() > 0 {
                crate::text::lemma_encode_concat(seq![t[0]], t.drop_first());
                assert(seq![t[0]] + t.drop_first() =~= t);
            }
        }
        string_of(chars_of(title).as_slice())
    } else {
        proof {
            assert(trim(body@).len() > 0) by {
                if trim(body@).len() == 0 {
                    assert(vstd::utf8::encode_utf8(trim(body@)) =~= Seq::<u8>::empty());
                }
            }
        }
        string_of(chars_of(body).as_slice())
    }
}

/// The purpose tag a question is filed under: its purpose, or `general`.
pub open spec fn purpose_tag_spec(purpose: Option<Seq<char>>) -> Seq<char> {
    match purpose {
        Some(p) => p,
        None => "general"@,
    }
}

/// The tags a raised question gets: `question`, its purpose tag, its hash.
pub fn question_tags(purpose: Option<&str>, hash: &str) -> (r: Vec<String>)
    ensures
        r@.map_values(|s: String| s@) == seq![
            "question"@,
            purpose_tag_spec(match purpose {
                Some(p) => Some(p@),
                None => None,
            }),
            hash@,
        ],
{
    let mut v: Vec<String> = Vec::new();
    v.push(string_of(chars_of("question").as_slice()));
    match purpose {
        Some(p) => v.push(string_of(chars_of(p).as_slice())),
        None => v.push(string_of(chars_of("general").as_slice())),
    }
    v.push(string_of(chars_of(hash).as_slice()));
    let ghost pv: Option<Seq<char>> = match purpose {
        Some(p) => Some(p@),
        None => None,
    };
    assert(v@.map_values(|s: String| s@) =~= seq!["question"@, purpose_tag_spec(pv), hash@]);
    v
}

/// The title of a question raised from a search that found nothing: the
/// query trimmed, when at least five bytes long.
pub fn search_miss_title(query: &str) -> (r: Option<String>)
    ensures
        match r {
            Some(t) => t@ == trim(query@) && vstd::utf8::encode_utf8(trim(query@)).len() >= 5,
            None => vstd::utf8::encode_utf8(trim(query@)).len() < 5,
        },
{
    let t = trim_str(query);
    if t.as_str().as_bytes().len() < 5 {
        None
    } else {
        Some(t)
    }
}

/// The body of a question raised from a search that found nothing.
pub fn search_miss_body(title: &str) -> (r: String)
    ensures
        r@ == "Raised from search miss: "@ + title@,
{
    let mut v: Vec<char> = chars_of("Raised from search miss: ");
    push_str_chars(&mut v, title);
    string_of(v.as_slice())
}

// ── Laws of the open-question count ─────────────────────────────────────

/// How many references are question documents, resolved or not.
pub open spec fn question_refs(refs: Seq<(Seq<char>, Seq<char>)>) -> nat
    decreases refs.len(),
{
    if refs.len() == 0 {
        0
    } else {
        question_refs(refs.drop_first()) + if refs[0].0 == "questions"@ {
            1nat
        } else {
            0nat
        }
    }
}

proof fn lemma_question_refs_push(refs: Seq<(Seq<char>, Seq<char>)>, x: (Seq<char>, Seq<char>))
    ensures
        question_refs(refs.push(x)) == question_refs(refs) + if x.0 == "questions"@ {
            1nat
        } else {
            0nat
        },
    decreases refs.len(),
{
    if refs.len() > 0 {
        assert(refs.push(x).drop_first() =~= refs.drop_first().push(x));
        assert(refs.push(x)[0] == refs[0]);
        lemma_question_refs_push(refs.drop_first(), x);
    } else {
        assert(refs.push(x).drop_first() =~= Seq::<(Seq<char>, Seq<char>)>::empty());
        assert(refs.push(x)[0] == x);
        assert(question_refs(refs) == 0);
        assert(question_refs(refs.push(x).drop_first()) == 0);
    }
}

/// Only questions are counted: the open count of a purpose is at most the
/// number of its documents that are questions.
pub proof fn law_open_count_only_questions(
    refs: Seq<(Seq<char>, Seq<char>)>,
    resolved: Seq<(Seq<char>, Seq<char>)>,
)
    ensures
        open_count(refs, resolved) <= question_refs(refs),
    decreases refs.len(),
{
    reveal_strlit("questions");
    if refs.len() > 0 {
        law_open_count_only_questions(refs.drop_last(), resolved);
        lemma_question_refs_push(refs.drop_last(), refs.last());
        assert(refs.drop_last().push(refs.last()) =~= refs);
        assert("questions"@ == questions_word());
    }
}

/// No documents count no open questions; a document that is not a
/// question never changes the open count; an open question adds one, a
/// resolved one nothing.
pub proof fn law_open_count_step(
    refs: Seq<(Seq<char>, Seq<char>)>,
    resolved: Seq<(Seq<char>, Seq<char>)>,
    doc_type: Seq<char>,
    id: Seq<char>,
)
    ensures
        open_count(Seq::<(Seq<char>, Seq<char>)>::empty(), resolved) == 0,
        doc_type != "questions"@ ==> open_count(refs.push((doc_type, id)), resolved) == open_count(refs, resolved),
        doc_type == "questions"@ && !resolved.contains(("questions"@, id)) ==> open_count(
            refs.push((doc_type, id)),
            resolved,
        ) == open_count(refs, resolved) + 1,
        doc_type == "questions"@ && resolved.contains(("questions"@, id)) ==> open_count(
            refs.push((doc_type, id)),
            resolved,
        ) == open_count(refs, resolved),
{
    reveal_strlit("questions");
    assert("questions"@ == questions_word());
    let s = refs.push((doc_type, id));
    assert(s.drop_last() =~= refs);
    if resolved.contains(("questions"@, id)) {
        let j = choose|j: int| 0 <= j < resolved.len() && resolved[j] == ("questions"@, id);
        assert(resolved[j].0 == questions_word() && resolved[j].1 == id);
    } else if is_resolved(resolved, id) {
        let j = choose|j: int| 0 <= j < resolved.len() && resolved[j].0 == questions_word() && resolved[j].1 == id;
        assert(resolved[j] == ("questions"@, id));
    }
}

} // verus!
