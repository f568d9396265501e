//! The feedback pass: which lines of the feedback log a pass reads and how
//! far its cursor moves, and the question and edges a feedback entry
//! stands for.

use vstd::prelude::*;
use crate::text::{char_range, chars_of, push_str_chars, str_eq, string_of, trim, trim_chars};

verus! {

/// Pieces of `s` each ending with its `\n` (the last may lack one), as
/// `str::split_inclusive('\n')` yields them.
pub open spec fn split_incl(s: Seq<char>) -> Seq<Seq<char>>
    decreases s.len(),
{
    if s.len() == 0 {
        seq![]
    } else {
        let prev = split_incl(s.drop_last());
        if prev.len() == 0 || prev.last().last() == '\n' {
            prev.push(seq![s.last()])
        } else {
            prev.update(prev.len() - 1, prev.last().push(s.last()))
        }
    }
}

/// A log line without its line break, trimmed.
pub open spec fn stripped(line: Seq<char>) -> Seq<char> {
    trim(if line.len() > 0 && line.last() == '\n' {
        line.drop_last()
    } else {
        line
    })
}

pub open spec fn byte_len(s: Seq<char>) -> nat {
    vstd::utf8::encode_utf8(s).len()
}

/// Reading log lines `i..` with `taken` entries already taken: the
/// entries read (non-blank lines, at most `limit` in all) and the bytes
/// consumed (the lines read, blank ones included, up to the first entry
/// left for later).
pub open spec fn fb_scan(ls: Seq<Seq<char>>, i: int, limit: nat, taken: nat) -> (Seq<Seq<char>>, nat)
    decreases ls.len() - i,
{
    if i < 0 || i >= ls.len() {
        (seq![], 0)
    } else {
        let l = ls[i];
        if stripped(l).len() == 0 {
            let r = fb_scan(ls, i + 1, limit, taken);
            (r.0, r.1 + byte_len(l))
        } else if taken >= limit {
            (seq![], 0)
        } else {
            let r = fb_scan(ls, i + 1, limit, taken + 1);
            (seq![stripped(l)] + r.0, r.1 + byte_len(l))
        }
    }
}

/// What a feedback pass reads from the log text after its cursor: the
/// entries it processes and the bytes its cursor advances.
pub open spec fn feedback_plan_spec(text: Seq<char>, limit: nat) -> (Seq<Seq<char>>, nat) {
    fb_scan(split_incl(text), 0, limit, 0)
}

fn split_lines_incl(s: &[char]) -> (r: Vec<Vec<char>>)
    ensures
        r@.map_values(|l: Vec<char>| l@) == split_incl(s@),
{
    let mut out: Vec<Vec<char>> = Vec::new();
    let mut cur: Vec<char> = Vec::new();
    let mut i: usize = 0;
    assert(s@.subrange(0, 0) =~= Seq::<char>::empty());
    while i < s.len()
        invariant
            i <= s@.len(),
            ({
                let sp = split_incl(s@.subrange(0, i as int));
                if cur@.len() == 0 {
                    out@.map_values(|l: Vec<char>| l@) == sp && (sp.len() == 0 || sp.last().last() == '\n')
                } else {
                    sp.len() > 0 && out@.map_values(|l: Vec<char>| l@) == sp.drop_last() && sp.last() == cur@
                        && cur@.last() != '\n'
                }
            }),
        decreases s@.len() - i,
    {
        let ghost sp = split_incl(s@.subrange(0, i as int));
        let ghost sp2 = split_incl(s@.subrange(0, i + 1));
        assert(s@.subrange(0, i + 1).drop_last() =~= s@.subrange(0, i as int));
        let ghost before = out@.map_values(|l: Vec<char>| l@);
        cur.push(s[i]);
        if cur.len() == 1 {
            assert(sp2 == sp.push(seq![s@[i as int]]));
            assert(cur@ =~= seq![s@[i as int]]);
        } else {
            assert(sp2 == sp.update(sp.len() - 1, sp.last().push(s@[i as int])));
        }
        let ghost cv = cur@;
        proof {
            if cur@.len() == 1 {
                assert(sp2 =~= before.push(cv));
            } else {
                assert(sp2 =~= before.push(cv));
            }
        }
        if s[i] == '\n' {
            let done = cur;
            cur = Vec::new();
            out.push(done);
            assert(out@.map_values(|l: Vec<char>| l@) =~= before.push(cv));
        } else {
            proof {
                if sp2.len() == sp.len() {
                    assert(sp2.drop_last() =~= sp.drop_last());
                } else {
                    assert(sp2.drop_last() =~= sp);
                }
            }
        }
        i = i + 1;
    }
    assert(s@.subrange(0, s@.len() as int) =~= s@);
    if cur.len() > 0 {
        let ghost before = out@.map_values(|l: Vec<char>| l@);
        out.push(cur);
        assert(out@.map_values(|l: Vec<char>| l@) =~= before.push(split_incl(s@).last()));
        assert(split_incl(s@) =~= split_incl(s@).drop_last().push(split_incl(s@).last()));
    }
    out
}

fn strip_line(l: &Vec<char>) -> (r: Vec<char>)
    ensures
        r@ == stripped(l@),
{
    if l.len() > 0 && l[l.len() - 1] == '\n' {
        let d = char_range(l.as_slice(), 0, l.len() - 1);
        assert(d@ =~= l@.drop_last());
        trim_chars(d.as_slice())
    } else {
        trim_chars(l.as_slice())
    }
}

/// What a feedback pass reads (see `feedback_plan_spec`).
pub fn feedback_plan(text: &str, limit: usize) -> (r: (Vec<String>, u64))
    ensures
        r.0@.map_values(|s: String| s@) == feedback_plan_spec(text@, limit as nat).0,
        r.1 as nat == feedback_plan_spec(text@, limit as nat).1,
{
    let cs = chars_of(text);
    let ls = split_lines_incl(cs.as_slice());
    let ghost lv = ls@.map_values(|l: Vec<char>| l@);
    let mut entries: Vec<String> = Vec::new();
    let mut consumed: u64 = 0;
    let mut taken: usize = 0;
    let mut i: usize = 0;
    let n = ls.len();
    let total: u64 = text.as_bytes().len() as u64;
    proof {
        lemma_split_incl_concat(cs@);
    }
    while i < n
        invariant
            i <= n == ls@.len(),
            lv == ls@.map_values(|l: Vec<char>| l@),
            lv == split_incl(text@),
            taken <= limit,
            consumed as nat + lines_bytes(lv, i as int, n as int) <= total,
            ({
                let rest = fb_scan(lv, i as int, limit as nat, taken as nat);
                let all = feedback_plan_spec(text@, limit as nat);
                entries@.map_values(|s: String| s@) + rest.0 == all.0 && consumed + rest.1 == all.1
            }),
        decreases n - i,
    {
        assert(lv[i as int] == ls@[i as int]@);
        let st = strip_line(&ls[i]);
        let lb = string_of(ls[i].as_slice()).as_str().as_bytes().len() as u64;
        proof {
            lemma_lines_bytes_split(lv, i as int, n as int);
        }
        if st.len() == 0 {
            consumed = consumed + lb;
        } else if taken >= limit {
            assert(fb_scan(lv, i as int, limit as nat, taken as nat) == (Seq::<Seq<char>>::empty(), 0nat));
            assert(entries@.map_values(|s: String| s@) + Seq::<Seq<char>>::empty() =~= entries@.map_values(|s: String| s@));
            return (entries, consumed);
        } else {
            let ghost before = entries@.map_values(|s: String| s@);
            entries.push(string_of(st.as_slice()));
            assert(entries@.map_values(|s: String| s@) =~= before.push(st@));
            let ghost rest = fb_scan(lv, i + 1, limit as nat, (taken + 1) as nat);
            assert(before + (seq![st@] + rest.0) =~= before.push(st@) + rest.0);
            consumed = consumed + lb;
            taken = taken + 1;
        }
        i = i + 1;
    }
    (entries, consumed)
}

/// Bytes of lines `i..j`.
pub open spec fn lines_bytes(ls: Seq<Seq<char>>, i: int, j: int) -> nat
    decreases j - i,
{
    if i >= j || i < 0 || j > ls.len() {
        0
    } else {
        byte_len(ls[i]) + lines_bytes(ls, i + 1, j)
    }
}

proof fn lemma_lines_bytes_split(ls: Seq<Seq<char>>, i: int, j: int)
    requires
        0 <= i < j <= ls.len(),
    ensures
        lines_bytes(ls, i, j) == byte_len(ls[i]) + lines_bytes(ls, i + 1, j),
{
}

/// The pieces of a text put together again are the text.
pub open spec fn concat_all(ls: Seq<Seq<char>>) -> Seq<char>
    decreases ls.len(),
{
    if ls.len() == 0 {
        seq![]
    } else {
        concat_all(ls.drop_last()) + ls.last()
    }
}

proof fn lemma_split_incl_concat(s: Seq<char>)
    ensures
        lines_bytes(split_incl(s), 0, split_incl(s).len() as int) == byte_len(s),
    decreases s.len(),
{
    lemma_concat_bytes(split_incl(s));
    lemma_split_incl_concat_eq(s);
}

proof fn lemma_split_incl_concat_eq(s: Seq<char>)
    ensures
        concat_all(split_incl(s)) == s,
    decreases s.len(),
{
    if s.len() > 0 {
        lemma_split_incl_concat_eq(s.drop_last());
        let prev = split_incl(s.drop_last());
        if prev.len() == 0 || prev.last().last() == '\n' {
            assert(split_incl(s).drop_last() =~= prev);
            assert(s =~= s.drop_last() + seq![s.last()]);
        } else {
            let cur = split_incl(s);
            assert(cur.drop_last() =~= prev.drop_last());
            assert(concat_all(prev) == concat_all(prev.drop_last()) + prev.last());
            assert(s =~= (concat_all(prev.drop_last()) + prev.last()) + seq![s.last()]);
            assert(cur.last() =~= prev.last().push(s.last()));
        }
    }
}

proof fn lemma_concat_bytes(ls: Seq<Seq<char>>)
    ensures
        lines_bytes(ls, 0, ls.len() as int) == byte_len(concat_all(ls)),
    decreases ls.len(),
{
    if ls.len() > 0 {
        lemma_concat_bytes(ls.drop_last());
        lemma_lines_bytes_last(ls, 0, ls.len() as int);
        assert(lines_bytes(ls.drop_last(), 0, ls.len() - 1) == lines_bytes(ls, 0, ls.len() - 1)) by {
            lemma_lines_bytes_prefix(ls, 0, ls.len() - 1);
        }
        crate::text::lemma_encode_concat(concat_all(ls.drop_last()), ls.last());
    }
}

proof fn lemma_lines_bytes_last(ls: Seq<Seq<char>>, i: int, j: int)
    requires
        0 <= i < j <= ls.len(),
    ensures
        lines_bytes(ls, i, j) == lines_bytes(ls, i, j - 1) + byte_len(ls[j - 1]),
    decreases j - i,
{
    reveal_with_fuel(lines_bytes, 2);
    if i + 1 < j {
        lemma_lines_bytes_last(ls, i + 1, j);
    }
}

proof fn lemma_lines_bytes_prefix(ls: Seq<Seq<char>>, i: int, j: int)
    requires
        0 <= i <= j < ls.len(),
    ensures
        lines_bytes(ls.drop_last(), i, j) == lines_bytes(ls, i, j),
    decreases j - i,
{
    if i < j {
        lemma_lines_bytes_prefix(ls, i + 1, j);
    }
}

proof fn lemma_scan_bounds(ls: Seq<Seq<char>>, i: int, limit: nat, taken: nat)
    requires
        0 <= i <= ls.len(),
        taken <= limit,
    ensures
        fb_scan(ls, i, limit, taken).0.len() <= limit - taken,
        fb_scan(ls, i, limit, taken).1 <= lines_bytes(ls, i, ls.len() as int),
    decreases ls.len() - i,
{
    if i < ls.len() {
        let l = ls[i];
        if stripped(l).len() == 0 {
            lemma_scan_bounds(ls, i + 1, limit, taken);
        } else if taken < limit {
            lemma_scan_bounds(ls, i + 1, limit, taken + 1);
        }
    }
}

/// A feedback pass reads at most `limit` entries, and its cursor never
/// moves past the end of the log.
pub proof fn law_feedback_bounded(text: Seq<char>, limit: nat)
    ensures
        feedback_plan_spec(text, limit).0.len() <= limit,
        feedback_plan_spec(text, limit).1 <= byte_len(text),
{
    lemma_scan_bounds(split_incl(text), 0, limit, 0);
    lemma_split_incl_concat(text);
}

proof fn lemma_scan_all(ls: Seq<Seq<char>>, i: int, limit: nat, taken: nat)
    requires
        0 <= i <= ls.len(),
        taken + (ls.len() - i) <= limit,
    ensures
        fb_scan(ls, i, limit, taken).1 == lines_bytes(ls, i, ls.len() as int),
    decreases ls.len() - i,
{
    if i < ls.len() {
        if stripped(ls[i]).len() == 0 {
            lemma_scan_all(ls, i + 1, limit, taken);
        } else {
            lemma_scan_all(ls, i + 1, limit, taken + 1);
        }
    }
}

/// A pass whose limit covers every line of the log reads the log to its
/// end: the cursor moves by the log's whole length.
pub proof fn law_feedback_reads_all(text: Seq<char>, limit: nat)
    requires
        split_incl(text).len() <= limit,
    ensures
        feedback_plan_spec(text, limit).1 == byte_len(text),
{
    lemma_scan_all(split_incl(text), 0, limit, 0);
    lemma_split_incl_concat(text);
}

/// A feedback entry: the question searched, the filter used, the picked
/// documents and the reasons given for picks.
pub struct FeedbackEntry {
    pub question: String,
    pub tag_filter: Option<String>,
    pub picked: Vec<String>,
    pub reasons: Vec<(String, String)>,
}

/// The reason recorded last for a pick.
pub open spec fn reason_for(reasons: Seq<(String, String)>, pid: Seq<char>) -> Option<Seq<char>>
    decreases reasons.len(),
{
    if reasons.len() == 0 {
        None
    } else if reasons.last().0@ == pid {
        Some(reasons.last().1@)
    } else {
        reason_for(reasons.drop_last(), pid)
    }
}

/// The edge body for a pick: its non-empty reason, else a note naming the
/// question.
pub open spec fn pick_body(reasons: Seq<(String, String)>, pid: Seq<char>, question: Seq<char>) -> Seq<char> {
    match reason_for(reasons, pid) {
        Some(r) if r.len() > 0 => r,
        _ => "Picked as relevant to: "@ + question,
    }
}

/// What a feedback entry stands for: a question filed under the search's
/// filter (else `general`) and a `References` edge to each pick.
pub struct FeedbackDecision {
    pub purpose: String,
    /// `(picked id, kind, body)`.
    pub edges: Vec<(String, String, String)>,
}

fn reason_lookup(reasons: &Vec<(String, String)>, pid: &str) -> (r: Option<String>)
    ensures
        match r {
            Some(x) => reason_for(reasons@, pid@) == Some(x@),
            None => reason_for(reasons@, pid@) is None,
        },
{
    let mut i: usize = reasons.len();
    assert(reasons@.subrange(0, reasons@.len() as int) =~= reasons@);
    while i > 0
        invariant
            i <= reasons@.len(),
            reason_for(reasons@, pid@) == reason_for(reasons@.subrange(0, i as int), pid@),
        decreases i,
    {
        let ghost t = reasons@.subrange(0, i as int);
        assert(t.drop_last() =~= reasons@.subrange(0, i - 1));
        if str_eq(reasons[i - 1].0.as_str(), pid) {
            return Some(reasons[i - 1].1.clone());
        }
        i = i - 1;
    }
    None
}

/// What a feedback entry stands for (see `FeedbackDecision`).
pub fn decide(entry: &FeedbackEntry) -> (r: FeedbackDecision)
    ensures
        r.purpose@ == match entry.tag_filter {
            Some(t) => t@,
            None => "general"@,
        },
        r.edges@.len() == entry.picked@.len(),
        forall|k: int| 0 <= k < r.edges@.len() ==> (#[trigger] r.edges@[k]).0@ == entry.picked@[k]@ && r.edges@[k].1@
            == "References"@ && r.edges@[k].2@ == pick_body(entry.reasons@, entry.picked@[k]@, entry.question@),
{
    let purpose = match &entry.tag_filter {
        Some(t) => t.clone(),
        None => string_of(chars_of("general").as_slice()),
    };
    let mut edges: Vec<(String, String, String)> = Vec::new();
    let mut i: usize = 0;
    while i < entry.picked.len()
        invariant
            i <= entry.picked@.len(),
            edges@.len() == i,
            forall|k: int| 0 <= k < i ==> (#[trigger] edges@[k]).0@ == entry.picked@[k]@ && edges@[k].1@
                == "References"@ && edges@[k].2@ == pick_body(entry.reasons@, entry.picked@[k]@, entry.question@),
        decreases entry.picked@.len() - i,
    {
        let pid = &entry.picked[i];
        let body = match reason_lookup(&entry.reasons, pid.as_str()) {
            Some(r) if chars_of(r.as_str()).len() > 0 => r,
            _ => {
                let mut v: Vec<char> = chars_of("Picked as relevant to: ");
                push_str_chars(&mut v, entry.question.as_str());
                string_of(v.as_slice())
            },
        };
        edges.push((pid.clone(), string_of(chars_of("References").as_slice()), body));
        i = i + 1;
    }
    FeedbackDecision { purpose, edges }
}

} // verus!
