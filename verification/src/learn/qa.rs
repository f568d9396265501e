//! The bookkeeping of a learn pass: the documents it draws from, its
//! pseudo-random sampling, its cursor, its budget of model calls, the
//! questions it works on and the progress check at its end.

use vstd::prelude::*;
use vstd::wrapping::u64_specs::{wrapping_add, wrapping_mul};
use crate::cache::DocRef;
use crate::text::{char_range, chars_of, find_chars, lines, lines_of, push_chars, push_str_chars, str_eq, string_of, trim, trim_chars};
use crate::unicode::{alphanumeric, is_alphanumeric};

verus! {

/// One SplitMix64 step: the advanced state and the output drawn from it.
pub open spec fn splitmix_spec(state: u64) -> (u64, u64) {
    let s = wrapping_add(state, 0x9E3779B97F4A7C15u64);
    let z1 = wrapping_mul(s ^ (s >> 30u64), 0xBF58476D1CE4E5B9u64);
    let z2 = wrapping_mul(z1 ^ (z1 >> 27u64), 0x94D049BB133111EBu64);
    (s, z2 ^ (z2 >> 31u64))
}

/// Advances `state` and returns the next SplitMix64 output.
pub fn next_rand(state: &mut u64) -> (r: u64)
    ensures
        (*final(state), r) == splitmix_spec(*old(state)),
{
    *state = state.wrapping_add(0x9E3779B97F4A7C15);
    let mut z = *state;
    z = (z ^ (z >> 30)).wrapping_mul(0xBF58476D1CE4E5B9);
    z = (z ^ (z >> 27)).wrapping_mul(0x94D049BB133111EB);
    z ^ (z >> 31)
}

/// A document a pass may visit: kind, id and purpose.
pub struct PassDoc {
    pub doc_type: String,
    pub id: String,
    pub purpose: Option<String>,
}

/// `(kind, id)` of the documents a pass draws from: all of them, or those
/// of the given purpose.
pub open spec fn universe_spec(docs: Seq<PassDoc>, purpose: Option<Seq<char>>) -> Seq<(Seq<char>, Seq<char>)>
    decreases docs.len(),
{
    if docs.len() == 0 {
        seq![]
    } else {
        let prev = universe_spec(docs.drop_last(), purpose);
        let d = docs.last();
        let keep = match purpose {
            Some(p) => d.purpose matches Some(q) && q@ == p,
            None => true,
        };
        if keep {
            prev.push((d.doc_type@, d.id@))
        } else {
            prev
        }
    }
}

pub open spec fn pairs_view(v: Seq<(String, String)>) -> Seq<(Seq<char>, Seq<char>)> {
    v.map_values(|p: (String, String)| (p.0@, p.1@))
}

/// The documents a pass draws from (see `universe_spec`).
pub fn pass_universe(docs: &Vec<PassDoc>, purpose: Option<&str>) -> (r: Vec<(String, String)>)
    ensures
        pairs_view(r@) == universe_spec(docs@, match purpose {
            Some(p) => Some(p@),
            None => None,
        }),
{
    let ghost pv: Option<Seq<char>> = match purpose {
        Some(p) => Some(p@),
        None => None,
    };
    let mut out: Vec<(String, String)> = Vec::new();
    let mut i: usize = 0;
    while i < docs.len()
        invariant
            i <= docs@.len(),
            pv == match purpose {
                Some(p) => Some(p@),
                None => None,
            },
            pairs_view(out@) == universe_spec(docs@.subrange(0, i as int), pv),
        decreases docs@.len() - i,
    {
        let ghost t = docs@.subrange(0, i + 1);
        assert(t.drop_last() =~= docs@.subrange(0, i as int));
        assert(t.last() == docs@[i as int]);
        let d = &docs[i];
        let keep = match purpose {
            Some(p) => match &d.purpose {
                Some(q) => str_eq(q.as_str(), p),
                None => false,
            },
            None => true,
        };
        if keep {
            let ghost before = pairs_view(out@);
            out.push((d.doc_type.clone(), d.id.clone()));
            assert(pairs_view(out@) =~= before.push((d.doc_type@, d.id@)));
        }
        i = i + 1;
    }
    assert(docs@.subrange(0, docs@.len() as int) =~= docs@);
    out
}

/// The key a pass's cursor is kept under: its purpose, or `<global>`.
pub fn cursor_key(purpose: Option<&str>) -> (r: String)
    ensures
        r@ == match purpose {
            Some(p) => p@,
            None => "<global>"@,
        },
{
    match purpose {
        Some(p) => string_of(chars_of(p).as_slice()),
        None => string_of(chars_of("<global>").as_slice()),
    }
}

/// A character kept in a cursor file name; others become `_`.
pub open spec fn cursor_char(c: char) -> char {
    if alphanumeric(c) || c == '-' || c == '_' || c == '<' || c == '>' {
        c
    } else {
        '_'
    }
}

/// The file name of a pass cursor: `.learn.cursor.` and the key with other
/// characters than alphanumerics, `-`, `_`, `<`, `>` replaced by `_`.
pub open spec fn cursor_file_spec(key: Seq<char>) -> Seq<char> {
    ".learn.cursor."@ + key.map_values(|c: char| cursor_char(c))
}

/// The file name of a pass cursor (see `cursor_file_spec`).
pub fn cursor_file_name(key: &str) -> (r: String)
    ensures
        r@ == cursor_file_spec(key@),
{
    let cs = chars_of(key);
    let mut out: Vec<char> = chars_of(".learn.cursor.");
    let ghost base = out@;
    let mut i: usize = 0;
    while i < cs.len()
        invariant
            i <= cs@.len(),
            cs@ == key@,
            out@ == base + cs@.subrange(0, i as int).map_values(|c: char| cursor_char(c)),
        decreases cs@.len() - i,
    {
        let c = cs[i];
        let k = if is_alphanumeric(c) || c == '-' || c == '_' || c == '<' || c == '>' {
            c
        } else {
            '_'
        };
        out.push(k);
        assert(cs@.subrange(0, i + 1).map_values(|c: char| cursor_char(c)) =~= cs@.subrange(0, i as int).map_values(
            |c: char| cursor_char(c),
        ).push(cursor_char(c)));
        i = i + 1;
    }
    assert(cs@.subrange(0, cs@.len() as int) =~= cs@);
    string_of(out.as_slice())
}

/// What a pass cursor file records: `<kind>/<id>` on its first line
/// (trimmed, split at the first `/`, both parts non-empty).
pub open spec fn parse_cursor_spec(raw: Seq<char>) -> Option<(Seq<char>, Seq<char>)> {
    let ls = lines(raw);
    if ls.len() == 0 {
        None
    } else {
        let first = trim(ls[0]);
        let k = crate::text::find_sub(first, seq!['/']);
        if k < 0 {
            None
        } else {
            let dt = first.subrange(0, k);
            let id = first.subrange(k + 1, first.len() as int);
            if dt.len() == 0 || id.len() == 0 {
                None
            } else {
                Some((dt, id))
            }
        }
    }
}

/// What a pass cursor file records (see `parse_cursor_spec`).
pub fn parse_pass_cursor(raw: &str) -> (r: Option<(String, String)>)
    ensures
        match r {
            Some((a, b)) => parse_cursor_spec(raw@) == Some((a@, b@)),
            None => parse_cursor_spec(raw@) is None,
        },
{
    let cs = chars_of(raw);
    let ls = lines_of(cs.as_slice());
    proof {
        assert(ls@.map_values(|l: Vec<char>| l@) == lines(raw@));
    }
    if ls.len() == 0 {
        return None;
    }
    assert(ls@.map_values(|l: Vec<char>| l@)[0] == ls@[0]@);
    let first = trim_chars(ls[0].as_slice());
    let slash: Vec<char> = vec!['/'];
    assert(slash@ =~= seq!['/']);
    match find_chars(first.as_slice(), slash.as_slice()) {
        None => None,
        Some(k) => {
            let fl = first.len();
            assert(k + 1 <= fl);
            let dt = char_range(first.as_slice(), 0, k);
            let id = char_range(first.as_slice(), k + 1, fl);
            if dt.len() == 0 || id.len() == 0 {
                None
            } else {
                Some((string_of(dt.as_slice()), string_of(id.as_slice())))
            }
        },
    }
}

/// The text a pass cursor file gets: `<kind>/<id>`, then the time.
pub fn pass_cursor_body(doc_type: &str, id: &str, now: &str) -> (r: String)
    ensures
        r@ == doc_type@ + seq!['/'] + id@ + seq!['\n'] + now@ + seq!['\n'],
{
    let mut v: Vec<char> = chars_of(doc_type);
    v.push('/');
    push_str_chars(&mut v, id);
    v.push('\n');
    push_str_chars(&mut v, now);
    v.push('\n');
    string_of(v.as_slice())
}

proof fn lemma_first_line(s: Seq<char>, i: int, k: int)
    requires
        0 <= i <= k < s.len(),
        s[k] == '\n',
        forall|j: int| 0 <= j < k ==> s[j] != '\n',
    ensures
        crate::text::lines_from(s, 0, i) == seq![crate::text::strip_cr(s.subrange(0, k))] + crate::text::lines_from(
            s,
            k + 1,
            k + 1,
        ),
    decreases k - i,
{
    if i < k {
        lemma_first_line(s, i + 1, k);
    }
}

proof fn lemma_find_slash(x: Seq<char>, i: int, m: int)
    requires
        0 <= i <= m < x.len(),
        x[m] == '/',
        forall|j: int| 0 <= j < m ==> x[j] != '/',
    ensures
        crate::text::find_from(x, seq!['/'], i) == m,
    decreases m - i,
{
    assert(x.subrange(m, m + 1) =~= seq!['/']);
    assert(crate::text::occurs_at(x, seq!['/'], m));
    if i < m {
        assert(x.subrange(i, i + 1) =~= seq![x[i]]);
        assert(x.subrange(i, i + 1)[0] != seq!['/'][0]);
        assert(!crate::text::occurs_at(x, seq!['/'], i));
        lemma_find_slash(x, i + 1, m);
    }
}

/// A cursor file written for a document is read back as that document:
/// for a kind without `/` and a name, neither with a line break, the kind
/// not opening and the name not closing with whitespace.
pub proof fn law_cursor_round_trip(doc_type: Seq<char>, id: Seq<char>, now: Seq<char>)
    requires
        doc_type.len() > 0,
        id.len() > 0,
        !doc_type.contains('/'),
        !doc_type.contains('\n'),
        !id.contains('\n'),
        !crate::text::is_ws(doc_type[0]),
        !crate::text::is_ws(id.last()),
    ensures
        parse_cursor_spec(doc_type + seq!['/'] + id + seq!['\n'] + now + seq!['\n']) == Some((doc_type, id)),
{
    let line = doc_type + seq!['/'] + id;
    let s = line + seq!['\n'] + now + seq!['\n'];
    let k = line.len() as int;
    assert forall|j: int| 0 <= j < k implies s[j] != '\n' by {
        assert(s[j] == line[j]);
        if j < doc_type.len() {
            assert(line[j] == doc_type[j]);
        } else if j > doc_type.len() {
            assert(line[j] == id[j - doc_type.len() - 1]);
        }
    }
    assert(s[k] == '\n');
    lemma_first_line(s, 0, k);
    assert(s.subrange(0, k) =~= line);
    assert(line.last() == id.last());
    assert(crate::text::strip_cr(line) == line);
    let ls = lines(s);
    assert(ls[0] == line);
    assert(crate::text::trim_start(line) == line);
    assert(crate::text::trim_end(line) == line);
    assert(trim(line) == line);
    let m = doc_type.len() as int;
    assert forall|j: int| 0 <= j < m implies line[j] != '/' by {
        assert(line[j] == doc_type[j]);
    }
    lemma_find_slash(line, 0, m);
    assert(line.subrange(0, m) =~= doc_type);
    assert(line.subrange(m + 1, line.len() as int) =~= id);
}

/// Whether a document's last QA, `age_secs` ago, is recent: under a day
/// and not in the future.
pub open spec fn qa_recent_spec(age_secs: int) -> bool {
    0 <= age_secs < 86400
}

/// Whether a document's last QA is recent (see `qa_recent_spec`); the age
/// is in whole hours below 24 exactly when it is below 86400 seconds.
pub fn qa_is_recent(age_secs: i64) -> (r: bool)
    ensures
        r == qa_recent_spec(age_secs as int),
{
    age_secs / 3600 < 24 && age_secs >= 0
}

/// The age, in whole seconds, of the instant written `ts` at the instant
/// written `now` (both RFC 3339), or `None` when either does not parse.
pub uninterp spec fn rfc3339_age(ts: Seq<char>, now: Seq<char>) -> Option<int>;

/// `chrono::DateTime::parse_from_rfc3339` on both texts, then
/// `signed_duration_since` and `num_seconds`: how many whole seconds lie
/// between the two instants (negative when `ts` is later). Stated: the
/// result is named by the two texts.
#[verifier::external_body]
fn rfc3339_age_secs(ts: &str, now: &str) -> (r: Option<i64>)
    ensures
        match r {
            Some(a) => rfc3339_age(ts@, now@) == Some(a as int),
            None => rfc3339_age(ts@, now@) is None,
        },
{
    let t = chrono::DateTime::parse_from_rfc3339(ts).ok()?;
    let n = chrono::DateTime::parse_from_rfc3339(now).ok()?;
    Some(n.signed_duration_since(t).num_seconds())
}

/// Whether a document last questioned at `last_qa_at` is recent at `now`
/// (both RFC 3339): see `qa_recent_spec`; a stamp that does not parse is
/// not recent.
pub fn qa_recent_at(last_qa_at: &str, now: &str) -> (r: bool)
    ensures
        r == match rfc3339_age(last_qa_at@, now@) {
            Some(a) => qa_recent_spec(a),
            None => false,
        },
{
    match rfc3339_age_secs(last_qa_at, now) {
        Some(a) => qa_is_recent(a),
        None => false,
    }
}

/// The budget of model calls left after spending `n`, never below zero.
pub fn spend(budget: usize, n: usize) -> (r: usize)
    ensures
        r == if budget >= n {
            budget - n
        } else {
            0
        },
{
    if budget >= n {
        budget - n
    } else {
        0
    }
}

/// Whether a pass that was not a dry run, scanned documents and did not
/// skip them all made no progress at all (no link, edge, question or
/// conclusion).
pub open spec fn invariant_violated_spec(dry_run: bool, scanned: nat, skipped_recent: nat, progress: nat) -> bool {
    !dry_run && scanned > 0 && skipped_recent < scanned && progress == 0
}

/// Whether a pass made no progress when it should have (see
/// `invariant_violated_spec`).
pub fn invariant_violated(dry_run: bool, scanned: usize, skipped_recent: u64, progress: u64) -> (r: bool)
    ensures
        r == invariant_violated_spec(dry_run, scanned as nat, skipped_recent as nat, progress as nat),
{
    !dry_run && scanned > 0 && (skipped_recent as u128) < (scanned as u128) && progress == 0
}

/// The open questions a cross-topic pass considers: question documents
/// tagged `question` and not tagged `answered` or `dropped`.
pub open spec fn crosstopic_candidates_spec(
    questions: Seq<(Seq<char>, Seq<char>)>,
    answered: Seq<(Seq<char>, Seq<char>)>,
    dropped: Seq<(Seq<char>, Seq<char>)>,
) -> Seq<Seq<char>>
    decreases questions.len(),
{
    if questions.len() == 0 {
        seq![]
    } else {
        let prev = crosstopic_candidates_spec(questions.drop_last(), answered, dropped);
        let q = questions.last();
        if q.0 == "questions"@ && !answered.contains(("questions"@, q.1)) && !dropped.contains(("questions"@, q.1)) {
            prev.push(q.1)
        } else {
            prev
        }
    }
}

pub open spec fn refs_view(v: Seq<DocRef>) -> Seq<(Seq<char>, Seq<char>)> {
    v.map_values(|d: DocRef| (d.doc_type@, d.id@))
}

fn has_question(v: &Vec<DocRef>, id: &str) -> (r: bool)
    ensures
        r == refs_view(v@).contains(("questions"@, id@)),
{
    let ghost w = refs_view(v@);
    let mut i: usize = 0;
    while i < v.len()
        invariant
            i <= v@.len(),
            w == refs_view(v@),
            forall|k: int| 0 <= k < i ==> (#[trigger] w[k]) != ("questions"@, id@),
        decreases v@.len() - i,
    {
        if str_eq(v[i].doc_type.as_str(), "questions") && str_eq(v[i].id.as_str(), id) {
            assert(w[i as int] == ("questions"@, id@));
            return true;
        }
        i = i + 1;
    }
    false
}

/// The open questions a cross-topic pass considers (see
/// `crosstopic_candidates_spec`), from the tag index lookups of
/// `question`, `answered` and `dropped`.
pub fn crosstopic_candidates(questions: &Vec<DocRef>, answered: &Vec<DocRef>, dropped: &Vec<DocRef>) -> (r: Vec<String>)
    ensures
        r@.map_values(|s: String| s@) == crosstopic_candidates_spec(refs_view(questions@), refs_view(answered@), refs_view(
            dropped@,
        )),
{
    let ghost qv = refs_view(questions@);
    let mut out: Vec<String> = Vec::new();
    let mut i: usize = 0;
    while i < questions.len()
        invariant
            i <= questions@.len(),
            qv == refs_view(questions@),
            out@.map_values(|s: String| s@) == crosstopic_candidates_spec(qv.subrange(0, i as int), refs_view(answered@), refs_view(dropped@)),
        decreases questions@.len() - i,
    {
        let ghost t = qv.subrange(0, i + 1);
        assert(t.drop_last() =~= qv.subrange(0, i as int));
        assert(t.last() == (questions@[i as int].doc_type@, questions@[i as int].id@));
        let q = &questions[i];
        if str_eq(q.doc_type.as_str(), "questions") && !has_question(answered, q.id.as_str()) && !has_question(
            dropped,
            q.id.as_str(),
        ) {
            let ghost before = out@.map_values(|s: String| s@);
            out.push(q.id.clone());
            assert(out@.map_values(|s: String| s@) =~= before.push(q.id@));
        }
        i = i + 1;
    }
    assert(qv.subrange(0, questions@.len() as int) =~= qv);
    out
}

/// An open question as a QA step sees it: id, title, purpose, tags, and
/// the titles of the reasons that start at it.
pub struct QuestionCand {
    pub id: String,
    pub title: String,
    pub purpose: Option<String>,
    pub tags: Vec<String>,
    pub reason_titles: Vec<String>,
}

pub type QTarget = (Seq<char>, Seq<char>, Option<Seq<char>>);

pub open spec fn opt_view(o: Option<String>) -> Option<Seq<char>> {
    match o {
        Some(s) => Some(s@),
        None => None,
    }
}

pub open spec fn targets_view(v: Seq<(String, String, Option<String>)>) -> Seq<QTarget> {
    v.map_values(|t: (String, String, Option<String>)| (t.0@, t.1@, opt_view(t.2)))
}

pub open spec fn ends_with(s: Seq<char>, suf: Seq<char>) -> bool {
    suf.len() <= s.len() && s.subrange(s.len() - suf.len(), s.len() as int) == suf
}

/// Whether a question is linked to the document: one of its reasons'
/// titles ends with the document's id.
pub open spec fn links_doc(q: QuestionCand, doc_id: Seq<char>) -> bool {
    exists|k: int| 0 <= k < q.reason_titles@.len() && ends_with(#[trigger] q.reason_titles@[k]@, doc_id)
}

/// Whether a question is closed: tagged `answered` or `dropped`.
pub open spec fn closed_q(q: QuestionCand) -> bool {
    exists|k: int| 0 <= k < q.tags@.len() && (#[trigger] q.tags@[k]@ == "answered"@ || q.tags@[k]@ == "dropped"@)
}

/// The questions a QA step works on for a document: those it raised, then
/// each open question linked to the document that is not there yet.
pub open spec fn qa_targets_spec(raised: Seq<QTarget>, qs: Seq<QuestionCand>, doc_id: Seq<char>) -> Seq<QTarget>
    decreases qs.len(),
{
    if qs.len() == 0 {
        raised
    } else {
        let prev = qa_targets_spec(raised, qs.drop_last(), doc_id);
        let q = qs.last();
        if closed_q(q) || (exists|k: int| 0 <= k < prev.len() && (#[trigger] prev[k]).0 == q.id@) || !links_doc(q, doc_id) {
            prev
        } else {
            prev.push((q.id@, q.title@, opt_view(q.purpose)))
        }
    }
}

fn ends_with_str(s: &str, suf: &str) -> (r: bool)
    ensures
        r == ends_with(s@, suf@),
{
    let a = chars_of(s);
    let b = chars_of(suf);
    if b.len() > a.len() {
        return false;
    }
    let tail = char_range(a.as_slice(), a.len() - b.len(), a.len());
    crate::text::chars_eq(tail.as_slice(), b.as_slice())
}

fn is_closed(q: &QuestionCand) -> (r: bool)
    ensures
        r == closed_q(*q),
{
    let mut k: usize = 0;
    while k < q.tags.len()
        invariant
            k <= q.tags@.len(),
            forall|j: int| 0 <= j < k ==> !(#[trigger] q.tags@[j]@ == "answered"@ || q.tags@[j]@ == "dropped"@),
        decreases q.tags@.len() - k,
    {
        if str_eq(q.tags[k].as_str(), "answered") || str_eq(q.tags[k].as_str(), "dropped") {
            return true;
        }
        k = k + 1;
    }
    false
}

fn is_linked(q: &QuestionCand, doc_id: &str) -> (r: bool)
    ensures
        r == links_doc(*q, doc_id@),
{
    let mut k: usize = 0;
    while k < q.reason_titles.len()
        invariant
            k <= q.reason_titles@.len(),
            forall|j: int| 0 <= j < k ==> !ends_with(#[trigger] q.reason_titles@[j]@, doc_id@),
        decreases q.reason_titles@.len() - k,
    {
        if ends_with_str(q.reason_titles[k].as_str(), doc_id) {
            return true;
        }
        k = k + 1;
    }
    false
}

fn has_target(v: &Vec<(String, String, Option<String>)>, id: &str) -> (r: bool)
    ensures
        r == exists|k: int| 0 <= k < targets_view(v@).len() && (#[trigger] targets_view(v@)[k]).0 == id@,
{
    let ghost w = targets_view(v@);
    let mut i: usize = 0;
    while i < v.len()
        invariant
            i <= v@.len(),
            w == targets_view(v@),
            forall|k: int| 0 <= k < i ==> (#[trigger] w[k]).0 != id@,
        decreases v@.len() - i,
    {
        assert(w[i as int].0 == v@[i as int].0@);
        if str_eq(v[i].0.as_str(), id) {
            return true;
        }
        i = i + 1;
    }
    false
}

fn clone_opt(o: &Option<String>) -> (r: Option<String>)
    ensures
        opt_view(r) == opt_view(*o),
{
    match o {
        Some(s) => Some(s.clone()),
        None => None,
    }
}

/// The questions a QA step works on (see `qa_targets_spec`).
pub fn qa_targets(raised: &Vec<(String, String, Option<String>)>, questions: &Vec<QuestionCand>, doc_id: &str) -> (r: Vec<
    (String, String, Option<String>),
>)
    ensures
        targets_view(r@) == qa_targets_spec(targets_view(raised@), questions@, doc_id@),
{
    let mut out: Vec<(String, String, Option<String>)> = Vec::new();
    let mut i: usize = 0;
    while i < raised.len()
        invariant
            i <= raised@.len(),
            targets_view(out@) == targets_view(raised@).subrange(0, i as int),
        decreases raised@.len() - i,
    {
        let x = (raised[i].0.clone(), raised[i].1.clone(), clone_opt(&raised[i].2));
        let ghost before = targets_view(out@);
        out.push(x);
        assert(targets_view(out@) =~= before.push(targets_view(raised@)[i as int]));
        assert(targets_view(raised@).subrange(0, i + 1) =~= targets_view(raised@).subrange(0, i as int).push(
            targets_view(raised@)[i as int],
        ));
        i = i + 1;
    }
    assert(targets_view(raised@).subrange(0, raised@.len() as int) =~= targets_view(raised@));
    let mut j: usize = 0;
    while j < questions.len()
        invariant
            j <= questions@.len(),
            targets_view(out@) == qa_targets_spec(targets_view(raised@), questions@.subrange(0, j as int), doc_id@),
        decreases questions@.len() - j,
    {
        let ghost t = questions@.subrange(0, j + 1);
        assert(t.drop_last() =~= questions@.subrange(0, j as int));
        assert(t.last() == questions@[j as int]);
        let q = &questions[j];
        if !is_closed(q) && !has_target(&out, q.id.as_str()) && is_linked(q, doc_id) {
            let ghost before = targets_view(out@);
            out.push((q.id.clone(), q.title.clone(), clone_opt(&q.purpose)));
            assert(targets_view(out@) =~= before.push((q.id@, q.title@, opt_view(q.purpose))));
        }
        j = j + 1;
    }
    assert(questions@.subrange(0, questions@.len() as int) =~= questions@);
    out
}

// ── The Q&A of one document, step by step ───────────────────────────────

/// What the Q&A of a document waits for.
#[derive(Debug, Clone, Copy, PartialEq, Eq, Structural)]
pub enum QaStage {
    /// Nothing asked yet.
    Start,
    /// Questions are being raised from the document.
    Raising,
    /// Whether another target question is left.
    NextQuestion,
    /// The cross-reference of the current question.
    CrossReferencing,
    /// The edges of the current question being written.
    Writing,
    /// The current question being tagged answered.
    Marking,
    /// The promotion of the current question to a conclusion.
    Promoting,
    /// A cross-topic pass on the current question.
    CrossTopic,
    Finished,
}

/// Where the Q&A of a document stands: the model calls left, whether it
/// raises questions, what the last cross-reference found (an answer; a best
/// score reaching the support threshold) and the counts so far.
#[derive(Debug, Clone, Copy, PartialEq, Eq, Structural)]
pub struct QaState {
    pub stage: QaStage,
    pub budget: usize,
    pub raise: bool,
    pub got_answer: bool,
    pub support: bool,
    pub raised: u64,
    pub answered: u64,
    pub promoted: u64,
}

/// What the outside work reported.
#[derive(Debug, Clone)]
pub enum QaEvent {
    /// Start the Q&A.
    Begin,
    /// Raising ended; `created` questions were new.
    Raised { created: u64 },
    /// Whether another target question (see `qa_targets`) is left.
    Target { more: bool },
    /// The cross-reference of the question ended: `Some((candidates,
    /// support))`, each candidate its document id and whether its score
    /// reaches the answer threshold, `support` whether the best score reaches
    /// the support threshold; `None` when it failed.
    CrossReferenced(Option<(Vec<(String, bool)>, bool)>),
    EdgesWritten,
    Marked,
    /// The promotion ended; whether it made a conclusion.
    Promoted(bool),
    /// The cross-topic pass ended; whether it answered the question.
    CrossTopicDone(bool),
}

/// The next piece of outside work.
#[derive(Debug, Clone, PartialEq, Eq)]
pub enum QaAction {
    RaiseQuestions,
    /// Offer the next target question, if any.
    NextTarget,
    /// Cross-reference the current question (one model call).
    CrossReference,
    /// Write one edge from the question per candidate, in order, with these
    /// kinds; `strong` are the candidates to promote with.
    WriteEdges { edges: Vec<(String, String)>, strong: Vec<String> },
    /// Tag the current question answered (once) and move it.
    MarkAnswered,
    /// Promote the current question with the `strong` candidates.
    Promote,
    /// Run a cross-topic pass on the current question (two model calls).
    CrossTopic,
    /// The Q&A is over: questions raised, answered, promoted.
    Done(u64, u64, u64),
    /// The event was not the one the stage waits for: nothing to do.
    Wait,
}

pub ghost enum QaActionView {
    RaiseQuestions,
    NextTarget,
    CrossReference,
    WriteEdges(Seq<(Seq<char>, Seq<char>)>, Seq<Seq<char>>),
    MarkAnswered,
    Promote,
    CrossTopic,
    Done(u64, u64, u64),
    Wait,
}

pub open spec fn qa_action_view(a: QaAction) -> QaActionView {
    match a {
        QaAction::RaiseQuestions => QaActionView::RaiseQuestions,
        QaAction::NextTarget => QaActionView::NextTarget,
        QaAction::CrossReference => QaActionView::CrossReference,
        QaAction::WriteEdges { edges, strong } => QaActionView::WriteEdges(
            edges@.map_values(|p: (String, String)| (p.0@, p.1@)),
            strong@.map_values(|s: String| s@),
        ),
        QaAction::MarkAnswered => QaActionView::MarkAnswered,
        QaAction::Promote => QaActionView::Promote,
        QaAction::CrossTopic => QaActionView::CrossTopic,
        QaAction::Done(a, b, c) => QaActionView::Done(a, b, c),
        QaAction::Wait => QaActionView::Wait,
    }
}

pub open spec fn cands_view(v: Seq<(String, bool)>) -> Seq<(Seq<char>, bool)> {
    v.map_values(|c: (String, bool)| (c.0@, c.1))
}

/// The edge written for each candidate: `Answers` when its score reaches
/// the answer threshold, `Supports` otherwise.
pub open spec fn answer_edges(cs: Seq<(Seq<char>, bool)>) -> Seq<(Seq<char>, Seq<char>)> {
    cs.map_values(|c: (Seq<char>, bool)| (c.0, if c.1 { "Answers"@ } else { "Supports"@ }))
}

/// The candidates whose score reaches the answer threshold, in order.
pub open spec fn strong_ids(cs: Seq<(Seq<char>, bool)>) -> Seq<Seq<char>>
    decreases cs.len(),
{
    if cs.len() == 0 {
        seq![]
    } else if cs.last().1 {
        strong_ids(cs.drop_last()).push(cs.last().0)
    } else {
        strong_ids(cs.drop_last())
    }
}

pub open spec fn qa_at(s: QaState, stage: QaStage) -> QaState {
    QaState { stage, ..s }
}

pub open spec fn qa_done(s: QaState) -> (QaState, QaActionView) {
    (qa_at(s, QaStage::Finished), QaActionView::Done(s.raised, s.answered, s.promoted))
}

pub open spec fn qa_next(s: QaState) -> (QaState, QaActionView) {
    (qa_at(s, QaStage::NextQuestion), QaActionView::NextTarget)
}

/// One step of a document's Q&A. Nothing happens without a model call
/// left; the document spends one (raising questions when asked to). Each
/// target question, while calls are left, spends one on a cross-reference;
/// a failed one moves on. The candidates become `Answers` or `Supports`
/// edges; with an `Answers` edge the question counts as answered, is
/// tagged, and is promoted when a call is left; without one, a best score
/// reaching the support threshold and two calls left bring a cross-topic
/// pass, which counts as answered and promoted when it succeeds. An event
/// the stage does not wait for changes nothing.
pub open spec fn qa_step_spec(s: QaState, e: QaEvent) -> (QaState, QaActionView) {
    match (s.stage, e) {
        (QaStage::Start, QaEvent::Begin) => if s.budget == 0 {
            qa_done(s)
        } else if s.raise {
            (QaState { stage: QaStage::Raising, budget: (s.budget - 1) as usize, ..s }, QaActionView::RaiseQuestions)
        } else {
            qa_next(QaState { budget: (s.budget - 1) as usize, ..s })
        },
        (QaStage::Raising, QaEvent::Raised { created }) => qa_next(QaState { raised: created, ..s }),
        (QaStage::NextQuestion, QaEvent::Target { more }) => if !more || s.budget == 0 {
            qa_done(s)
        } else {
            (
                QaState { stage: QaStage::CrossReferencing, budget: (s.budget - 1) as usize, ..s },
                QaActionView::CrossReference,
            )
        },
        (QaStage::CrossReferencing, QaEvent::CrossReferenced(r)) => match r {
            Some((cands, support)) => {
                let cv = cands_view(cands@);
                (
                    QaState {
                        stage: QaStage::Writing,
                        got_answer: strong_ids(cv).len() > 0,
                        support,
                        ..s
                    },
                    QaActionView::WriteEdges(answer_edges(cv), strong_ids(cv)),
                )
            },
            None => qa_next(s),
        },
        (QaStage::Writing, QaEvent::EdgesWritten) => if s.got_answer {
            (
                QaState { stage: QaStage::Marking, answered: (s.answered + 1) as u64, ..s },
                QaActionView::MarkAnswered,
            )
        } else if s.support && s.budget >= 2 {
            (QaState { stage: QaStage::CrossTopic, budget: (s.budget - 2) as usize, ..s }, QaActionView::CrossTopic)
        } else {
            qa_next(s)
        },
        (QaStage::Marking, QaEvent::Marked) => if s.budget == 0 {
            qa_next(s)
        } else {
            (QaState { stage: QaStage::Promoting, budget: (s.budget - 1) as usize, ..s }, QaActionView::Promote)
        },
        (QaStage::Promoting, QaEvent::Promoted(p)) => if p {
            qa_next(QaState { promoted: (s.promoted + 1) as u64, ..s })
        } else {
            qa_next(s)
        },
        (QaStage::CrossTopic, QaEvent::CrossTopicDone(n)) => if n {
            qa_next(QaState { answered: (s.answered + 1) as u64, promoted: (s.promoted + 1) as u64, ..s })
        } else {
            qa_next(s)
        },
        _ => (s, QaActionView::Wait),
    }
}

/// The counts stay within `u64` through the step.
pub open spec fn qa_step_fits(s: QaState, e: QaEvent) -> bool {
    s.answered + 1 <= u64::MAX && s.promoted + 1 <= u64::MAX
}

/// The state a document's Q&A starts in: `budget` model calls, raising
/// questions when `raise`.
pub fn qa_start(budget: usize, raise: bool) -> (r: QaState)
    ensures
        r == (QaState {
            stage: QaStage::Start,
            budget,
            raise,
            got_answer: false,
            support: false,
            raised: 0,
            answered: 0,
            promoted: 0,
        }),
{
    QaState { stage: QaStage::Start, budget, raise, got_answer: false, support: false, raised: 0, answered: 0, promoted: 0 }
}

fn edges_for(cands: &Vec<(String, bool)>) -> (r: (Vec<(String, String)>, Vec<String>))
    ensures
        r.0@.map_values(|p: (String, String)| (p.0@, p.1@)) == answer_edges(cands_view(cands@)),
        r.1@.map_values(|x: String| x@) == strong_ids(cands_view(cands@)),
{
    let ghost cv = cands_view(cands@);
    let mut edges: Vec<(String, String)> = Vec::new();
    let mut strong: Vec<String> = Vec::new();
    let mut i: usize = 0;
    while i < cands.len()
        invariant
            i <= cands@.len(),
            cv == cands_view(cands@),
            edges@.map_values(|p: (String, String)| (p.0@, p.1@)) == answer_edges(cv.subrange(0, i as int)),
            strong@.map_values(|x: String| x@) == strong_ids(cv.subrange(0, i as int)),
        decreases cands@.len() - i,
    {
        let ghost t = cv.subrange(0, i + 1);
        assert(t.drop_last() =~= cv.subrange(0, i as int));
        assert(t.last() == (cands@[i as int].0@, cands@[i as int].1));
        let ghost be = edges@.map_values(|p: (String, String)| (p.0@, p.1@));
        let ghost bs = strong@.map_values(|x: String| x@);
        let kind = if cands[i].1 {
            "Answers".to_owned()
        } else {
            "Supports".to_owned()
        };
        let ghost kv = kind@;
        assert(kv == if cands@[i as int].1 {
            "Answers"@
        } else {
            "Supports"@
        });
        assert(answer_edges(t) =~= answer_edges(cv.subrange(0, i as int)).push((cands@[i as int].0@, kv)));
        edges.push((cands[i].0.clone(), kind));
        assert(edges@.map_values(|p: (String, String)| (p.0@, p.1@)) =~= be.push((cands@[i as int].0@, kv)));
        if cands[i].1 {
            strong.push(cands[i].0.clone());
            assert(strong@.map_values(|x: String| x@) =~= bs.push(cands@[i as int].0@));
        } else {
            assert(strong@.map_values(|x: String| x@) =~= bs);
        }
        i = i + 1;
    }
    assert(cv.subrange(0, cands@.len() as int) =~= cv);
    (edges, strong)
}

/// One step of a document's Q&A (see `qa_step_spec`). The budget of model
/// calls never grows.
pub fn qa_step(s: QaState, e: QaEvent) -> (r: (QaState, QaAction))
    requires
        qa_step_fits(s, e),
    ensures
        (r.0, qa_action_view(r.1)) == qa_step_spec(s, e),
        r.0.budget <= s.budget,
{
    match (s.stage, e) {
        (QaStage::Start, QaEvent::Begin) => {
            if s.budget == 0 {
                (QaState { stage: QaStage::Finished, ..s }, QaAction::Done(s.raised, s.answered, s.promoted))
            } else if s.raise {
                (QaState { stage: QaStage::Raising, budget: s.budget - 1, ..s }, QaAction::RaiseQuestions)
            } else {
                (QaState { stage: QaStage::NextQuestion, budget: s.budget - 1, ..s }, QaAction::NextTarget)
            }
        },
        (QaStage::Raising, QaEvent::Raised { created }) => {
            (QaState { stage: QaStage::NextQuestion, raised: created, ..s }, QaAction::NextTarget)
        },
        (QaStage::NextQuestion, QaEvent::Target { more }) => {
            if !more || s.budget == 0 {
                (QaState { stage: QaStage::Finished, ..s }, QaAction::Done(s.raised, s.answered, s.promoted))
            } else {
                (QaState { stage: QaStage::CrossReferencing, budget: s.budget - 1, ..s }, QaAction::CrossReference)
            }
        },
        (QaStage::CrossReferencing, QaEvent::CrossReferenced(r)) => match r {
            Some((cands, support)) => {
                let (edges, strong) = edges_for(&cands);
                let got = strong.len() > 0;
                (
                    QaState { stage: QaStage::Writing, got_answer: got, support, ..s },
                    QaAction::WriteEdges { edges, strong },
                )
            },
            None => (QaState { stage: QaStage::NextQuestion, ..s }, QaAction::NextTarget),
        },
        (QaStage::Writing, QaEvent::EdgesWritten) => {
            if s.got_answer {
                (QaState { stage: QaStage::Marking, answered: s.answered + 1, ..s }, QaAction::MarkAnswered)
            } else if s.support && s.budget >= 2 {
                (QaState { stage: QaStage::CrossTopic, budget: s.budget - 2, ..s }, QaAction::CrossTopic)
            } else {
                (QaState { stage: QaStage::NextQuestion, ..s }, QaAction::NextTarget)
            }
        },
        (QaStage::Marking, QaEvent::Marked) => {
            if s.budget == 0 {
                (QaState { stage: QaStage::NextQuestion, ..s }, QaAction::NextTarget)
            } else {
                (QaState { stage: QaStage::Promoting, budget: s.budget - 1, ..s }, QaAction::Promote)
            }
        },
        (QaStage::Promoting, QaEvent::Promoted(p)) => {
            let promoted = if p {
                s.promoted + 1
            } else {
                s.promoted
            };
            (QaState { stage: QaStage::NextQuestion, promoted, ..s }, QaAction::NextTarget)
        },
        (QaStage::CrossTopic, QaEvent::CrossTopicDone(n)) => {
            if n {
                (
                    QaState { stage: QaStage::NextQuestion, answered: s.answered + 1, promoted: s.promoted + 1, ..s },
                    QaAction::NextTarget,
                )
            } else {
                (QaState { stage: QaStage::NextQuestion, ..s }, QaAction::NextTarget)
            }
        },
        _ => (s, QaAction::Wait),
    }
}

/// The Q&A never promotes more questions than it answers, and while a
/// question waits to be tagged or promoted it has already been counted as
/// answered.
pub open spec fn qa_counts_ok(s: QaState) -> bool {
    &&& s.promoted <= s.answered
    &&& (s.stage == QaStage::Marking || s.stage == QaStage::Promoting) ==> s.promoted < s.answered
}

/// Every step keeps `qa_counts_ok`, so the Q&A a document reports never
/// promotes more questions than it answers.
pub proof fn law_qa_promotes_only_answered(s: QaState, e: QaEvent)
    requires
        qa_counts_ok(s),
        qa_step_fits(s, e),
    ensures
        qa_counts_ok(qa_step_spec(s, e).0),
        qa_step_spec(s, e).1 matches QaActionView::Done(_, a, p) ==> p <= a,
{
}

} // verus!
