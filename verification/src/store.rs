//! Documents of the vault and how their file names are derived from their
//! titles.

use vstd::prelude::*;
use crate::text::{
    char_range, chars_of, find_chars, find_sub, has_prefix, lines, lines_of, push_chars, push_str_chars, str_eq,
    starts_with_chars, string_of, trim, trim_chars, trim_char,
};
use crate::unicode::{
    all_ascii, alphanumeric, ascii_lower, ascii_lower_char, is_alphanumeric, is_ascii_alnum, lowercase,
    to_lowercase,
};

verus! {

/// A topic that groups documents; `path` is its markdown file.
#[derive(Debug, Clone)]
pub struct Purpose {
    pub id: String,
    pub tag: String,
    pub title: String,
    pub description: String,
    pub path: String,
}

/// A vault document as read from its front matter and body.
#[derive(Debug, Clone)]
pub struct Document {
    pub id: String,
    pub title: String,
    pub tags: Vec<String>,
    pub purpose: Option<String>,
    pub source_doc_id: Option<String>,
    pub created_at: String,
    pub updated_at: String,
    pub content: String,
}

/// Characters kept by slugs: alphanumerics, `-` and `_`; anything else
/// becomes `-`.
pub open spec fn slug_char(c: char) -> char {
    if alphanumeric(c) || c == '-' || c == '_' {
        c
    } else {
        '-'
    }
}

/// Dash-separated non-empty segments of `s[i..]` joined by single dashes;
/// `started` records whether a segment was emitted, `pending` whether a
/// dash is owed before the next one.
pub open spec fn dash_join_from(s: Seq<char>, i: int, started: bool, pending: bool) -> Seq<char>
    decreases s.len() - i,
{
    if i < 0 || i >= s.len() {
        seq![]
    } else if s[i] == '-' {
        dash_join_from(s, i + 1, started, started)
    } else if pending {
        seq!['-', s[i]] + dash_join_from(s, i + 1, true, false)
    } else {
        seq![s[i]] + dash_join_from(s, i + 1, true, false)
    }
}

/// `s.split('-').filter(|p| !p.is_empty()).collect::<Vec<_>>().join("-")`.
pub open spec fn dash_join(s: Seq<char>) -> Seq<char> {
    dash_join_from(s, 0, false, false)
}

/// Most characters a slug keeps.
pub open spec fn max_slug_chars() -> int {
    200
}

/// The slug of a title: lowercased, every character other than an
/// alphanumeric, `-` or `_` turned into `-`, runs of dashes collapsed and
/// edge dashes dropped, and cut to 200 characters.
pub open spec fn slugify_spec(title: Seq<char>) -> Seq<char> {
    let j = dash_join(lowercase(title).map_values(|c: char| slug_char(c)));
    if j.len() <= max_slug_chars() {
        j
    } else {
        j.subrange(0, max_slug_chars())
    }
}

/// [`slug_char`] with the ASCII classes.
pub open spec fn ascii_slug_char(c: char) -> char {
    if is_ascii_alnum(c) || c == '-' || c == '_' {
        c
    } else {
        '-'
    }
}

/// The slug of an ASCII title, where lowercasing and the character classes
/// follow the ASCII rules.
pub open spec fn slug_ascii_spec(title: Seq<char>) -> Seq<char> {
    let j = dash_join(ascii_lower(title).map_values(|c: char| ascii_slug_char(c)));
    if j.len() <= max_slug_chars() {
        j
    } else {
        j.subrange(0, max_slug_chars())
    }
}

/// File-name slug of a title.
pub fn slugify(title: &str) -> (r: String)
    ensures
        r@ == slugify_spec(title@),
        all_ascii(title@) ==> r@ == slug_ascii_spec(title@),
{
    let lower = to_lowercase(title);
    let cs = chars_of(lower.as_str());
    let ghost mapped = cs@.map_values(|c: char| slug_char(c));
    proof {
        if all_ascii(title@) {
            assert forall|k: int| 0 <= k < cs@.len() implies (#[trigger] cs@[k] as u32) < 128 by {
                assert(cs@[k] == ascii_lower_char(title@[k]));
            }
        }
    }
    let mut out: Vec<char> = Vec::new();
    let mut started = false;
    let mut pending = false;
    let mut i: usize = 0;
    while i < cs.len()
        invariant
            i <= cs@.len(),
            mapped == cs@.map_values(|c: char| slug_char(c)),
            out@ + dash_join_from(mapped, i as int, started, pending) == dash_join(mapped),
            all_ascii(title@) ==> cs@ == ascii_lower(title@),
            all_ascii(title@) ==> forall|k: int| 0 <= k < cs@.len() ==> (#[trigger] cs@[k] as u32) < 128,
            all_ascii(title@) ==> forall|k: int| 0 <= k < i ==> #[trigger] mapped[k] == ascii_slug_char(cs@[k]),
        decreases cs@.len() - i,
    {
        let c0 = cs[i];
        let alnum = is_alphanumeric(c0);
        let c = if alnum || c0 == '-' || c0 == '_' {
            c0
        } else {
            '-'
        };
        assert(c == mapped[i as int]);
        if c == '-' {
            pending = started;
        } else {
            if pending {
                out.push('-');
            }
            out.push(c);
            started = true;
            pending = false;
            proof {
                assert(out@ + dash_join_from(mapped, i + 1, true, false) =~= dash_join(mapped));
            }
        }
        i = i + 1;
    }
    assert(out@ =~= out@ + dash_join_from(mapped, i as int, started, pending));
    proof {
        if all_ascii(title@) {
            assert(mapped =~= ascii_lower(title@).map_values(|c: char| ascii_slug_char(c)));
        }
    }
    if out.len() <= 200 {
        string_of(out.as_slice())
    } else {
        let mut cut: Vec<char> = Vec::new();
        let mut k: usize = 0;
        while k < 200
            invariant
                k <= 200 < out@.len(),
                cut@ =~= out@.subrange(0, k as int),
            decreases 200 - k,
        {
            cut.push(out[k]);
            k = k + 1;
        }
        string_of(cut.as_slice())
    }
}

/// The front matter fields a document is read from; each is `None` when
/// absent or not a string (`tags` holds `None` for its non-string items).
#[derive(Debug, Clone)]
pub struct DocFields {
    pub id: Option<String>,
    pub title: Option<String>,
    pub tags: Option<Vec<Option<String>>>,
    pub purpose: Option<String>,
    pub source_doc_id: Option<String>,
    pub created_at: Option<String>,
    pub updated_at: Option<String>,
}

pub open spec fn opt_str(o: Option<String>) -> Option<Seq<char>> {
    match o {
        Some(s) => Some(s@),
        None => None,
    }
}

pub open spec fn or_text(o: Option<String>, d: Seq<char>) -> Seq<char> {
    match o {
        Some(s) => s@,
        None => d,
    }
}

/// The string items of a list, in order.
pub open spec fn string_items(v: Seq<Option<String>>) -> Seq<Seq<char>>
    decreases v.len(),
{
    if v.len() == 0 {
        seq![]
    } else {
        match v.last() {
            Some(s) => string_items(v.drop_last()).push(s@),
            None => string_items(v.drop_last()),
        }
    }
}

pub open spec fn field_tags(f: DocFields) -> Seq<Seq<char>> {
    match f.tags {
        Some(v) => string_items(v@),
        None => seq![],
    }
}

fn string_items_of(v: &Vec<Option<String>>) -> (r: Vec<String>)
    ensures
        r@.map_values(|s: String| s@) == string_items(v@),
{
    let mut out: Vec<String> = Vec::new();
    let mut i: usize = 0;
    while i < v.len()
        invariant
            i <= v@.len(),
            out@.map_values(|s: String| s@) == string_items(v@.subrange(0, i as int)),
        decreases v@.len() - i,
    {
        let ghost t = v@.subrange(0, i + 1);
        assert(t.drop_last() =~= v@.subrange(0, i as int));
        assert(t.last() == v@[i as int]);
        match &v[i] {
            Some(x) => {
                let ghost before = out@.map_values(|s: String| s@);
                out.push(x.clone());
                assert(out@.map_values(|s: String| s@) =~= before.push(x@));
            },
            None => {},
        }
        i = i + 1;
    }
    assert(v@.subrange(0, v@.len() as int) =~= v@);
    out
}

fn text_or(o: &Option<String>, d: &str) -> (r: String)
    ensures
        r@ == or_text(*o, d@),
{
    match o {
        Some(x) => x.clone(),
        None => string_of(chars_of(d).as_slice()),
    }
}

/// The document read from its front matter fields and body; a missing id
/// is `fallback_id`, other missing text is empty.
pub fn doc_from_fields(f: &DocFields, body: String, fallback_id: &str) -> (r: Document)
    ensures
        r.id@ == or_text(f.id, fallback_id@),
        r.title@ == or_text(f.title, seq![]),
        r.tags@.map_values(|s: String| s@) == field_tags(*f),
        opt_str(r.purpose) == opt_str(f.purpose),
        opt_str(r.source_doc_id) == opt_str(f.source_doc_id),
        r.created_at@ == or_text(f.created_at, seq![]),
        r.updated_at@ == or_text(f.updated_at, seq![]),
        r.content@ == body@,
{
    proof {
        reveal_strlit("");
        assert(""@ =~= Seq::<char>::empty());
    }
    let tags = match &f.tags {
        Some(v) => string_items_of(v),
        None => {
            let e: Vec<String> = Vec::new();
            assert(e@.map_values(|s: String| s@) =~= Seq::<Seq<char>>::empty());
            e
        },
    };
    Document {
        id: text_or(&f.id, fallback_id),
        title: text_or(&f.title, ""),
        tags,
        purpose: match &f.purpose {
            Some(x) => Some(x.clone()),
            None => None,
        },
        source_doc_id: match &f.source_doc_id {
            Some(x) => Some(x.clone()),
            None => None,
        },
        created_at: text_or(&f.created_at, ""),
        updated_at: text_or(&f.updated_at, ""),
        content: body,
    }
}

/// A purpose read from its file: the front matter's `tag` (the file's stem
/// without one), `id` and `title` (empty without them), and the body as its
/// description.
pub fn purpose_from(tag: Option<String>, id: Option<String>, title: Option<String>, stem: &str, body: String, path: String) -> (r: Purpose)
    ensures
        r.tag@ == match tag {
            Some(t) => t@,
            None => stem@,
        },
        r.id@ == or_text(id, seq![]),
        r.title@ == or_text(title, seq![]),
        r.description == body,
        r.path == path,
{
    Purpose {
        id: match id {
            Some(x) => x,
            None => String::new(),
        },
        tag: match tag {
            Some(t) => t,
            None => stem.to_owned(),
        },
        title: match title {
            Some(x) => x,
            None => String::new(),
        },
        description: body,
        path,
    }
}

/// Whether `tag` is among `tags`.
pub fn has_tag(tags: &Vec<String>, tag: &str) -> (r: bool)
    ensures
        r == tags@.map_values(|s: String| s@).contains(tag@),
{
    let ghost w = tags@.map_values(|s: String| s@);
    let mut i: usize = 0;
    while i < tags.len()
        invariant
            i <= tags@.len(),
            w == tags@.map_values(|s: String| s@),
            forall|k: int| 0 <= k < i ==> (#[trigger] w[k]) != tag@,
        decreases tags@.len() - i,
    {
        if str_eq(tags[i].as_str(), tag) {
            assert(w[i as int] == tag@);
            return true;
        }
        i = i + 1;
    }
    false
}

/// Whether a reason from `from_id` to `to_id` concerns `node_id` in
/// `direction` (`from`, `to`, or either).
pub open spec fn reason_touches(from_id: Seq<char>, to_id: Seq<char>, node_id: Seq<char>, direction: Seq<char>) -> bool {
    if direction == "from"@ {
        from_id == node_id
    } else if direction == "to"@ {
        to_id == node_id
    } else {
        from_id == node_id || to_id == node_id
    }
}

pub fn reason_matches(from_id: &str, to_id: &str, node_id: &str, direction: &str) -> (r: bool)
    ensures
        r == reason_touches(from_id@, to_id@, node_id@, direction@),
{
    if str_eq(direction, "from") {
        str_eq(from_id, node_id)
    } else if str_eq(direction, "to") {
        str_eq(to_id, node_id)
    } else {
        str_eq(from_id, node_id) || str_eq(to_id, node_id)
    }
}

/// A markdown text split at its front matter: with no leading `---`, no
/// front matter and the whole text as body; else the text between the
/// leading `---` and the next `---`, and the trimmed rest; `None` when the
/// second `---` is missing.
pub open spec fn split_fm_spec(c: Seq<char>) -> Option<(Option<Seq<char>>, Seq<char>)> {
    if !has_prefix(c, "---"@) {
        Some((None, c))
    } else {
        let rest = c.subrange(3, c.len() as int);
        let k = find_sub(rest, "---"@);
        if k < 0 {
            None
        } else {
            Some((Some(rest.subrange(0, k)), trim(rest.subrange(k + 3, rest.len() as int))))
        }
    }
}

/// Splits a markdown text at its front matter (see `split_fm_spec`); the
/// error is `Invalid frontmatter`.
pub fn split_frontmatter(content: &str) -> (r: Result<(Option<String>, String), String>)
    ensures
        match split_fm_spec(content@) {
            Some((fm, body)) => r matches Ok((f, b)) && opt_str(f) == fm && b@ == body,
            None => r matches Err(e) && e@ == "Invalid frontmatter"@,
        },
{
    let cs = chars_of(content);
    let dashes = chars_of("---");
    proof {
        reveal_strlit("---");
    }
    if !starts_with_chars(cs.as_slice(), dashes.as_slice()) {
        return Ok((None, string_of(cs.as_slice())));
    }
    let rest = char_range(cs.as_slice(), 3, cs.len());
    match find_chars(rest.as_slice(), dashes.as_slice()) {
        None => Err(string_of(chars_of("Invalid frontmatter").as_slice())),
        Some(k) => {
            let fm = char_range(rest.as_slice(), 0, k);
            let tail = char_range(rest.as_slice(), k + 3, rest.len());
            let body = trim_chars(tail.as_slice());
            Ok((Some(string_of(fm.as_slice())), string_of(body.as_slice())))
        },
    }
}

/// Whether an alias is new for an entity: its trimmed lowercase differs
/// from the lowercase title and from each existing alias lowercased.
pub open spec fn alias_is_new(alias: Seq<char>, title: Seq<char>, existing: Seq<Seq<char>>) -> bool {
    let a = lowercase(trim(alias));
    a != lowercase(title) && forall|i: int| 0 <= i < existing.len() ==> lowercase(#[trigger] existing[i]) != a
}

/// An alias is added once: after the alias `new_alias` gave is appended to
/// the aliases, the same alias is no longer new.
pub proof fn law_alias_once(alias: Seq<char>, title: Seq<char>, existing: Seq<Seq<char>>)
    ensures
        !alias_is_new(alias, title, existing.push(trim(alias))),
{
    let e2 = existing.push(trim(alias));
    assert(e2[existing.len() as int] == trim(alias));
    assert(lowercase(e2[existing.len() as int]) == lowercase(trim(alias)));
}

/// The alias to add to an entity (trimmed), or `None` when it is already
/// its title or one of its aliases, ignoring case.
pub fn new_alias(alias: &str, title: &str, existing: &Vec<String>) -> (r: Option<String>)
    ensures
        match r {
            Some(a) => alias_is_new(alias@, title@, existing@.map_values(|s: String| s@)) && a@ == trim(
                alias@,
            ),
            None => !alias_is_new(alias@, title@, existing@.map_values(|s: String| s@)),
        },
{
    let ghost w = existing@.map_values(|s: String| s@);
    let t = crate::text::trim_str(alias);
    let a = to_lowercase(t.as_str());
    let tl = to_lowercase(title);
    if str_eq(a.as_str(), tl.as_str()) {
        return None;
    }
    let mut i: usize = 0;
    while i < existing.len()
        invariant
            i <= existing@.len(),
            w == existing@.map_values(|s: String| s@),
            a@ == lowercase(trim(alias@)),
            forall|k: int| 0 <= k < i ==> lowercase(#[trigger] w[k]) != a@,
        decreases existing@.len() - i,
    {
        let e = to_lowercase(existing[i].as_str());
        assert(w[i as int] == existing@[i as int]@);
        if str_eq(e.as_str(), a.as_str()) {
            return None;
        }
        i = i + 1;
    }
    Some(t)
}

/// The file name tried at attempt `n` for a slug: `<slug>.md`, then
/// `<slug>-<n>.md`.
pub open spec fn candidate_name(slug: Seq<char>, n: nat) -> Seq<char> {
    if n == 0 {
        slug + ".md"@
    } else {
        slug + seq!['-'] + crate::text::dec(n) + ".md"@
    }
}

/// The file name tried at attempt `n` (see `candidate_name`).
pub fn unique_candidate(slug: &str, n: usize) -> (r: String)
    ensures
        r@ == candidate_name(slug@, n as nat),
{
    let mut v: Vec<char> = chars_of(slug);
    if n > 0 {
        v.push('-');
        crate::text::push_dec(&mut v, n);
    }
    push_str_chars(&mut v, ".md");
    string_of(v.as_slice())
}

proof fn lemma_candidate_injective(slug: Seq<char>, a: nat, b: nat)
    requires
        candidate_name(slug, a) == candidate_name(slug, b),
    ensures
        a == b,
{
    reveal_strlit(".md");
    crate::config::lemma_dec_digits(a);
    crate::config::lemma_dec_digits(b);
    let x = candidate_name(slug, a);
    let y = candidate_name(slug, b);
    let n = slug.len() as int;
    if a > 0 && b > 0 {
        assert(x.len() == n + 1 + crate::text::dec(a).len() + 3);
        assert(y.len() == n + 1 + crate::text::dec(b).len() + 3);
        assert(x.subrange(n + 1, x.len() - 3) =~= crate::text::dec(a));
        assert(y.subrange(n + 1, y.len() - 3) =~= crate::text::dec(b));
        assert(crate::text::dec(a) == crate::text::dec(b));
    } else if a > 0 {
        assert(x.len() == n + 1 + crate::text::dec(a).len() + 3);
        assert(y.len() == n + 3);
    } else if b > 0 {
        assert(y.len() == n + 1 + crate::text::dec(b).len() + 3);
        assert(x.len() == n + 3);
    }
}

proof fn lemma_candidates_distinct(slug: Seq<char>, n: nat)
    ensures
        Seq::new(n, |i: int| candidate_name(slug, i as nat)).no_duplicates(),
{
    let c = Seq::new(n, |i: int| candidate_name(slug, i as nat));
    assert forall|i: int, j: int| 0 <= i < c.len() && 0 <= j < c.len() && i != j implies c[i] != c[j] by {
        if c[i] == c[j] {
            lemma_candidate_injective(slug, i as nat, j as nat);
        }
    }
}

fn contains_name(v: &Vec<String>, x: &str) -> (r: bool)
    ensures
        r == v@.map_values(|s: String| s@).contains(x@),
{
    let ghost w = v@.map_values(|s: String| s@);
    let mut i: usize = 0;
    while i < v.len()
        invariant
            i <= v@.len(),
            w == v@.map_values(|s: String| s@),
            forall|k: int| 0 <= k < i ==> (#[trigger] w[k]) != x@,
        decreases v@.len() - i,
    {
        if str_eq(v[i].as_str(), x) {
            assert(w[i as int] == x@);
            return true;
        }
        i = i + 1;
    }
    false
}

/// The first free file name for a slug among the names `taken`: attempt
/// `n` (see `candidate_name`) for the least `n` whose name is not taken.
pub fn free_name(slug: &str, taken: &Vec<String>) -> (r: (usize, String))
    ensures
        r.1@ == candidate_name(slug@, r.0 as nat),
        !taken@.map_values(|s: String| s@).contains(r.1@),
        forall|m: nat| m < r.0 ==> taken@.map_values(|s: String| s@).contains(#[trigger] candidate_name(slug@, m)),
{
    let ghost tv = taken@.map_values(|s: String| s@);
    let tl = taken.len();
    let mut n: usize = 0;
    loop
        invariant
            n <= taken@.len(),
            tl == taken@.len(),
            tv == taken@.map_values(|s: String| s@),
            forall|m: nat| m < n ==> tv.contains(#[trigger] candidate_name(slug@, m)),
        decreases taken@.len() - n,
    {
        let name = unique_candidate(slug, n);
        if !contains_name(taken, name.as_str()) {
            return (n, name);
        }
        proof {
            let c = Seq::new((n + 1) as nat, |i: int| candidate_name(slug@, i as nat));
            lemma_candidates_distinct(slug@, (n + 1) as nat);
            c.unique_seq_to_set();
            assert(c.to_set().subset_of(tv.to_set())) by {
                assert forall|x: Seq<char>| c.to_set().contains(x) implies tv.to_set().contains(x) by {
                    let i = choose|i: int| 0 <= i < c.len() && c[i] == x;
                    if i < n {
                        assert(tv.contains(candidate_name(slug@, i as nat)));
                    }
                }
            }
            tv.lemma_cardinality_of_set();
            vstd::set_lib::lemma_len_subset(c.to_set(), tv.to_set());
            assert(c.len() == n + 1);
            assert(n + 1 <= tv.len());
            assert(tv.len() == taken@.len());
        }
        n = n + 1;
    }
}

/// The stem tried at attempt `n`: the stem itself, then `<stem>-<n>`; the
/// file name of attempt `n` is this stem with `.md` (see `candidate_name`).
pub open spec fn candidate_stem(stem: Seq<char>, n: nat) -> Seq<char> {
    if n == 0 {
        stem
    } else {
        stem + seq!['-'] + crate::text::dec(n)
    }
}

/// `s` is the stem of the first attempt whose file name is not among
/// `taken`: every earlier attempt's file name is taken.
pub open spec fn is_first_free(stem: Seq<char>, taken: Seq<Seq<char>>, s: Seq<char>) -> bool {
    exists|n: nat|
        s == candidate_stem(stem, n) && !taken.contains(candidate_name(stem, n)) && forall|m: nat|
            m < n ==> taken.contains(#[trigger] candidate_name(stem, m))
}

/// The stem a file takes in a directory that holds the file names `taken`:
/// `stem` when `<stem>.md` is free, else `<stem>-<n>` for the least `n >= 1`
/// whose `<stem>-<n>.md` is free.
pub fn free_stem(stem: &str, taken: &Vec<String>) -> (r: String)
    ensures
        is_first_free(stem@, taken@.map_values(|s: String| s@), r@),
{
    let (n, _name) = free_name(stem, taken);
    let mut v: Vec<char> = chars_of(stem);
    if n > 0 {
        v.push('-');
        crate::text::push_dec(&mut v, n);
    }
    let r = string_of(v.as_slice());
    assert(r@ == candidate_stem(stem@, n as nat));
    r
}

/// The first free stem is one stem: two stems that both are the first
/// free one for the same names are equal.
pub proof fn law_first_free_unique(stem: Seq<char>, taken: Seq<Seq<char>>, a: Seq<char>, b: Seq<char>)
    requires
        is_first_free(stem, taken, a),
        is_first_free(stem, taken, b),
    ensures
        a == b,
{
    let na = choose|n: nat|
        a == candidate_stem(stem, n) && !taken.contains(candidate_name(stem, n)) && forall|m: nat|
            m < n ==> taken.contains(#[trigger] candidate_name(stem, m));
    let nb = choose|n: nat|
        b == candidate_stem(stem, n) && !taken.contains(candidate_name(stem, n)) && forall|m: nat|
            m < n ==> taken.contains(#[trigger] candidate_name(stem, m));
    if na < nb {
        assert(taken.contains(candidate_name(stem, na)));
    } else if nb < na {
        assert(taken.contains(candidate_name(stem, nb)));
    }
}

/// Lines the ingest log (`ingest_log/ingest.jsonl`) holds before it is
/// rotated.
pub const INGEST_LOG_LINES: usize = 265;

/// Whether the ingest log, holding `lines` lines, is rotated before the
/// next entry is appended.
pub fn ingest_log_rotates(lines: usize) -> (r: bool)
    ensures
        r == (lines >= 265),
{
    lines >= INGEST_LOG_LINES
}

/// The name the full ingest log is moved to: `ingest.<stamp>.jsonl`.
pub fn rotated_log_name(stamp: &str) -> (r: String)
    ensures
        r@ == "ingest."@ + stamp@ + ".jsonl"@,
{
    let mut v: Vec<char> = Vec::new();
    push_str_chars(&mut v, "ingest.");
    push_str_chars(&mut v, stamp);
    push_str_chars(&mut v, ".jsonl");
    string_of(v.as_slice())
}

/// The directories a vault holds.
pub fn layout_dirs() -> (r: Vec<&'static str>)
    ensures
        r@.len() == 10,
        r@[0]@ == "purposes"@ && r@[1]@ == "thoughts"@ && r@[2]@ == "entities"@ && r@[3]@ == "reasons"@
            && r@[4]@ == "questions"@ && r@[5]@ == "conclusions"@ && r@[6]@ == "ingest_log"@ && r@[7]@
            == "auto_links"@ && r@[8]@ == "assets"@ && r@[9]@ == ".search"@,
{
    vec!["purposes", "thoughts", "entities", "reasons", "questions", "conclusions", "ingest_log", "auto_links", "assets", ".search"]
}

} // verus!
