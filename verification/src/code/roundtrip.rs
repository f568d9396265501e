//! What the front matter of a rendered structure file reads back as: the
//! tags, the language and the list of functions that were written.

use vstd::prelude::*;
use crate::code::splitter::{
    fn_entries_spec, top_level_spec, escape_quoted, fm_parse, flush_spec, fn_list_spec, frontmatter_spec, structure_md_spec, to_slash_spec,
    yaml_escape_spec, yaml_special, FnMetaView,
};
use crate::text::{first_index_of, has_prefix, is_ws, join_with, lines, lines_from, strip_cr, trim, trim_char,
    trim_end, trim_end_char, trim_start, trim_start_char};

verus! {

/// A text that is one line: no line break in it, no carriage return at
/// its end.
pub open spec fn is_line(l: Seq<char>) -> bool {
    !l.contains('\n') && !(l.len() > 0 && l.last() == '\r')
}

/// Lines, each followed by a line break.
pub open spec fn unlines(ls: Seq<Seq<char>>) -> Seq<char>
    decreases ls.len(),
{
    if ls.len() == 0 {
        seq![]
    } else {
        ls[0] + seq!['\n'] + unlines(ls.drop_first())
    }
}

proof fn lemma_lines_shift(p: Seq<char>, b: Seq<char>, st: int, i: int)
    requires
        0 <= st <= i <= b.len(),
    ensures
        lines_from(p + b, p.len() + st, p.len() + i) == lines_from(b, st, i),
    decreases b.len() - i,
{
    let s = p + b;
    if i == b.len() {
        if st < b.len() {
            assert(s.subrange(p.len() + st, s.len() as int) =~= b.subrange(st, b.len() as int));
        }
    } else if b[i] == '\n' {
        assert(s[p.len() + i] == '\n');
        assert(s.subrange(p.len() + st, p.len() + i) =~= b.subrange(st, i));
        lemma_lines_shift(p, b, i + 1, i + 1);
        assert(p.len() + i + 1 == p.len() + (i + 1));
    } else {
        assert(s[p.len() + i] == b[i]);
        lemma_lines_shift(p, b, st, i + 1);
        assert(p.len() + i + 1 == p.len() + (i + 1));
    }
}

proof fn lemma_scan_line(a: Seq<char>, b: Seq<char>, i: int)
    requires
        0 <= i <= a.len(),
        !a.contains('\n'),
    ensures
        lines_from(a + seq!['\n'] + b, 0, i) == lines_from(a + seq!['\n'] + b, 0, a.len() as int),
    decreases a.len() - i,
{
    if i < a.len() {
        let s = a + seq!['\n'] + b;
        assert(s[i] == a[i]);
        if a[i] == '\n' {
            assert(a.contains('\n'));
        }
        lemma_scan_line(a, b, i + 1);
    }
}

proof fn lemma_lines_first(a: Seq<char>, b: Seq<char>)
    requires
        is_line(a),
    ensures
        lines(a + seq!['\n'] + b) == seq![a] + lines(b),
{
    let p = a + seq!['\n'];
    let s = p + b;
    lemma_scan_line(a, b, 0);
    assert(s[a.len() as int] == '\n');
    assert(s.subrange(0, a.len() as int) =~= a);
    lemma_lines_shift(p, b, 0, 0);
    assert(p.len() == a.len() + 1);
}

proof fn lemma_lines_unlines(ls: Seq<Seq<char>>, b: Seq<char>)
    requires
        forall|k: int| 0 <= k < ls.len() ==> is_line(#[trigger] ls[k]),
    ensures
        lines(unlines(ls) + b) == ls + lines(b),
    decreases ls.len(),
{
    if ls.len() == 0 {
        assert(unlines(ls) + b =~= b);
        assert(ls + lines(b) =~= lines(b));
    } else {
        let r = ls.drop_first();
        assert forall|k: int| 0 <= k < r.len() implies is_line(#[trigger] r[k]) by {
            assert(r[k] == ls[k + 1]);
        }
        lemma_lines_unlines(r, b);
        assert(is_line(ls[0]));
        lemma_lines_first(ls[0], unlines(r) + b);
        assert(unlines(ls) + b =~= ls[0] + seq!['\n'] + (unlines(r) + b));
        assert(seq![ls[0]] + (r + lines(b)) =~= ls + lines(b));
    }
}

proof fn lemma_unlines_push(ls: Seq<Seq<char>>, x: Seq<char>)
    ensures
        unlines(ls.push(x)) == unlines(ls) + x + seq!['\n'],
    decreases ls.len(),
{
    let t = ls.push(x);
    if ls.len() == 0 {
        assert(t.drop_first() =~= Seq::<Seq<char>>::empty());
        assert(unlines(t.drop_first()) =~= Seq::<char>::empty());
        assert(t[0] == x);
        assert(unlines(t) =~= x + seq!['\n']);
    } else {
        assert(t.drop_first() =~= ls.drop_first().push(x));
        lemma_unlines_push(ls.drop_first(), x);
        assert(t[0] == ls[0]);
        assert(unlines(t) =~= unlines(ls) + x + seq!['\n']);
    }
}

proof fn lemma_unlines_append(a: Seq<Seq<char>>, b: Seq<Seq<char>>)
    ensures
        unlines(a + b) == unlines(a) + unlines(b),
    decreases a.len(),
{
    if a.len() == 0 {
        assert(a + b =~= b);
        assert(unlines(a) + unlines(b) =~= unlines(b));
    } else {
        assert((a + b).drop_first() =~= a.drop_first() + b);
        lemma_unlines_append(a.drop_first(), b);
        assert((a + b)[0] == a[0]);
        assert(unlines(a + b) =~= unlines(a) + unlines(b));
    }
}

/// The line of the front matter's function list for a function name.
pub open spec fn item_line(name: Seq<char>) -> Seq<char> {
    "  - "@ + yaml_escape_spec(name)
}

/// The names of the functions.
pub open spec fn fn_names(fns: Seq<FnMetaView>) -> Seq<Seq<char>> {
    fns.map_values(|f: FnMetaView| f.name)
}

pub open spec fn item_lines(fns: Seq<FnMetaView>) -> Seq<Seq<char>> {
    fn_names(fns).map_values(|n: Seq<char>| item_line(n))
}

proof fn lemma_fn_list_unlines(fns: Seq<FnMetaView>)
    ensures
        fn_list_spec(fns) == unlines(item_lines(fns)),
    decreases fns.len(),
{
    reveal_strlit("\n");
    if fns.len() == 0 {
        assert(item_lines(fns) =~= Seq::<Seq<char>>::empty());
    } else {
        let d = fns.drop_last();
        lemma_fn_list_unlines(d);
        assert(item_lines(fns) =~= item_lines(d).push(item_line(fns.last().name)));
        lemma_unlines_push(item_lines(d), item_line(fns.last().name));
        assert(fn_list_spec(fns) =~= unlines(item_lines(fns)));
    }
}

/// A function name that reads back as written from the front matter: no
/// line break, double quote or backslash in it, no whitespace at its ends.
pub open spec fn plain_name(n: Seq<char>) -> bool {
    &&& !n.contains('\n')
    &&& !n.contains('"')
    &&& !n.contains('\\')
    &&& n.len() > 0 ==> !is_ws(n[0]) && !is_ws(n.last())
}

pub open spec fn ascii_alnum(c: char) -> bool {
    ('a' <= c && c <= 'z') || ('A' <= c && c <= 'Z') || ('0' <= c && c <= '9')
}

proof fn lemma_escape_plain(n: Seq<char>)
    requires
        !n.contains('"'),
        !n.contains('\\'),
    ensures
        escape_quoted(n) == n,
    decreases n.len(),
{
    if n.len() > 0 {
        let d = n.drop_last();
        if d.contains('"') {
            let k = choose|k: int| 0 <= k < d.len() && d[k] == '"';
            assert(n[k] == '"');
        }
        if d.contains('\\') {
            let k = choose|k: int| 0 <= k < d.len() && d[k] == '\\';
            assert(n[k] == '\\');
        }
        lemma_escape_plain(d);
        assert(n[n.len() - 1] == n.last());
        assert(escape_quoted(n) =~= d + seq![n.last()]);
    }
}

proof fn lemma_escape_no_break(n: Seq<char>)
    requires
        !n.contains('\n'),
    ensures
        !escape_quoted(n).contains('\n'),
    decreases n.len(),
{
    if n.len() > 0 {
        let d = n.drop_last();
        if d.contains('\n') {
            let k = choose|k: int| 0 <= k < d.len() && d[k] == '\n';
            assert(n[k] == '\n');
        }
        lemma_escape_no_break(d);
        let c = n.last();
        assert(n[n.len() - 1] == c);
        let e = escape_quoted(d);
        let piece = if c == '\\' {
            seq!['\\', '\\']
        } else if c == '"' {
            seq!['\\', '"']
        } else {
            seq![c]
        };
        assert(escape_quoted(n) == e + piece);
        if (e + piece).contains('\n') {
            let k = choose|k: int| 0 <= k < (e + piece).len() && (e + piece)[k] == '\n';
            if k < e.len() {
                assert(e[k] == '\n');
            }
        }
    }
}

proof fn lemma_no_char_concat(a: Seq<char>, b: Seq<char>, c: char)
    requires
        !a.contains(c),
        !b.contains(c),
    ensures
        !(a + b).contains(c),
{
    if (a + b).contains(c) {
        let k = choose|k: int| 0 <= k < (a + b).len() && (a + b)[k] == c;
        if k < a.len() {
            assert(a[k] == c);
        } else {
            assert(b[k - a.len()] == c);
        }
    }
}

proof fn lemma_first_colon(p: Seq<char>, s: Seq<char>)
    requires
        first_index_of(p, ':') >= 0,
    ensures
        first_index_of(p + s, ':') == first_index_of(p, ':'),
    decreases p.len(),
{
    if p[0] != ':' {
        assert((p + s).drop_first() =~= p.drop_first() + s);
        lemma_first_colon(p.drop_first(), s);
    }
    assert((p + s)[0] == p[0]);
}

proof fn lemma_trim_plain(s: Seq<char>)
    requires
        s.len() > 0,
        !is_ws(s[0]),
        !is_ws(s.last()),
    ensures
        trim(s) == s,
{
}

proof fn lemma_trim_char_plain(s: Seq<char>, c: char)
    requires
        s.len() > 0,
        s[0] != c,
        s.last() != c,
    ensures
        trim_char(s, c) == s,
{
}

proof fn lemma_trim_lead_space(s: Seq<char>)
    ensures
        trim_start(seq![' '] + s) == trim_start(s),
{
    assert((seq![' '] + s).drop_first() =~= s);
    assert(is_ws(' '));
}

proof fn lemma_trim_quoted(n: Seq<char>)
    requires
        n.len() > 0,
        n[0] != '"',
        n.last() != '"',
    ensures
        trim_char(seq!['"'] + n + seq!['"'], '"') == n,
{
    let y = seq!['"'] + n + seq!['"'];
    let z = n + seq!['"'];
    assert(y[0] == '"');
    assert(y.drop_first() =~= z);
    assert(z[0] == n[0]);
    assert(trim_start_char(z, '"') == z);
    assert(trim_start_char(y, '"') == z);
    assert(z.last() == '"');
    assert(z.drop_last() =~= n);
    assert(trim_end_char(n, '"') == n);
    assert(trim_end_char(z, '"') == n);
}

proof fn lemma_ends_not_quote(n: Seq<char>)
    requires
        n.len() > 0,
        !n.contains('"'),
    ensures
        n[0] != '"',
        n.last() != '"',
{
    if n[0] == '"' {
        assert(n.contains('"'));
    }
    if n.last() == '"' {
        assert(n[n.len() - 1] == '"');
        assert(n.contains('"'));
    }
}

/// What the value of an item line reads back as, and that it stays one line.
proof fn lemma_escaped_value(n: Seq<char>)
    requires
        plain_name(n),
    ensures
        !yaml_escape_spec(n).contains('\n'),
        yaml_escape_spec(n).len() > 0,
        !is_ws(yaml_escape_spec(n).last()),
        yaml_escape_spec(n)[0] != ' ',
        trim_char(trim(yaml_escape_spec(n)), '"') == n,
{
    let y = yaml_escape_spec(n);
    assert(!is_ws('"'));
    if n.len() == 0 {
        assert(y == seq!['"', '"']);
        if y.contains('\n') {
            let k = choose|k: int| 0 <= k < y.len() && y[k] == '\n';
        }
        assert(trim(y) == y);
        assert(y.drop_first() =~= seq!['"']);
        assert(seq!['"'].drop_first() =~= Seq::<char>::empty());
        assert(trim_start_char(Seq::<char>::empty(), '"') == Seq::<char>::empty());
        assert(seq!['"'][0] == '"');
        assert(trim_start_char(seq!['"'], '"') == Seq::<char>::empty());
        assert(trim_end_char(Seq::<char>::empty(), '"') == Seq::<char>::empty());
        assert(trim_start_char(y, '"') == Seq::<char>::empty());
        assert(n =~= Seq::<char>::empty());
    } else {
        lemma_ends_not_quote(n);
        if exists|i: int| 0 <= i < n.len() && yaml_special(#[trigger] n[i]) {
            lemma_escape_plain(n);
            assert(y == seq!['"'] + n + seq!['"']);
            lemma_no_char_concat(seq!['"'], n, '\n');
            lemma_no_char_concat(seq!['"'] + n, seq!['"'], '\n');
            lemma_trim_plain(y);
            lemma_trim_quoted(n);
        } else {
            assert(y == n);
            assert(n[0] != ' ');
            lemma_trim_plain(n);
            lemma_trim_char_plain(n, '"');
        }
    }
}

proof fn lemma_item_line(n: Seq<char>)
    requires
        plain_name(n),
    ensures
        is_line(item_line(n)),
        item_line(n) != "---"@,
        has_prefix(item_line(n), "  - "@),
        trim_char(trim(item_line(n).subrange(4, item_line(n).len() as int)), '"') == n,
{
    reveal_strlit("  - ");
    reveal_strlit("---");
    let y = yaml_escape_spec(n);
    let l = item_line(n);
    lemma_escaped_value(n);
    assert(l.subrange(4, l.len() as int) =~= y);
    assert(l.subrange(0, 4) =~= "  - "@);
    assert(l[0] == ' ');
    if "  - "@.contains('\n') {
        let k = choose|k: int| 0 <= k < 4 && "  - "@[k] == '\n';
    }
    lemma_no_char_concat("  - "@, y, '\n');
    assert(l.last() == y.last());
    assert(is_ws('\r'));
}

proof fn lemma_parse_items(
    ls: Seq<Seq<char>>,
    j: int,
    m: Map<Seq<char>, Seq<char>>,
    k: Seq<char>,
    list: Seq<Seq<char>>,
    names: Seq<Seq<char>>,
)
    requires
        0 <= j,
        j + names.len() < ls.len(),
        forall|t: int| 0 <= t < names.len() ==> ls[j + t] == item_line(#[trigger] names[t]) && plain_name(names[t]),
    ensures
        fm_parse(ls, j, m, Some(k), list) == fm_parse(ls, j + names.len(), m, Some(k), list + names),
    decreases names.len(),
{
    if names.len() == 0 {
        assert(list + names =~= list);
    } else {
        let n0 = names[0];
        assert(ls[j + 0] == item_line(n0) && plain_name(n0));
        lemma_item_line(n0);
        let rest = names.drop_first();
        assert forall|t: int| 0 <= t < rest.len() implies ls[(j + 1) + t] == item_line(#[trigger] rest[t]) && plain_name(
            rest[t],
        ) by {
            assert(rest[t] == names[t + 1]);
            assert(ls[j + (t + 1)] == item_line(names[t + 1]) && plain_name(names[t + 1]));
        }
        lemma_parse_items(ls, j + 1, m, k, list.push(n0), rest);
        assert(list.push(n0) + rest =~= list + names);
    }
}

proof fn lemma_tags_line()
    ensures
        is_line("tags: [code, code-structure]"@),
        "tags: [code, code-structure]"@ != "---"@,
        first_index_of("tags: [code, code-structure]"@, ':') == 4,
        trim("tags: [code, code-structure]"@.subrange(0, 4)) == "tags"@,
        trim_char(trim("tags: [code, code-structure]"@.subrange(5, 28)), '"') == "[code, code-structure]"@,
        "tags: [code, code-structure]"@.len() == 28,
        "[code, code-structure]"@.len() == 22,
{
    reveal_strlit("tags: [code, code-structure]");
    reveal_strlit("---");
    reveal_strlit("tags");
    reveal_strlit("[code, code-structure]");
    let l = "tags: [code, code-structure]"@;
    assert(l.len() == 28);
    reveal_with_fuel(first_index_of, 6);
    if l.contains('\n') {
        let k = choose|k: int| 0 <= k < l.len() && l[k] == '\n';
    }
    assert(l.subrange(0, 4) =~= "tags"@);
    lemma_trim_plain("tags"@);
    let v = l.subrange(5, 28);
    assert(v =~= seq![' '] + "[code, code-structure]"@);
    lemma_trim_lead_space("[code, code-structure]"@);
    lemma_trim_plain("[code, code-structure]"@);
    assert(trim_start("[code, code-structure]"@) == "[code, code-structure]"@);
    lemma_trim_char_plain("[code, code-structure]"@, '"');
}

proof fn lemma_fns_line()
    ensures
        is_line("fns:"@),
        "fns:"@ != "---"@,
        first_index_of("fns:"@, ':') == 3,
        trim("fns:"@.subrange(0, 3)) == "fns"@,
        trim_char(trim("fns:"@.subrange(4, 4)), '"').len() == 0,
        "fns:"@.len() == 4,
        is_line("---"@),
        !has_prefix("fns:"@, "  - "@),
{
    reveal_strlit("fns:");
    reveal_strlit("fns");
    reveal_strlit("---");
    reveal_strlit("  - ");
    let l = "fns:"@;
    reveal_with_fuel(first_index_of, 5);
    if l.contains('\n') {
        let k = choose|k: int| 0 <= k < l.len() && l[k] == '\n';
    }
    if "---"@.contains('\n') {
        let k = choose|k: int| 0 <= k < 3 && "---"@[k] == '\n';
    }
    assert(l.subrange(0, 3) =~= "fns"@);
    lemma_trim_plain("fns"@);
    assert(l.subrange(4, 4) =~= Seq::<char>::empty());
    assert(l.subrange(0, 4) != "  - "@) by {
        assert(l.subrange(0, 4)[0] != "  - "@[0]);
    }
}

/// The `source:` line of a structure file's front matter.
pub open spec fn source_line(source_key: Seq<char>) -> Seq<char> {
    "source: "@ + yaml_escape_spec(to_slash_spec(source_key))
}

proof fn lemma_source_value(source_key: Seq<char>)
    requires
        !source_key.contains('\n'),
        !source_key.contains('\r'),
    ensures
        !yaml_escape_spec(to_slash_spec(source_key)).contains('\n'),
        yaml_escape_spec(to_slash_spec(source_key)).len() > 0,
        yaml_escape_spec(to_slash_spec(source_key)).last() != '\r',
{
    let sd = to_slash_spec(source_key);
    let y = yaml_escape_spec(sd);
    assert(sd.len() == source_key.len());
    if sd.contains('\n') {
        let k = choose|k: int| 0 <= k < sd.len() && sd[k] == '\n';
        assert(source_key[k] == '\n');
    }
    if sd.len() == 0 {
        assert(y == seq!['"', '"']);
        if y.contains('\n') {
            let k = choose|k: int| 0 <= k < y.len() && y[k] == '\n';
        }
    } else if exists|i: int| 0 <= i < sd.len() && yaml_special(#[trigger] sd[i]) {
        lemma_escape_no_break(sd);
        assert(y == seq!['"'] + escape_quoted(sd) + seq!['"']);
        lemma_no_char_concat(seq!['"'], escape_quoted(sd), '\n');
        lemma_no_char_concat(seq!['"'] + escape_quoted(sd), seq!['"'], '\n');
    } else {
        assert(y == sd);
        assert(sd.last() == sd[sd.len() - 1]);
        if sd.last() == '\r' {
            assert(source_key[sd.len() - 1] == '\r');
        }
    }
}

proof fn lemma_source_line(source_key: Seq<char>)
    requires
        !source_key.contains('\n'),
        !source_key.contains('\r'),
    ensures
        is_line(source_line(source_key)),
        source_line(source_key) != "---"@,
        !has_prefix(source_line(source_key), "  - "@),
        first_index_of(source_line(source_key), ':') == 6,
        trim(source_line(source_key).subrange(0, 6)) == "source"@,
{
    reveal_strlit("source: ");
    reveal_strlit("source");
    reveal_strlit("---");
    reveal_strlit("  - ");
    let p = "source: "@;
    let y = yaml_escape_spec(to_slash_spec(source_key));
    let l = source_line(source_key);
    lemma_source_value(source_key);
    if p.contains('\n') {
        let k = choose|k: int| 0 <= k < p.len() && p[k] == '\n';
    }
    lemma_no_char_concat(p, y, '\n');
    assert(l.last() == y.last());
    assert(l.len() > 3);
    assert(l[0] == 's');
    assert(l.subrange(0, 4)[0] != "  - "@[0]);
    reveal_with_fuel(first_index_of, 8);
    assert(first_index_of(p, ':') == 6);
    lemma_first_colon(p, y);
    assert(l.subrange(0, 6) =~= "source"@);
    lemma_trim_plain("source"@);
}

/// The `language:` line of a structure file's front matter.
proof fn lemma_language_line(ext: Seq<char>)
    requires
        ext.len() > 0,
        forall|i: int| 0 <= i < ext.len() ==> ascii_alnum(#[trigger] ext[i]),
    ensures
        is_line("language: "@ + ext),
        "language: "@ + ext != "---"@,
        !has_prefix("language: "@ + ext, "  - "@),
        first_index_of("language: "@ + ext, ':') == 8,
        trim(("language: "@ + ext).subrange(0, 8)) == "language"@,
        trim_char(trim(("language: "@ + ext).subrange(9, ("language: "@ + ext).len() as int)), '"') == ext,
{
    reveal_strlit("language: ");
    reveal_strlit("language");
    reveal_strlit("---");
    reveal_strlit("  - ");
    let p = "language: "@;
    let l = p + ext;
    assert(ascii_alnum(ext[0]) && ascii_alnum(ext[ext.len() - 1]));
    assert(ext.last() == ext[ext.len() - 1]);
    if ext.contains('\n') {
        let k = choose|k: int| 0 <= k < ext.len() && ext[k] == '\n';
        assert(ascii_alnum(ext[k]));
    }
    if p.contains('\n') {
        let k = choose|k: int| 0 <= k < p.len() && p[k] == '\n';
    }
    lemma_no_char_concat(p, ext, '\n');
    assert(l.last() == ext.last());
    assert(l.len() > 3);
    assert(l[0] == 'l');
    assert(l.subrange(0, 4)[0] != "  - "@[0]);
    reveal_with_fuel(first_index_of, 10);
    assert(first_index_of(p, ':') == 8);
    lemma_first_colon(p, ext);
    assert(l.subrange(0, 8) =~= "language"@);
    lemma_trim_plain("language"@);
    assert(l.subrange(9, l.len() as int) =~= seq![' '] + ext);
    lemma_trim_lead_space(ext);
    lemma_trim_plain(ext);
    assert(trim_start(ext) == ext);
    lemma_trim_char_plain(ext, '"');
}

/// The front matter lines of a structure file, closing `---` included.
pub open spec fn header_lines(source_key: Seq<char>, ext: Seq<char>, fns: Seq<FnMetaView>) -> Seq<Seq<char>> {
    seq!["---"@, "tags: [code, code-structure]"@, source_line(source_key), "language: "@ + ext, "fns:"@] + item_lines(
        fns,
    ) + seq!["---"@]
}

pub open spec fn head_text(source_key: Seq<char>, ext: Seq<char>, fns: Seq<FnMetaView>) -> Seq<char> {
    "---\n"@ + "tags: [code, code-structure]\n"@ + "source: "@ + yaml_escape_spec(to_slash_spec(source_key)) + "\n"@
        + "language: "@ + ext + "\n"@ + "fns:\n"@ + fn_list_spec(fns) + "---\n\n"@
}

pub open spec fn tail_text(source: Seq<char>, source_key: Seq<char>, ext: Seq<char>, fns: Seq<FnMetaView>) -> Seq<char> {
    let sd = to_slash_spec(source_key);
    let top = top_level_spec(source, fns);
    "# "@ + sd + "\n\n"@ + (if trim(top).len() > 0 {
        "## Top-level\n\n"@ + "```"@ + ext + "\n"@ + trim_end(top) + "\n```\n\n"@
    } else {
        seq![]
    }) + "## Functions\n\n"@ + fn_entries_spec(fns, source_key, ext)
}

proof fn lemma_split_text(source: Seq<char>, source_key: Seq<char>, ext: Seq<char>, fns: Seq<FnMetaView>)
    ensures
        structure_md_spec(source, source_key, ext, fns) == head_text(source_key, ext, fns) + tail_text(
            source,
            source_key,
            ext,
            fns,
        ),
{
    assert(structure_md_spec(source, source_key, ext, fns) =~= head_text(source_key, ext, fns) + tail_text(
        source,
        source_key,
        ext,
        fns,
    ));
}

proof fn lemma_unlines_h5(source_key: Seq<char>, ext: Seq<char>)
    ensures
        unlines(seq!["---"@, "tags: [code, code-structure]"@, source_line(source_key), "language: "@ + ext, "fns:"@])
            == "---"@ + seq!['\n'] + "tags: [code, code-structure]"@ + seq!['\n'] + source_line(source_key) + seq![
            '\n'] + ("language: "@ + ext) + seq!['\n'] + "fns:"@ + seq!['\n'],
{
    let h5 = seq!["---"@, "tags: [code, code-structure]"@, source_line(source_key), "language: "@ + ext, "fns:"@];
    let e = Seq::<Seq<char>>::empty();
    assert(unlines(e) =~= Seq::<char>::empty());
    lemma_unlines_push(e, "---"@);
    assert(e.push("---"@) =~= h5.subrange(0, 1));
    lemma_unlines_push(h5.subrange(0, 1), "tags: [code, code-structure]"@);
    assert(h5.subrange(0, 1).push("tags: [code, code-structure]"@) =~= h5.subrange(0, 2));
    lemma_unlines_push(h5.subrange(0, 2), source_line(source_key));
    assert(h5.subrange(0, 2).push(source_line(source_key)) =~= h5.subrange(0, 3));
    lemma_unlines_push(h5.subrange(0, 3), "language: "@ + ext);
    assert(h5.subrange(0, 3).push("language: "@ + ext) =~= h5.subrange(0, 4));
    lemma_unlines_push(h5.subrange(0, 4), "fns:"@);
    assert(h5.subrange(0, 4).push("fns:"@) =~= h5);
    assert(unlines(h5) =~= "---"@ + seq!['\n'] + "tags: [code, code-structure]"@ + seq!['\n'] + source_line(source_key)
        + seq!['\n'] + ("language: "@ + ext) + seq!['\n'] + "fns:"@ + seq!['\n']);
}

proof fn lemma_head_lines(source_key: Seq<char>, ext: Seq<char>, fns: Seq<FnMetaView>)
    ensures
        head_text(source_key, ext, fns) == unlines(header_lines(source_key, ext, fns)) + seq!['\n'],
{
    reveal_strlit("---\n");
    reveal_strlit("---");
    reveal_strlit("tags: [code, code-structure]\n");
    reveal_strlit("tags: [code, code-structure]");
    reveal_strlit("\n");
    reveal_strlit("fns:\n");
    reveal_strlit("fns:");
    reveal_strlit("---\n\n");
    let h5 = seq!["---"@, "tags: [code, code-structure]"@, source_line(source_key), "language: "@ + ext, "fns:"@];
    let items = item_lines(fns);
    lemma_unlines_h5(source_key, ext);
    lemma_fn_list_unlines(fns);
    lemma_unlines_append(h5, items + seq!["---"@]);
    lemma_unlines_append(items, seq!["---"@]);
    lemma_unlines_push(Seq::<Seq<char>>::empty(), "---"@);
    assert(Seq::<Seq<char>>::empty().push("---"@) =~= seq!["---"@]);
    assert(unlines(Seq::<Seq<char>>::empty()) =~= Seq::<char>::empty());
    assert(header_lines(source_key, ext, fns) =~= h5 + (items + seq!["---"@]));
    assert(head_text(source_key, ext, fns) =~= unlines(header_lines(source_key, ext, fns)) + seq!['\n']);
}

proof fn lemma_header_is_lines(source_key: Seq<char>, ext: Seq<char>, fns: Seq<FnMetaView>)
    requires
        !source_key.contains('\n'),
        !source_key.contains('\r'),
        ext.len() > 0,
        forall|i: int| 0 <= i < ext.len() ==> ascii_alnum(#[trigger] ext[i]),
        forall|k: int| 0 <= k < fns.len() ==> plain_name(#[trigger] fns[k].name),
    ensures
        forall|k: int| 0 <= k < header_lines(source_key, ext, fns).len() ==> is_line(
            #[trigger] header_lines(source_key, ext, fns)[k],
        ),
{
    let h = header_lines(source_key, ext, fns);
    let n = fns.len() as int;
    lemma_tags_line();
    lemma_fns_line();
    lemma_source_line(source_key);
    lemma_language_line(ext);
    assert forall|k: int| 0 <= k < h.len() implies is_line(#[trigger] h[k]) by {
        if 5 <= k < 5 + n {
            assert(h[k] == item_line(fns[k - 5].name));
            lemma_item_line(fns[k - 5].name);
        }
    }
}

/// Reading back the front matter of a rendered structure file
/// (`parse_frontmatter` of what `render_structure_md` wrote; their results
/// are `frontmatter_spec` and `structure_md_spec`) gives the tags `[code, code-structure]`, the language it was rendered for, the
/// names of its functions joined by commas, and a `source` entry; this
/// holds for a source key without line breaks, a language made of ASCII
/// letters and digits, and function names that `plain_name` admits.
pub proof fn law_structure_front_matter(source: Seq<char>, source_key: Seq<char>, ext: Seq<char>, fns: Seq<FnMetaView>)
    requires
        !source_key.contains('\n'),
        !source_key.contains('\r'),
        ext.len() > 0,
        forall|i: int| 0 <= i < ext.len() ==> ascii_alnum(#[trigger] ext[i]),
        forall|k: int| 0 <= k < fns.len() ==> plain_name(#[trigger] fns[k].name),
    ensures
        frontmatter_spec(structure_md_spec(source, source_key, ext, fns)) is Some,
        ({
            let m = frontmatter_spec(structure_md_spec(source, source_key, ext, fns))->0;
            &&& m.dom().contains("tags"@) && m["tags"@] == "[code, code-structure]"@
            &&& m.dom().contains("language"@) && m["language"@] == ext
            &&& m.dom().contains("fns"@) && m["fns"@] == join_with(fn_names(fns), seq![','])
            &&& m.dom().contains("source"@)
        }),
{
    reveal_strlit("tags");
    reveal_strlit("source");
    reveal_strlit("language");
    reveal_strlit("fns");
    reveal_strlit("---");
    let h = header_lines(source_key, ext, fns);
    let n = fns.len() as int;
    let names = fn_names(fns);
    lemma_tags_line();
    lemma_fns_line();
    lemma_source_line(source_key);
    lemma_language_line(ext);
    lemma_header_is_lines(source_key, ext, fns);
    lemma_split_text(source, source_key, ext, fns);
    lemma_head_lines(source_key, ext, fns);
    let tail = seq!['\n'] + tail_text(source, source_key, ext, fns);
    let st = structure_md_spec(source, source_key, ext, fns);
    assert(st =~= unlines(h) + tail);
    lemma_lines_unlines(h, tail);
    let ls = lines(st);
    assert(ls == h + lines(tail));
    assert(h.len() == n + 6);
    assert forall|k: int| 0 <= k < h.len() implies ls[k] == #[trigger] h[k] by {}
    assert forall|t: int| 0 <= t < names.len() implies ls[5 + t] == item_line(#[trigger] names[t]) && plain_name(
        names[t],
    ) by {
        assert(names[t] == fns[t].name);
        assert(h[5 + t] == item_line(fns[t].name));
        assert(ls[5 + t] == h[5 + t]);
    }
    let m0 = Map::<Seq<char>, Seq<char>>::empty();
    let e = Seq::<Seq<char>>::empty();
    let m2 = m0.insert("tags"@, "[code, code-structure]"@);
    let sl = source_line(source_key);
    let sv = trim_char(trim(sl.subrange(7, sl.len() as int)), '"');
    let m3 = m2.insert("source"@, sv);
    let m4 = m3.insert("language"@, ext);
    assert(ls[0] == "---"@);
    assert(ls[1] == "tags: [code, code-structure]"@);
    assert(fm_parse(ls, 1, m0, None, e) == fm_parse(ls, 2, m2, None, e));
    assert(ls[2] == sl);
    assert(ls[3] == "language: "@ + ext);
    assert(fm_parse(ls, 2, m2, None, e) == fm_parse(ls, 4, m4, None, e)) by {
        if sv.len() == 0 {
            assert(fm_parse(ls, 2, m2, None, e) == fm_parse(ls, 3, m2, Some("source"@), e));
            assert(join_with(e, seq![',']) =~= sv);
            assert(flush_spec(m2, Some("source"@), e) == m3);
        } else {
            assert(fm_parse(ls, 2, m2, None, e) == fm_parse(ls, 3, m3, None, e));
        }
    }
    assert(ls[4] == "fns:"@);
    assert(fm_parse(ls, 4, m4, None, e) == fm_parse(ls, 5, m4, Some("fns"@), e));
    lemma_parse_items(ls, 5, m4, "fns"@, e, names);
    assert(e + names =~= names);
    assert(ls[5 + n] == "---"@);
    assert(fm_parse(ls, 5 + n, m4, Some("fns"@), names) == Some(m4.insert("fns"@, join_with(names, seq![',']))));
    assert(frontmatter_spec(st) == Some(m4.insert("fns"@, join_with(names, seq![',']))));
    assert("tags"@.len() == 4 && "source"@.len() == 6 && "language"@.len() == 8 && "fns"@.len() == 3);
    assert("tags"@ != "fns"@ && "tags"@ != "language"@ && "tags"@ != "source"@);
    assert("language"@ != "fns"@ && "language"@ != "source"@ && "source"@ != "fns"@);
    let m = m4.insert("fns"@, join_with(names, seq![',']));
    assert(m["tags"@] == "[code, code-structure]"@);
    assert(m["language"@] == ext);
    assert(m.dom().contains("source"@));
}

} // verus!
