//! Splitting ingested text into paragraphs and grouping consecutive
//! paragraphs of the same purpose into chunks.

use vstd::prelude::*;
use crate::text::{char_range, chars_of, find_chars, find_sub, join_with, push_str_chars, str_eq, string_of, trim, trim_chars};

verus! {

/// Consecutive paragraphs classified to one purpose.
#[derive(Debug, Clone)]
pub struct Chunk {
    pub purpose: String,
    pub content: String,
}

/// Pieces of `s` between occurrences of `sep` (`str::split`), from `i`.
pub open spec fn split_str_from(s: Seq<char>, sep: Seq<char>, i: int) -> Seq<Seq<char>>
    decreases s.len() - i,
{
    if sep.len() == 0 || i < 0 || i > s.len() {
        seq![]
    } else {
        let f = crate::text::find_from(s, sep, i);
        proof {
            crate::text::lemma_find_from(s, sep, i);
        }
        if f < 0 {
            seq![s.subrange(i, s.len() as int)]
        } else {
            seq![s.subrange(i, f)] + split_str_from(s, sep, f + sep.len())
        }
    }
}

/// The trimmed non-empty pieces of `pieces`.
pub open spec fn trimmed_nonempty(pieces: Seq<Seq<char>>) -> Seq<Seq<char>>
    decreases pieces.len(),
{
    if pieces.len() == 0 {
        seq![]
    } else {
        (if trim(pieces[0]).len() > 0 {
            seq![trim(pieces[0])]
        } else {
            seq![]
        }) + trimmed_nonempty(pieces.drop_first())
    }
}

/// Paragraphs of `content`: the pieces between blank lines (`\n\n`),
/// trimmed, blank ones dropped.
pub open spec fn paragraphs_spec(content: Seq<char>) -> Seq<Seq<char>> {
    trimmed_nonempty(split_str_from(content, seq!['\n', '\n'], 0))
}

proof fn lemma_trimmed_append(a: Seq<Seq<char>>, b: Seq<Seq<char>>)
    ensures
        trimmed_nonempty(a + b) == trimmed_nonempty(a) + trimmed_nonempty(b),
    decreases a.len(),
{
    if a.len() > 0 {
        lemma_trimmed_append(a.drop_first(), b);
        assert((a + b).drop_first() =~= a.drop_first() + b);
        assert((a + b)[0] == a[0]);
    } else {
        assert(a + b =~= b);
    }
}

/// The paragraphs of a text.
pub fn split_paragraphs(content: &str) -> (r: Vec<String>)
    ensures
        r@.map_values(|p: String| p@) == paragraphs_spec(content@),
{
    let cs = chars_of(content);
    let sep: Vec<char> = vec!['\n', '\n'];
    assert(sep@ =~= seq!['\n', '\n']);
    let mut out: Vec<String> = Vec::new();
    let mut i: usize = 0;
    let n = cs.len();
    loop
        invariant
            i <= n,
            n == cs@.len(),
            cs@ == content@,
            sep@ == seq!['\n', '\n'],
            out@.map_values(|p: String| p@) + trimmed_nonempty(split_str_from(cs@, sep@, i as int))
                == paragraphs_spec(content@),
        decreases n - i,
    {
        let rest = char_range(cs.as_slice(), i, n);
        let ghost before = out@.map_values(|p: String| p@);
        match find_chars(rest.as_slice(), sep.as_slice()) {
            None => {
                proof {
                    crate::text::lemma_find_from(cs@, sep@, i as int);
                    lemma_find_shift(cs@, sep@, i as int);
                }
                let t = trim_chars(rest.as_slice());
                if t.len() > 0 {
                    out.push(string_of(t.as_slice()));
                }
                proof {
                    let pieces = split_str_from(cs@, sep@, i as int);
                    assert(pieces =~= seq![cs@.subrange(i as int, n as int)]);
                    assert(trimmed_nonempty(pieces.drop_first()) =~= Seq::<Seq<char>>::empty());
                    if t@.len() > 0 {
                        assert(out@.map_values(|p: String| p@) =~= before.push(t@));
                    } else {
                        assert(out@.map_values(|p: String| p@) =~= before);
                    }
                }
                return out;
            },
            Some(j) => {
                proof {
                    lemma_find_shift(cs@, sep@, i as int);
                }
                let piece = char_range(rest.as_slice(), 0, j);
                let t = trim_chars(piece.as_slice());
                if t.len() > 0 {
                    out.push(string_of(t.as_slice()));
                }
                proof {
                    let f = i + j;
                    assert(piece@ =~= cs@.subrange(i as int, f as int));
                    let pieces = split_str_from(cs@, sep@, i as int);
                    assert(pieces == seq![cs@.subrange(i as int, f as int)] + split_str_from(cs@, sep@, f + 2));
                    lemma_trimmed_append(seq![cs@.subrange(i as int, f as int)], split_str_from(cs@, sep@, f + 2));
                    assert(seq![cs@.subrange(i as int, f as int)].drop_first() =~= Seq::<Seq<char>>::empty());
                    let one = trimmed_nonempty(seq![cs@.subrange(i as int, f as int)]);
                    assert(one == (if trim(cs@.subrange(i as int, f as int)).len() > 0 {
                        seq![trim(cs@.subrange(i as int, f as int))]
                    } else {
                        Seq::<Seq<char>>::empty()
                    }) + trimmed_nonempty(Seq::<Seq<char>>::empty()));
                    assert(t@ == trim(cs@.subrange(i as int, f as int)));
                    if t@.len() > 0 {
                        assert(out@.map_values(|p: String| p@) =~= before.push(t@));
                    } else {
                        assert(out@.map_values(|p: String| p@) =~= before);
                    }
                }
                i = i + j + 2;
            },
        }
    }
}

/// The pieces of `content` between blank lines, untrimmed (`split("\n\n")`).
pub fn split_blocks(content: &str) -> (r: Vec<String>)
    ensures
        r@.map_values(|p: String| p@) == split_str_from(content@, seq!['\n', '\n'], 0),
{
    let cs = chars_of(content);
    let sep: Vec<char> = vec!['\n', '\n'];
    assert(sep@ =~= seq!['\n', '\n']);
    let mut out: Vec<String> = Vec::new();
    let mut i: usize = 0;
    let n = cs.len();
    loop
        invariant
            i <= n,
            n == cs@.len(),
            cs@ == content@,
            sep@ == seq!['\n', '\n'],
            out@.map_values(|p: String| p@) + split_str_from(cs@, sep@, i as int) == split_str_from(
                content@,
                seq!['\n', '\n'],
                0,
            ),
        decreases n - i,
    {
        let rest = char_range(cs.as_slice(), i, n);
        let ghost before = out@.map_values(|p: String| p@);
        proof {
            crate::text::lemma_find_from(cs@, sep@, i as int);
            lemma_find_shift(cs@, sep@, i as int);
        }
        match find_chars(rest.as_slice(), sep.as_slice()) {
            None => {
                out.push(string_of(rest.as_slice()));
                proof {
                    assert(split_str_from(cs@, sep@, i as int) =~= seq![cs@.subrange(i as int, n as int)]);
                    assert(out@.map_values(|p: String| p@) =~= before.push(rest@));
                }
                return out;
            },
            Some(j) => {
                let piece = char_range(rest.as_slice(), 0, j);
                out.push(string_of(piece.as_slice()));
                proof {
                    let f = i + j;
                    assert(piece@ =~= cs@.subrange(i as int, f as int));
                    assert(split_str_from(cs@, sep@, i as int) == seq![cs@.subrange(i as int, f as int)]
                        + split_str_from(cs@, sep@, f + 2));
                    assert(out@.map_values(|p: String| p@) =~= before.push(piece@));
                    assert(before.push(piece@) + split_str_from(cs@, sep@, f + 2) =~= before + (seq![
                        cs@.subrange(i as int, f as int),
                    ] + split_str_from(cs@, sep@, f + 2)));
                }
                i = i + j + 2;
            },
        }
    }
}

/// Where `p` is found in `s` from `i` relates to where it is found in
/// `s[i..]`.
proof fn lemma_find_shift(s: Seq<char>, p: Seq<char>, i: int)
    requires
        0 <= i <= s.len(),
    ensures
        ({
            let t = s.subrange(i, s.len() as int);
            &&& crate::text::find_from(s, p, i) == -1 <==> find_sub(t, p) == -1
            &&& find_sub(t, p) >= 0 ==> crate::text::find_from(s, p, i) == find_sub(t, p) + i
        }),
{
    lemma_find_shift_from(s, p, i, i);
}

proof fn lemma_find_shift_from(s: Seq<char>, p: Seq<char>, i: int, j: int)
    requires
        0 <= i <= j,
        i <= s.len(),
    ensures
        ({
            let t = s.subrange(i, s.len() as int);
            &&& crate::text::find_from(s, p, j) == -1 <==> crate::text::find_from(t, p, j - i) == -1
            &&& crate::text::find_from(t, p, j - i) >= 0 ==> crate::text::find_from(s, p, j)
                == crate::text::find_from(t, p, j - i) + i
        }),
    decreases s.len() + 1 - j,
{
    let t = s.subrange(i, s.len() as int);
    if j + p.len() > s.len() {
    } else {
        assert(crate::text::occurs_at(s, p, j) == crate::text::occurs_at(t, p, j - i)) by {
            if j + p.len() <= s.len() {
                assert(s.subrange(j, j + p.len()) =~= t.subrange(j - i, j - i + p.len()));
            }
        }
        if !crate::text::occurs_at(s, p, j) {
            lemma_find_shift_from(s, p, i, j + 1);
        }
    }
}

/// Groups consecutive paragraphs of the same purpose, joining them with a
/// blank line.
pub open spec fn group_spec(pairs: Seq<(Seq<char>, Seq<char>)>) -> Seq<(Seq<char>, Seq<char>)>
    decreases pairs.len(),
{
    if pairs.len() == 0 {
        seq![]
    } else {
        let prev = group_spec(pairs.drop_last());
        let (para, purpose) = pairs.last();
        if prev.len() > 0 && prev.last().0 == purpose {
            prev.update(prev.len() - 1, (purpose, prev.last().1 + "\n\n"@ + para))
        } else {
            prev.push((purpose, para))
        }
    }
}

pub open spec fn chunks_view(v: Seq<Chunk>) -> Seq<(Seq<char>, Seq<char>)> {
    v.map_values(|c: Chunk| (c.purpose@, c.content@))
}

/// Chunks of paragraphs paired with their purposes (pairs beyond the
/// shorter list are ignored).
pub fn group_chunks(paragraphs: &Vec<String>, purposes: &Vec<String>) -> (r: Vec<Chunk>)
    ensures
        ({
            let n = if paragraphs@.len() < purposes@.len() {
                paragraphs@.len()
            } else {
                purposes@.len()
            };
            chunks_view(r@) == group_spec(
                Seq::new(n, |k: int| (paragraphs@[k]@, purposes@[k]@)),
            )
        }),
{
    let n = if paragraphs.len() < purposes.len() {
        paragraphs.len()
    } else {
        purposes.len()
    };
    let ghost pairs = Seq::new(n as nat, |k: int| (paragraphs@[k]@, purposes@[k]@));
    let mut out: Vec<Chunk> = Vec::new();
    let mut i: usize = 0;
    while i < n
        invariant
            i <= n,
            n <= paragraphs@.len(),
            n <= purposes@.len(),
            pairs == Seq::new(n as nat, |k: int| (paragraphs@[k]@, purposes@[k]@)),
            chunks_view(out@) == group_spec(pairs.subrange(0, i as int)),
        decreases n - i,
    {
        let ghost s = pairs.subrange(0, i + 1);
        proof {
            assert(s.drop_last() =~= pairs.subrange(0, i as int));
            assert(s.last() == (paragraphs@[i as int]@, purposes@[i as int]@));
        }
        let ghost before = chunks_view(out@);
        let para = &paragraphs[i];
        let purpose = &purposes[i];
        let l = out.len();
        if l > 0 && str_eq(out[l - 1].purpose.as_str(), purpose.as_str()) {
            let mut v = chars_of(out[l - 1].content.as_str());
            push_str_chars(&mut v, "\n\n");
            push_str_chars(&mut v, para.as_str());
            let content = string_of(v.as_slice());
            let c = Chunk { purpose: purpose.clone(), content };
            out.set(l - 1, c);
            assert(chunks_view(out@) =~= before.update(
                before.len() - 1,
                (purpose@, before.last().1 + "\n\n"@ + para@),
            ));
        } else {
            out.push(Chunk { purpose: purpose.clone(), content: para.clone() });
            assert(chunks_view(out@) =~= before.push((purpose@, para@)));
        }
        i = i + 1;
    }
    assert(pairs.subrange(0, n as int) =~= pairs);
    out
}

// ── Laws of grouping ────────────────────────────────────────────────────

pub open spec fn pair_paras(pairs: Seq<(Seq<char>, Seq<char>)>) -> Seq<Seq<char>> {
    pairs.map_values(|p: (Seq<char>, Seq<char>)| p.0)
}

pub open spec fn chunk_contents(g: Seq<(Seq<char>, Seq<char>)>) -> Seq<Seq<char>> {
    g.map_values(|c: (Seq<char>, Seq<char>)| c.1)
}

proof fn lemma_group_last(pairs: Seq<(Seq<char>, Seq<char>)>)
    requires
        pairs.len() > 0,
    ensures
        group_spec(pairs).len() > 0,
        group_spec(pairs).last().0 == pairs.last().1,
        group_spec(pairs).len() <= pairs.len(),
    decreases pairs.len(),
{
    if pairs.len() > 1 {
        lemma_group_last(pairs.drop_last());
    } else {
        assert(pairs.drop_last().len() == 0);
        assert(group_spec(pairs.drop_last()) =~= Seq::<(Seq<char>, Seq<char>)>::empty());
    }
}

proof fn lemma_join_push(s: Seq<Seq<char>>, sep: Seq<char>, x: Seq<char>)
    requires
        s.len() > 0,
    ensures
        join_with(s.push(x), sep) == join_with(s, sep) + sep + x,
{
    assert(s.push(x).drop_last() =~= s);
}

proof fn lemma_join_extend_last(s: Seq<Seq<char>>, sep: Seq<char>, x: Seq<char>)
    requires
        s.len() > 0,
    ensures
        join_with(s.update(s.len() - 1, s.last() + sep + x), sep) == join_with(s, sep) + sep + x,
{
    let u = s.update(s.len() - 1, s.last() + sep + x);
    if s.len() == 1 {
        assert(u[0] == s[0] + sep + x);
    } else {
        assert(u.drop_last() =~= s.drop_last());
        assert(u.last() == s.last() + sep + x);
        assert(join_with(u, sep) =~= join_with(s, sep) + sep + x);
    }
}

/// No paragraph is lost or reordered: the chunks' contents joined by blank
/// lines are the paragraphs joined by blank lines.
pub proof fn law_chunks_keep_paragraphs(pairs: Seq<(Seq<char>, Seq<char>)>)
    ensures
        join_with(chunk_contents(group_spec(pairs)), "\n\n"@) == join_with(pair_paras(pairs), "\n\n"@),
    decreases pairs.len(),
{
    let sep = "\n\n"@;
    if pairs.len() > 0 {
        let d = pairs.drop_last();
        let (para, purpose) = pairs.last();
        law_chunks_keep_paragraphs(d);
        let prev = group_spec(d);
        assert(pair_paras(pairs) =~= pair_paras(d).push(para));
        if d.len() > 0 {
            lemma_group_last(d);
            lemma_join_push(pair_paras(d), sep, para);
            if prev.last().0 == purpose {
                let u = prev.update(prev.len() - 1, (purpose, prev.last().1 + sep + para));
                assert(chunk_contents(u) =~= chunk_contents(prev).update(
                    prev.len() - 1,
                    chunk_contents(prev).last() + sep + para,
                ));
                lemma_join_extend_last(chunk_contents(prev), sep, para);
            } else {
                assert(chunk_contents(prev.push((purpose, para))) =~= chunk_contents(prev).push(para));
                lemma_join_push(chunk_contents(prev), sep, para);
            }
        } else {
            assert(prev.len() == 0);
            assert(chunk_contents(group_spec(pairs)) =~= seq![para]);
            assert(pair_paras(pairs) =~= seq![para]);
        }
    }
}

/// Neighbouring chunks have different purposes.
pub proof fn law_chunks_purposes_alternate(pairs: Seq<(Seq<char>, Seq<char>)>)
    ensures
        forall|k: int|
            0 <= k < group_spec(pairs).len() - 1 ==> (#[trigger] group_spec(pairs)[k]).0 != group_spec(pairs)[k + 1].0,
    decreases pairs.len(),
{
    if pairs.len() > 0 {
        let d = pairs.drop_last();
        law_chunks_purposes_alternate(d);
        let prev = group_spec(d);
        let g = group_spec(pairs);
        if d.len() > 0 {
            lemma_group_last(d);
        }
        assert forall|k: int| 0 <= k < g.len() - 1 implies (#[trigger] g[k]).0 != g[k + 1].0 by {
            assert(g[k].0 == prev[k].0);
            if k + 1 < prev.len() {
                assert(g[k + 1].0 == prev[k + 1].0);
            }
        }
    }
}

/// Paragraphs of one purpose make one chunk: their contents joined by
/// blank lines, under that purpose.
pub proof fn law_one_purpose_one_chunk(pairs: Seq<(Seq<char>, Seq<char>)>, purpose: Seq<char>)
    requires
        pairs.len() > 0,
        forall|k: int| 0 <= k < pairs.len() ==> (#[trigger] pairs[k]).1 == purpose,
    ensures
        group_spec(pairs) == seq![(purpose, join_with(pair_paras(pairs), "\n\n"@))],
    decreases pairs.len(),
{
    let d = pairs.drop_last();
    assert(pairs.last() == pairs[pairs.len() - 1]);
    assert(pair_paras(pairs) =~= pair_paras(d).push(pairs.last().0));
    if d.len() > 0 {
        assert forall|k: int| 0 <= k < d.len() implies (#[trigger] d[k]).1 == purpose by {
            assert(d[k] == pairs[k]);
        }
        law_one_purpose_one_chunk(d, purpose);
        lemma_join_push(pair_paras(d), "\n\n"@, pairs.last().0);
        assert(group_spec(pairs) =~= seq![(purpose, join_with(pair_paras(pairs), "\n\n"@))]);
    } else {
        assert(group_spec(d) =~= Seq::<(Seq<char>, Seq<char>)>::empty());
        assert(pairs.last().1 == purpose);
        assert(pair_paras(pairs) =~= seq![pairs.last().0]);
        assert(join_with(seq![pairs.last().0], "\n\n"@) == pairs.last().0);
        assert(group_spec(pairs) =~= seq![(purpose, join_with(pair_paras(pairs), "\n\n"@))]);
    }
}

/// Where the purpose changes, the chunks split: grouping two runs of
/// paragraphs whose meeting paragraphs differ in purpose gives the chunks of
/// the first followed by the chunks of the second.
pub proof fn law_chunks_split_at_purpose_change(a: Seq<(Seq<char>, Seq<char>)>, b: Seq<(Seq<char>, Seq<char>)>)
    requires
        a.len() > 0,
        b.len() > 0,
        a.last().1 != b[0].1,
    ensures
        group_spec(a + b) == group_spec(a) + group_spec(b),
    decreases b.len(),
{
    lemma_group_last(a);
    let ab = a + b;
    assert(ab.last() == b.last());
    if b.len() == 1 {
        assert(ab.drop_last() =~= a);
        assert(b.drop_last() =~= Seq::<(Seq<char>, Seq<char>)>::empty());
        assert(b.last() == b[0]);
        assert(group_spec(b.drop_last()) =~= Seq::<(Seq<char>, Seq<char>)>::empty());
        assert(group_spec(b) =~= seq![(b[0].1, b[0].0)]);
        assert(group_spec(a).last().0 != b[0].1);
        assert(group_spec(ab) =~= group_spec(a).push((b[0].1, b[0].0)));
        assert(group_spec(ab) =~= group_spec(a) + group_spec(b));
    } else {
        let bd = b.drop_last();
        assert(ab.drop_last() =~= a + bd);
        assert(bd[0] == b[0]);
        law_chunks_split_at_purpose_change(a, bd);
        lemma_group_last(bd);
        let ga = group_spec(a);
        let gb = group_spec(bd);
        assert((ga + gb).last() == gb.last());
        let (para, purpose) = b.last();
        if gb.last().0 == purpose {
            assert((ga + gb).update((ga + gb).len() - 1, (purpose, (ga + gb).last().1 + "\n\n"@ + para)) =~= ga
                + gb.update(gb.len() - 1, (purpose, gb.last().1 + "\n\n"@ + para)));
        } else {
            assert((ga + gb).push((purpose, para)) =~= ga + gb.push((purpose, para)));
        }
    }
}

} // verus!
