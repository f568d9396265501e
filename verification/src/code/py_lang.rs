//! Byte-level Python source scanner: finds top-level and class-nested `def`
//! blocks by indentation, qualifying method names with their enclosing
//! classes. Each routine is specified by the recursive function describing
//! its walk over the bytes.

use vstd::prelude::*;
use vstd::string::StringSliceAdditionalSpecFns;
use crate::code::rs_lang::{
    ascii_string, ascii_text, ident_end, ident_end_spec, is_ident_start, is_ident_start_spec, line_end,
    line_end_spec,
};
use crate::code::splitter::{FnMeta, FnMetaView, strip_body_edges, strip_body_edges_spec};
use crate::text::{byte_range, from_utf8_lossy, trim, trim_str, utf8_lossy};

verus! {

/// Largest source the Python scanner accepts: indentation widths, up to 8
/// columns per byte (a tab counts up to 8), are `usize` values, so eight
/// columns per byte of the source, and a little more, must fit in `usize`.
pub open spec fn max_py_len() -> int {
    usize::MAX as int / 8 - 1
}

/// Line-start offsets after `i`: one for each newline that is not the last
/// byte.
pub open spec fn line_starts_from(b: Seq<u8>, i: int) -> Seq<int>
    decreases b.len() - i,
{
    if i < 0 || i >= b.len() {
        seq![]
    } else if b[i] == 10 && i + 1 < b.len() {
        seq![i + 1] + line_starts_from(b, i + 1)
    } else {
        line_starts_from(b, i + 1)
    }
}

/// Offsets at which lines start: 0, then after every newline that is not
/// the last byte.
pub open spec fn line_starts_spec(b: Seq<u8>) -> Seq<int> {
    seq![0int] + line_starts_from(b, 0)
}

pub open spec fn strictly_increasing(s: Seq<usize>) -> bool {
    forall|a: int, c: int| 0 <= a < c < s.len() ==> s[a] < s[c]
}

proof fn lemma_line_starts_from_bounds(b: Seq<u8>, i: int)
    requires
        0 <= i,
    ensures
        forall|k: int|
            0 <= k < line_starts_from(b, i).len() ==> i < #[trigger] line_starts_from(b, i)[k]
                < b.len(),
        forall|a: int, c: int|
            0 <= a < c < line_starts_from(b, i).len() ==> line_starts_from(b, i)[a]
                < line_starts_from(b, i)[c],
    decreases b.len() - i,
{
    if i < 0 || i >= b.len() {
    } else {
        lemma_line_starts_from_bounds(b, i + 1);
        let r = line_starts_from(b, i + 1);
        if b[i] == 10 && i + 1 < b.len() {
            let s = line_starts_from(b, i);
            assert(s == seq![i + 1] + r);
            assert forall|k: int| 0 <= k < s.len() implies i < #[trigger] s[k] < b.len() by {
                if k > 0 {
                    assert(s[k] == r[k - 1]);
                }
            }
            assert forall|a: int, c: int| 0 <= a < c < s.len() implies s[a] < s[c] by {
                assert(s[c] == r[c - 1]);
                if a > 0 {
                    assert(s[a] == r[a - 1]);
                }
            }
        }
    }
}

pub fn compute_line_starts(bytes: &[u8]) -> (r: Vec<usize>)
    ensures
        r@.map_values(|x: usize| x as int) == line_starts_spec(bytes@),
        strictly_increasing(r@),
        r@.len() >= 1 && r@[0] == 0,
        r@.len() <= bytes.len() + 1,
        forall|k: int| 0 <= k < r@.len() ==> #[trigger] r@[k] < bytes.len() || r@[k] == 0,
{
    let mut v: Vec<usize> = Vec::new();
    v.push(0);
    let mut i: usize = 0;
    proof {
        lemma_line_starts_from_bounds(bytes@, 0);
    }
    while i < bytes.len()
        invariant
            i <= bytes.len(),
            v@.len() >= 1 && v@[0] == 0,
            v@.len() <= i + 1,
            v@.map_values(|x: usize| x as int) + line_starts_from(bytes@, i as int)
                == line_starts_spec(bytes@),
            forall|k: int| 1 <= k < v@.len() ==> 0 < #[trigger] v@[k] <= i && v@[k] < bytes.len(),
            strictly_increasing(v@),
        decreases bytes.len() - i,
    {
        if bytes[i] == 10 && i + 1 < bytes.len() {
            v.push(i + 1);
            proof {
                assert(v@.map_values(|x: usize| x as int) + line_starts_from(bytes@, i + 1)
                    =~= line_starts_spec(bytes@));
            }
        }
        i = i + 1;
    }
    assert(v@.map_values(|x: usize| x as int) =~= v@.map_values(|x: usize| x as int)
        + line_starts_from(bytes@, i as int));
    v
}

/// Indentation width of the line segment `[i, end)` (tab to the next
/// multiple of 8), and where its content starts.
pub open spec fn leading_indent_spec(b: Seq<u8>, i: int, end: int, indent: int) -> (int, int)
    decreases end - i,
{
    if i < end && 0 <= i < b.len() && b[i] == 32 {
        leading_indent_spec(b, i + 1, end, indent + 1)
    } else if i < end && 0 <= i < b.len() && b[i] == 9 {
        leading_indent_spec(b, i + 1, end, indent + 8 - indent % 8)
    } else {
        (indent, i)
    }
}

pub fn leading_indent(bytes: &[u8], start: usize, end: usize) -> (r: (usize, usize))
    requires
        start <= end <= bytes.len(),
        bytes.len() <= max_py_len(),
    ensures
        r.0 as int == leading_indent_spec(bytes@, start as int, end as int, 0).0,
        r.1 as int == leading_indent_spec(bytes@, start as int, end as int, 0).1,
        start <= r.1 <= end,
        r.0 <= 8 * (r.1 - start),
{
    let mut i = start;
    let mut indent: usize = 0;
    while i < end && (bytes[i] == 32 || bytes[i] == 9)
        invariant
            start <= i <= end <= bytes.len(),
            bytes.len() <= max_py_len(),
            indent <= 8 * (i - start),
            leading_indent_spec(bytes@, i as int, end as int, indent as int)
                == leading_indent_spec(bytes@, start as int, end as int, 0),
        decreases end - i,
    {
        if bytes[i] == 32 {
            indent = indent + 1;
        } else {
            indent = indent + 8 - (indent % 8);
        }
        i = i + 1;
    }
    (indent, i)
}

/// First index at or after `i` that is not a space or tab.
pub open spec fn skip_inline_ws_spec(b: Seq<u8>, i: int) -> int
    decreases b.len() - i,
{
    if 0 <= i < b.len() && (b[i] == 32 || b[i] == 9) {
        skip_inline_ws_spec(b, i + 1)
    } else {
        i
    }
}

pub fn skip_inline_ws(bytes: &[u8], start: usize) -> (r: usize)
    requires
        start <= bytes.len(),
    ensures
        r == skip_inline_ws_spec(bytes@, start as int),
        start <= r <= bytes.len(),
{
    let mut i = start;
    while i < bytes.len() && (bytes[i] == 32 || bytes[i] == 9)
        invariant
            start <= i <= bytes.len(),
            skip_inline_ws_spec(bytes@, i as int) == skip_inline_ws_spec(bytes@, start as int),
        decreases bytes.len() - i,
    {
        i = i + 1;
    }
    i
}

/// Start of the line after the one containing `i` (or the length).
pub open spec fn skip_to_next_line_spec(b: Seq<u8>, i: int) -> int {
    let e = line_end_spec(b, i);
    if e < b.len() {
        e + 1
    } else {
        e
    }
}

pub fn skip_to_next_line(bytes: &[u8], start: usize) -> (r: usize)
    requires
        start <= bytes.len(),
        bytes.len() <= max_py_len(),
    ensures
        r == skip_to_next_line_spec(bytes@, start as int),
        start <= r <= bytes.len(),
{
    let e = line_end(bytes, start);
    if e < bytes.len() {
        e + 1
    } else {
        e
    }
}

/// Number of entries of `ls` that are at most `off`.
pub open spec fn count_le(ls: Seq<usize>, off: int) -> int
    decreases ls.len(),
{
    if ls.len() == 0 {
        0
    } else {
        count_le(ls.drop_last(), off) + (if ls.last() <= off {
            1int
        } else {
            0int
        })
    }
}

/// Index of the line containing offset `off`: the last line start that is
/// at most `off` (0 when none is).
pub open spec fn line_index_spec(ls: Seq<usize>, off: int) -> int {
    let c = count_le(ls, off);
    if c > 0 {
        c - 1
    } else {
        0
    }
}

proof fn lemma_count_le_sorted(ls: Seq<usize>, off: int, lo: int)
    requires
        strictly_increasing(ls),
        0 <= lo <= ls.len(),
        forall|k: int| 0 <= k < lo ==> ls[k] <= off,
        forall|k: int| lo <= k < ls.len() ==> ls[k] > off,
    ensures
        count_le(ls, off) == lo,
    decreases ls.len(),
{
    if ls.len() > 0 {
        if lo == ls.len() {
            lemma_count_le_sorted(ls.drop_last(), off, lo - 1);
        } else {
            lemma_count_le_sorted(ls.drop_last(), off, lo);
        }
    }
}

/// Line index of byte offset `offset` by binary search over the sorted line
/// starts.
pub fn line_index_at(line_starts: &[usize], offset: usize) -> (r: usize)
    requires
        strictly_increasing(line_starts@),
    ensures
        r == line_index_spec(line_starts@, offset as int),
        line_starts@.len() > 0 ==> r < line_starts@.len(),
{
    let mut lo: usize = 0;
    let mut hi: usize = line_starts.len();
    while lo < hi
        invariant
            0 <= lo <= hi <= line_starts@.len(),
            strictly_increasing(line_starts@),
            forall|k: int| 0 <= k < lo ==> line_starts@[k] <= offset,
            forall|k: int| hi <= k < line_starts@.len() ==> line_starts@[k] > offset,
        decreases hi - lo,
    {
        let mid = lo + (hi - lo) / 2;
        if line_starts[mid] <= offset {
            lo = mid + 1;
        } else {
            hi = mid;
        }
    }
    proof {
        lemma_count_le_sorted(line_starts@, offset as int, lo as int);
    }
    if lo > 0 {
        lo - 1
    } else {
        0
    }
}

/// 1-based line number of `offset`.
pub fn line_of(line_starts: &[usize], byte_offset: usize) -> (r: usize)
    requires
        strictly_increasing(line_starts@),
        line_starts@.len() < usize::MAX,
    ensures
        r == line_index_spec(line_starts@, byte_offset as int) + 1,
{
    line_index_at(line_starts, byte_offset) + 1
}


pub open spec fn is_str_prefix_byte(c: u8) -> bool {
    c == 114 || c == 82 || c == 98 || c == 66 || c == 102 || c == 70 || c == 117 || c == 85
}

/// End of the string-prefix run (`r`, `b`, `f`, `u` in either case) at
/// `start`, at most three bytes long.
pub open spec fn prefix_end_spec(b: Seq<u8>, start: int, i: int) -> int
    decreases b.len() - i,
{
    if 0 <= i < b.len() && i - start < 3 && is_str_prefix_byte(b[i]) {
        prefix_end_spec(b, start, i + 1)
    } else {
        i
    }
}

/// Scan of a triple-quoted string body from `j`.
pub open spec fn triple_scan_spec(b: Seq<u8>, j: int, q: u8, raw: bool) -> int
    decreases b.len() + 2 - j,
{
    if j < 0 || j + 2 >= b.len() {
        b.len() as int
    } else if b[j] == q && b[j + 1] == q && b[j + 2] == q {
        j + 3
    } else if !raw && b[j] == 92 {
        triple_scan_spec(b, j + 2, q, raw)
    } else {
        triple_scan_spec(b, j + 1, q, raw)
    }
}

/// Scan of a single-quoted string body from `j`; a newline ends it.
pub open spec fn single_scan_spec(b: Seq<u8>, j: int, q: u8, raw: bool) -> int
    decreases b.len() - j,
{
    if j < 0 || j >= b.len() {
        b.len() as int
    } else if b[j] == 10 {
        j
    } else if !raw && b[j] == 92 && j + 1 < b.len() {
        single_scan_spec(b, j + 2, q, raw)
    } else if b[j] == q {
        j + 1
    } else {
        single_scan_spec(b, j + 1, q, raw)
    }
}

/// Python string literal starting at `start` (possibly prefixed): index
/// after it, or `None` when no quote follows the prefix.
pub open spec fn py_skip_string_spec(b: Seq<u8>, start: int) -> Option<int> {
    let pe = prefix_end_spec(b, start, start);
    if pe >= b.len() || (b[pe] != 34 && b[pe] != 39) {
        None
    } else {
        let q = b[pe];
        let raw = exists|k: int| start <= k < pe && (b[k] == 114 || b[k] == 82);
        if pe + 2 < b.len() && b[pe + 1] == q && b[pe + 2] == q {
            Some(triple_scan_spec(b, pe + 3, q, raw))
        } else {
            Some(single_scan_spec(b, pe + 1, q, raw))
        }
    }
}

#[verifier::loop_isolation(false)]
pub fn skip_string(bytes: &[u8], start: usize) -> (r: Option<usize>)
    requires
        start <= bytes.len(),
        bytes.len() <= max_py_len(),
    ensures
        match r {
            Some(j) => py_skip_string_spec(bytes@, start as int) == Some(j as int) && start < j
                <= bytes.len(),
            None => py_skip_string_spec(bytes@, start as int) is None,
        },
{
    let mut pe = start;
    while pe < bytes.len() && pe - start < 3 && (bytes[pe] == 114 || bytes[pe] == 82
        || bytes[pe] == 98 || bytes[pe] == 66 || bytes[pe] == 102 || bytes[pe] == 70
        || bytes[pe] == 117 || bytes[pe] == 85)
        invariant
            start <= pe <= bytes.len(),
            pe - start <= 3,
            forall|k: int| start <= k < pe ==> is_str_prefix_byte(#[trigger] bytes@[k]),
            prefix_end_spec(bytes@, start as int, pe as int) == prefix_end_spec(
                bytes@,
                start as int,
                start as int,
            ),
        decreases bytes.len() - pe,
    {
        pe = pe + 1;
    }
    if pe >= bytes.len() {
        return None;
    }
    let q = bytes[pe];
    if q != 34 && q != 39 {
        return None;
    }
    let mut is_raw = false;
    let mut k = start;
    while k < pe
        invariant
            start <= k <= pe < bytes.len(),
            is_raw == exists|m: int| start <= m < k && (bytes@[m] == 114 || bytes@[m] == 82),
        decreases pe - k,
    {
        if bytes[k] == 114 || bytes[k] == 82 {
            is_raw = true;
        }
        k = k + 1;
    }
    let triple = pe + 2 < bytes.len() && bytes[pe + 1] == q && bytes[pe + 2] == q;
    if triple {
        let mut j = pe + 3;
        while j + 2 < bytes.len()
            invariant
                pe + 3 <= j <= bytes.len() + 1,
                bytes.len() <= max_py_len(),
                triple_scan_spec(bytes@, j as int, q, is_raw) == triple_scan_spec(
                    bytes@,
                    pe + 3,
                    q,
                    is_raw,
                ),
            decreases bytes.len() + 2 - j,
        {
            if bytes[j] == q && bytes[j + 1] == q && bytes[j + 2] == q {
                return Some(j + 3);
            }
            if !is_raw && bytes[j] == 92 {
                j = j + 2;
                continue;
            }
            j = j + 1;
        }
        Some(bytes.len())
    } else {
        let mut j = pe + 1;
        while j < bytes.len()
            invariant
                pe + 1 <= j <= bytes.len(),
                single_scan_spec(bytes@, j as int, q, is_raw) == single_scan_spec(
                    bytes@,
                    pe + 1,
                    q,
                    is_raw,
                ),
            decreases bytes.len() - j,
        {
            let c = bytes[j];
            if c == 10 {
                return Some(j);
            }
            if !is_raw && c == 92 && j + 1 < bytes.len() {
                j = j + 2;
                continue;
            }
            if c == q {
                return Some(j + 1);
            }
            j = j + 1;
        }
        Some(bytes.len())
    }
}

/// Search from `i` for the `:` ending a `def`/`class` header at bracket
/// depth zero; a bare newline at depth zero means there is none. Comments
/// at depth zero run to their line end, backslash-newline continues the
/// header, strings are skipped.
pub open spec fn signature_colon_spec(b: Seq<u8>, i: int, paren: int) -> Option<int>
    decreases b.len() + 3 - i,
{
    if i < 0 || i >= b.len() {
        None
    } else if b[i] == 35 && paren == 0 {
        let e = line_end_spec(b, i);
        if i <= e <= b.len() {
            signature_colon_spec(b, e + 1, paren)
        } else {
            None
        }
    } else if b[i] == 92 && i + 1 < b.len() && b[i + 1] == 10 {
        signature_colon_spec(b, i + 2, paren)
    } else if b[i] == 92 && i + 2 < b.len() && b[i + 1] == 13 && b[i + 2] == 10 {
        signature_colon_spec(b, i + 3, paren)
    } else if b[i] == 10 && paren == 0 {
        None
    } else if b[i] == 40 || b[i] == 91 || b[i] == 123 {
        signature_colon_spec(b, i + 1, paren + 1)
    } else if b[i] == 41 || b[i] == 93 || b[i] == 125 {
        signature_colon_spec(b, i + 1, paren - 1)
    } else if b[i] == 58 && paren == 0 {
        Some(i + 1)
    } else if b[i] == 34 || b[i] == 39 {
        match py_skip_string_spec(b, i) {
            Some(j) => if i < j <= b.len() {
                signature_colon_spec(b, j, paren)
            } else {
                None
            },
            None => None,
        }
    } else {
        signature_colon_spec(b, i + 1, paren)
    }
}

pub fn find_signature_colon(bytes: &[u8], from: usize) -> (r: Option<usize>)
    requires
        from <= bytes.len(),
        bytes.len() <= max_py_len(),
    ensures
        r == (match signature_colon_spec(bytes@, from as int, 0) {
            Some(j) => Some(j as usize),
            None => None,
        }),
        r matches Some(j) ==> from < j <= bytes.len(),
        r matches Some(j) ==> signature_colon_spec(bytes@, from as int, 0) == Some(j as int),
        r is None ==> signature_colon_spec(bytes@, from as int, 0) is None,
{
    let mut i = from;
    let mut paren: i64 = 0;
    while i < bytes.len()
        invariant
            from <= i <= bytes.len() + 3,
            bytes.len() <= max_py_len(),
            -(i as int) <= paren <= i,
            signature_colon_spec(bytes@, i as int, paren as int) == signature_colon_spec(
                bytes@,
                from as int,
                0,
            ),
        decreases bytes.len() + 3 - i,
    {
        let b = bytes[i];
        if b == 35 && paren == 0 {
            i = line_end(bytes, i);
        } else if b == 92 && i + 1 < bytes.len() && bytes[i + 1] == 10 {
            i = i + 2;
            continue;
        } else if b == 92 && i + 2 < bytes.len() && bytes[i + 1] == 13 && bytes[i + 2] == 10 {
            i = i + 3;
            continue;
        } else if b == 10 && paren == 0 {
            return None;
        } else if b == 40 || b == 91 || b == 123 {
            paren = paren + 1;
        } else if b == 41 || b == 93 || b == 125 {
            paren = paren - 1;
        } else if b == 58 && paren == 0 {
            return Some(i + 1);
        } else if b == 34 || b == 39 {
            match skip_string(bytes, i) {
                Some(j) => {
                    i = j;
                    continue;
                },
                None => {
                    return None;
                },
            }
        }
        i = i + 1;
    }
    None
}

/// Result of recognizing a `def`, `async def` or `class` header.
pub struct Parsed {
    pub name_start: usize,
    pub name_end: usize,
    pub is_def: bool,
    pub after_name: usize,
}

pub open spec fn starts_with_at(b: Seq<u8>, i: int, end: int, p: Seq<u8>) -> bool {
    i + p.len() <= end && b.subrange(i, i + p.len()) == p
}

/// Keyword length and kind of the header at `start`, if it is one.
pub open spec fn header_kw_spec(b: Seq<u8>, start: int, end: int) -> Option<(int, bool)> {
    if starts_with_at(b, start, end, seq![97u8, 115, 121, 110, 99, 32, 100, 101, 102, 32])
        || starts_with_at(b, start, end, seq![97u8, 115, 121, 110, 99, 9, 100, 101, 102, 32]) {
        Some((10, true))
    } else if starts_with_at(b, start, end, seq![100u8, 101, 102, 32]) {
        Some((4, true))
    } else if starts_with_at(b, start, end, seq![99u8, 108, 97, 115, 115, 32]) {
        Some((6, false))
    } else {
        None
    }
}

/// `(name_start, name_end, is_def)` of the header at `start`, if any.
pub open spec fn parse_def_spec(b: Seq<u8>, start: int, end: int) -> Option<(int, int, bool)> {
    match header_kw_spec(b, start, end) {
        Some((kw, is_def)) => {
            let ns = skip_inline_ws_spec(b, start + kw);
            if ns >= end || !is_ident_start_spec(b[ns]) {
                None
            } else {
                Some((ns, ident_end_spec(b, ns), is_def))
            }
        },
        None => None,
    }
}

fn starts_with_bytes(bytes: &[u8], i: usize, end: usize, p: &[u8]) -> (r: bool)
    requires
        i <= end <= bytes.len(),
        p.len() <= 16,
        bytes.len() <= max_py_len(),
    ensures
        r == starts_with_at(bytes@, i as int, end as int, p@),
{
    if i + p.len() > end {
        return false;
    }
    let mut k: usize = 0;
    while k < p.len()
        invariant
            k <= p.len(),
            i + p.len() <= end <= bytes.len(),
            forall|m: int| 0 <= m < k ==> bytes@[i + m] == p@[m],
        decreases p.len() - k,
    {
        if bytes[i + k] != p[k] {
            assert(bytes@.subrange(i as int, i + p@.len())[k as int] != p@[k as int]);
            return false;
        }
        k = k + 1;
    }
    assert(bytes@.subrange(i as int, i + p@.len()) =~= p@);
    true
}

pub fn parse_def_or_class(bytes: &[u8], start: usize, line_end: usize) -> (r: Option<Parsed>)
    requires
        start <= line_end <= bytes.len(),
        bytes.len() <= max_py_len(),
    ensures
        match r {
            Some(p) => parse_def_spec(bytes@, start as int, line_end as int) == Some(
                (p.name_start as int, p.name_end as int, p.is_def),
            ) && p.after_name == p.name_end && start < p.name_start < p.name_end <= bytes.len(),
            None => parse_def_spec(bytes@, start as int, line_end as int) is None,
        },
{
    let a1: [u8; 10] = [97, 115, 121, 110, 99, 32, 100, 101, 102, 32];
    let a2: [u8; 10] = [97, 115, 121, 110, 99, 9, 100, 101, 102, 32];
    let d: [u8; 4] = [100, 101, 102, 32];
    let c: [u8; 6] = [99, 108, 97, 115, 115, 32];
    assert(a1@ == seq![97u8, 115, 121, 110, 99, 32, 100, 101, 102, 32]);
    assert(a2@ == seq![97u8, 115, 121, 110, 99, 9, 100, 101, 102, 32]);
    assert(d@ == seq![100u8, 101, 102, 32]);
    assert(c@ == seq![99u8, 108, 97, 115, 115, 32]);
    let (kw_len, is_def): (usize, bool) = if starts_with_bytes(bytes, start, line_end, &a1)
        || starts_with_bytes(bytes, start, line_end, &a2) {
        (10, true)
    } else if starts_with_bytes(bytes, start, line_end, &d) {
        (4, true)
    } else if starts_with_bytes(bytes, start, line_end, &c) {
        (6, false)
    } else {
        return None;
    };
    let name_start = skip_inline_ws(bytes, start + kw_len);
    if name_start >= line_end || !is_ident_start(bytes[name_start]) {
        return None;
    }
    let name_end = ident_end(bytes, name_start);
    assert(ident_end_spec(bytes@, name_start as int) == ident_end_spec(bytes@, name_start + 1));
    assert(name_end > name_start) by {
        lemma_ident_end_ge2(bytes@, name_start + 1);
    }
    Some(Parsed { name_start, name_end, is_def, after_name: name_end })
}

proof fn lemma_ident_end_ge2(b: Seq<u8>, i: int)
    requires
        0 <= i <= b.len(),
    ensures
        i <= ident_end_spec(b, i) <= b.len(),
    decreases b.len() - i,
{
    if i < b.len() && crate::code::rs_lang::is_ident_char_spec(b[i]) {
        lemma_ident_end_ge2(b, i + 1);
    }
}


/// Walk of a body's lines from line `idx`: blank and comment lines extend
/// the body only once a content line was seen; the first content line not
/// indented past `def_indent` ends it. Yields `(last_content_end,
/// body_indent, end_line_index)`.
pub open spec fn body_extent_spec(
    b: Seq<u8>,
    ls: Seq<usize>,
    idx: int,
    def_indent: int,
    last: int,
    bi: Option<int>,
) -> (int, Option<int>, int)
    decreases ls.len() - idx,
{
    if idx < 0 || idx >= ls.len() {
        (last, bi, idx)
    } else {
        let l0 = ls[idx] as int;
        let le = line_end_spec(b, l0);
        let li = leading_indent_spec(b, l0, le, 0);
        if li.1 >= le || b[li.1] == 35 {
            body_extent_spec(b, ls, idx + 1, def_indent, if bi is Some { le } else { last }, bi)
        } else if li.0 <= def_indent {
            (last, bi, idx)
        } else {
            body_extent_spec(
                b,
                ls,
                idx + 1,
                def_indent,
                le,
                if bi is None { Some(li.0) } else { bi },
            )
        }
    }
}

/// `(body_end, body_indent, lines_consumed)` of the block starting at
/// `body_block_start` under a header indented by `def_indent`.
pub open spec fn find_body_extent_spec(b: Seq<u8>, ls: Seq<usize>, bbs: int, def_indent: int) -> (
    int,
    int,
    int,
) {
    let start = line_index_spec(ls, bbs);
    let r = body_extent_spec(b, ls, start, def_indent, bbs, None);
    (
        r.0,
        match r.1 {
            Some(x) => x,
            None => def_indent + 4,
        },
        if r.2 - start > 1 {
            r.2 - start
        } else {
            1
        },
    )
}

/// The line starts of `b` with their basic properties.
pub open spec fn line_starts_ok(b: Seq<u8>, ls: Seq<usize>) -> bool {
    &&& ls.len() >= 1 && ls[0] == 0
    &&& strictly_increasing(ls)
    &&& forall|k: int| 0 <= k < ls.len() ==> #[trigger] ls[k] < b.len() || ls[k] == 0
}

proof fn lemma_body_extent_bounds(
    b: Seq<u8>,
    ls: Seq<usize>,
    idx: int,
    def_indent: int,
    last: int,
    bi: Option<int>,
)
    requires
        line_starts_ok(b, ls),
        0 <= idx,
        0 <= last <= b.len(),
    ensures
        ({
            let r = body_extent_spec(b, ls, idx, def_indent, last, bi);
            &&& 0 <= r.0 <= b.len()
            &&& (r.0 == last || r.0 >= ls[idx] as int)
            &&& idx <= r.2 <= ls.len() || (idx > ls.len() && r.2 == idx)
        }),
    decreases ls.len() - idx,
{
    if idx < 0 || idx >= ls.len() {
    } else {
        let l0 = ls[idx] as int;
        lemma_line_end_ge(b, l0);
        let le = line_end_spec(b, l0);
        let li = leading_indent_spec(b, l0, le, 0);
        if li.1 >= le || b[li.1] == 35 {
            lemma_body_extent_bounds(b, ls, idx + 1, def_indent, if bi is Some { le } else { last }, bi);
            if idx + 1 < ls.len() {
                assert(ls[idx] < ls[idx + 1]);
            }
        } else if li.0 <= def_indent {
        } else {
            lemma_body_extent_bounds(b, ls, idx + 1, def_indent, le, if bi is None { Some(li.0) } else { bi });
            if idx + 1 < ls.len() {
                assert(ls[idx] < ls[idx + 1]);
            }
        }
    }
}

proof fn lemma_line_end_ge(b: Seq<u8>, i: int)
    requires
        0 <= i <= b.len(),
    ensures
        i <= line_end_spec(b, i) <= b.len(),
        line_end_spec(b, i) < b.len() ==> b[line_end_spec(b, i)] == 10,
    decreases b.len() - i,
{
    if i < b.len() && b[i] != 10 {
        lemma_line_end_ge(b, i + 1);
    }
}

pub fn find_body_extent(
    bytes: &[u8],
    line_starts: &[usize],
    body_block_start: usize,
    def_indent: usize,
) -> (r: (usize, usize, usize))
    requires
        bytes.len() <= max_py_len(),
        line_starts_ok(bytes@, line_starts@),
        body_block_start <= bytes.len(),
        def_indent <= 8 * bytes.len(),
    ensures
        r.0 as int == find_body_extent_spec(bytes@, line_starts@, body_block_start as int, def_indent as int).0,
        r.1 as int == find_body_extent_spec(bytes@, line_starts@, body_block_start as int, def_indent as int).1,
        r.2 as int == find_body_extent_spec(bytes@, line_starts@, body_block_start as int, def_indent as int).2,
        r.0 <= bytes.len(),
        r.1 <= 8 * bytes.len() + 4,
        r.2 >= 1,
        line_index_spec(line_starts@, body_block_start as int) + r.2 <= line_starts@.len() + 1,
{
    let start_line_idx = line_index_at(line_starts, body_block_start);
    let mut last_content_end = body_block_start;
    let mut body_indent_opt: Option<usize> = None;
    let mut idx = start_line_idx;
    while idx < line_starts.len()
        invariant
            start_line_idx <= idx <= line_starts@.len(),
            start_line_idx < line_starts@.len(),
            bytes.len() <= max_py_len(),
            line_starts_ok(bytes@, line_starts@),
            last_content_end <= bytes.len(),
            body_indent_opt matches Some(x) ==> x <= 8 * bytes.len(),
            body_extent_spec(
                bytes@,
                line_starts@,
                idx as int,
                def_indent as int,
                last_content_end as int,
                match body_indent_opt {
                    Some(x) => Some(x as int),
                    None => None,
                },
            ) == body_extent_spec(
                bytes@,
                line_starts@,
                start_line_idx as int,
                def_indent as int,
                body_block_start as int,
                None,
            ),
        ensures
            body_extent_spec(
                bytes@,
                line_starts@,
                idx as int,
                def_indent as int,
                last_content_end as int,
                match body_indent_opt {
                    Some(x) => Some(x as int),
                    None => None,
                },
            ) == (
                last_content_end as int,
                match body_indent_opt {
                    Some(x) => Some(x as int),
                    None => None,
                },
                idx as int,
            ),
        decreases line_starts@.len() - idx,
    {
        let ls = line_starts[idx];
        assert(ls < bytes.len() || ls == 0);
        let le = line_end(bytes, ls);
        let (indent, content_start) = leading_indent(bytes, ls, le);
        let blank_or_comment = content_start >= le || bytes[content_start] == 35;
        if blank_or_comment {
            if body_indent_opt.is_some() {
                last_content_end = le;
            }
            idx = idx + 1;
            continue;
        }
        if indent <= def_indent {
            break;
        }
        if body_indent_opt.is_none() {
            body_indent_opt = Some(indent);
        }
        last_content_end = le;
        idx = idx + 1;
    }
    let body_indent = match body_indent_opt {
        Some(x) => x,
        None => def_indent + 4,
    };
    let consumed = idx - start_line_idx;
    let lines_consumed = if consumed > 1 {
        consumed
    } else {
        1
    };
    (last_content_end, body_indent, lines_consumed)
}


/// An enclosing `def` or `class` while scanning: indentation, name bytes,
/// and whether it is a `def`.
pub struct Scope {
    pub indent: usize,
    pub name: Vec<u8>,
    pub is_def: bool,
}

pub open spec fn scope_view(s: Scope) -> (int, Seq<u8>, bool) {
    (s.indent as int, s.name@, s.is_def)
}

/// A `def` block found by the scanner.
pub struct DefLoc {
    pub name: Vec<u8>,
    pub decl_start: usize,
    pub body_start: usize,
    pub body_end: usize,
    pub body_indent: usize,
    pub line_start: usize,
    pub line_end: usize,
}

pub ghost struct DefLocView {
    pub name: Seq<u8>,
    pub decl_start: int,
    pub body_start: int,
    pub body_end: int,
    pub body_indent: int,
    pub line_start: int,
    pub line_end: int,
}

impl View for DefLoc {
    type V = DefLocView;

    open spec fn view(&self) -> DefLocView {
        DefLocView {
            name: self.name@,
            decl_start: self.decl_start as int,
            body_start: self.body_start as int,
            body_end: self.body_end as int,
            body_indent: self.body_indent as int,
            line_start: self.line_start as int,
            line_end: self.line_end as int,
        }
    }
}

/// Enclosing scopes left after leaving every scope indented at least
/// `indent`.
pub open spec fn pop_scopes(sc: Seq<(int, Seq<u8>, bool)>, indent: int) -> Seq<
    (int, Seq<u8>, bool),
>
    decreases sc.len(),
{
    if sc.len() > 0 && sc.last().0 >= indent {
        pop_scopes(sc.drop_last(), indent)
    } else {
        sc
    }
}

/// Scope names joined by `.`.
pub open spec fn join_scope_names(sc: Seq<(int, Seq<u8>, bool)>) -> Seq<u8>
    decreases sc.len(),
{
    if sc.len() == 0 {
        seq![]
    } else if sc.len() == 1 {
        sc[0].1
    } else {
        join_scope_names(sc.drop_last()) + seq![46u8] + sc.last().1
    }
}

/// `name` qualified by the enclosing scopes (`Outer.Inner.name`).
pub open spec fn qualified_name(sc: Seq<(int, Seq<u8>, bool)>, name: Seq<u8>) -> Seq<u8> {
    if sc.len() == 0 {
        name
    } else {
        join_scope_names(sc) + seq![46u8] + name
    }
}

/// The line-by-line scan of [`find_defs`]: skips blank and comment lines,
/// leaves scopes that are not enclosing, records top-level and
/// class-nested `def` blocks with a non-empty body (functions nested in a
/// function are not recorded), and resumes after a `def` block or on the
/// first line of a class body. When a class header has no line after it,
/// the scan moves on to the next line.
pub open spec fn find_defs_spec(
    b: Seq<u8>,
    ls: Seq<usize>,
    i: int,
    sc: Seq<(int, Seq<u8>, bool)>,
) -> Seq<DefLocView>
    decreases ls.len() + 1 - i,
{
    if i < 0 || i >= ls.len() {
        seq![]
    } else {
        let l0 = ls[i] as int;
        let le = line_end_spec(b, l0);
        let li = leading_indent_spec(b, l0, le, 0);
        let indent = li.0;
        let cs = li.1;
        if cs >= le || b[cs] == 35 {
            find_defs_spec(b, ls, i + 1, sc)
        } else {
            let sc1 = pop_scopes(sc, indent);
            match parse_def_spec(b, cs, le) {
                None => find_defs_spec(b, ls, i + 1, sc1),
                Some(p) => match signature_colon_spec(b, p.1, 0) {
                    None => find_defs_spec(b, ls, i + 1, sc1),
                    Some(off) => {
                        let bbs = skip_to_next_line_spec(b, off);
                        let ext = find_body_extent_spec(b, ls, bbs, indent);
                        let name = b.subrange(p.0, p.1);
                        let nested = exists|k: int| 0 <= k < sc1.len() && (#[trigger] sc1[k]).2;
                        let sc2 = sc1.push((indent, name, p.2));
                        let cand = if p.2 {
                            line_index_spec(ls, bbs) + ext.2
                        } else {
                            line_index_spec(ls, bbs)
                        };
                        let next = if i < cand <= ls.len() + 1 {
                            cand
                        } else {
                            i + 1
                        };
                        let here = if p.2 && !nested && ext.0 > bbs {
                            seq![
                                DefLocView {
                                    name: qualified_name(sc1, name),
                                    decl_start: cs,
                                    body_start: bbs,
                                    body_end: ext.0,
                                    body_indent: ext.1,
                                    line_start: i + 1,
                                    line_end: line_index_spec(ls, ext.0 - 1) + 1,
                                },
                            ]
                        } else {
                            seq![]
                        };
                        here + find_defs_spec(b, ls, next, sc2)
                    },
                },
            }
        }
    }
}

/// Line starts as machine integers.
pub open spec fn line_starts_exec_view(b: Seq<u8>) -> Seq<usize> {
    line_starts_spec(b).map_values(|x: int| x as usize)
}

proof fn lemma_line_starts_view(b: Seq<u8>, r: Seq<usize>)
    requires
        r.map_values(|x: usize| x as int) == line_starts_spec(b),
    ensures
        r == line_starts_exec_view(b),
{
    assert(r.len() == line_starts_spec(b).len());
    assert forall|k: int| 0 <= k < r.len() implies r[k] == line_starts_exec_view(b)[k] by {
        assert(r.map_values(|x: usize| x as int)[k] == r[k] as int);
    }
    assert(r =~= line_starts_exec_view(b));
}

/// `name` qualified by the names of `scopes`.
fn qualify(scopes: &Vec<Scope>, name: &Vec<u8>) -> (r: Vec<u8>)
    ensures
        r@ == qualified_name(scopes@.map_values(|s: Scope| scope_view(s)), name@),
{
    let ghost sc = scopes@.map_values(|s: Scope| scope_view(s));
    let mut out: Vec<u8> = Vec::new();
    if scopes.len() == 0 {
        let mut j: usize = 0;
        while j < name.len()
            invariant
                j <= name@.len(),
                out@ =~= name@.subrange(0, j as int),
            decreases name@.len() - j,
        {
            out.push(name[j]);
            j = j + 1;
        }
        return out;
    }
    let mut k: usize = 0;
    while k < scopes.len()
        invariant
            k <= scopes@.len(),
            sc == scopes@.map_values(|s: Scope| scope_view(s)),
            out@ == join_scope_names(sc.subrange(0, k as int)),
        decreases scopes@.len() - k,
    {
        let ghost before = out@;
        if k > 0 {
            out.push(46u8);
        }
        let nm = &scopes[k].name;
        let mut j: usize = 0;
        while j < nm.len()
            invariant
                j <= nm@.len(),
                out@ =~= (if k > 0 { before + seq![46u8] } else { before }) + nm@.subrange(0, j as int),
            decreases nm@.len() - j,
        {
            out.push(nm[j]);
            j = j + 1;
        }
        proof {
            let t = sc.subrange(0, k + 1);
            assert(t.drop_last() =~= sc.subrange(0, k as int));
            assert(t.last() == scope_view(scopes@[k as int]));
            if k == 0 {
                assert(before =~= seq![]);
            }
        }
        k = k + 1;
    }
    assert(sc.subrange(0, scopes@.len() as int) =~= sc);
    out.push(46u8);
    let mut j: usize = 0;
    let ghost joined = out@;
    while j < name.len()
        invariant
            j <= name@.len(),
            out@ =~= joined + name@.subrange(0, j as int),
        decreases name@.len() - j,
    {
        out.push(name[j]);
        j = j + 1;
    }
    out
}

/// A recorded block lies inside the source: its header starts before its
/// body, which is not empty.
pub open spec fn def_loc_wf(b: Seq<u8>, d: DefLoc) -> bool {
    d.decl_start < d.body_start < d.body_end <= b.len()
}

/// Every `def` block of the source, in order, with qualified names.
pub fn find_defs(bytes: &[u8]) -> (r: Vec<DefLoc>)
    requires
        bytes.len() <= max_py_len(),
    ensures
        r@.map_values(|d: DefLoc| d@) == find_defs_spec(
            bytes@,
            line_starts_exec_view(bytes@),
            0,
            seq![],
        ),
        forall|k: int| 0 <= k < r@.len() ==> def_loc_wf(bytes@, #[trigger] r@[k]),
{
    let line_starts = compute_line_starts(bytes);
    proof {
        lemma_line_starts_view(bytes@, line_starts@);
    }
    let mut result: Vec<DefLoc> = Vec::new();
    let mut scopes: Vec<Scope> = Vec::new();
    let mut i: usize = 0;
    assert(result@.map_values(|d: DefLoc| d@) =~= seq![]);
    assert(scopes@.map_values(|s: Scope| scope_view(s)) =~= seq![]);
    while i < line_starts.len()
        invariant
            i <= line_starts@.len() + 1,
            line_starts@.len() <= bytes.len() + 1,
            bytes.len() <= max_py_len(),
            line_starts_ok(bytes@, line_starts@),
            line_starts@ == line_starts_exec_view(bytes@),
            forall|k: int| 0 <= k < scopes@.len() ==> (#[trigger] scopes@[k]).indent <= 8 * bytes.len(),
            forall|k: int| 0 <= k < result@.len() ==> def_loc_wf(bytes@, #[trigger] result@[k]),
            result@.map_values(|d: DefLoc| d@) + find_defs_spec(
                bytes@,
                line_starts@,
                i as int,
                scopes@.map_values(|s: Scope| scope_view(s)),
            ) == find_defs_spec(bytes@, line_starts@, 0, seq![]),
        decreases line_starts@.len() + 1 - i,
    {
        let ghost sc0 = scopes@.map_values(|s: Scope| scope_view(s));
        let ls = line_starts[i];
        assert(ls < bytes.len() || ls == 0);
        let le = line_end(bytes, ls);
        let (indent, content_start) = leading_indent(bytes, ls, le);
        if content_start >= le || bytes[content_start] == 35 {
            assert(find_defs_spec(bytes@, line_starts@, i as int, sc0) == find_defs_spec(
                bytes@,
                line_starts@,
                i + 1,
                sc0,
            ));
            i = i + 1;
            continue;
        }
        while scopes.len() > 0 && scopes[scopes.len() - 1].indent >= indent
            invariant
                pop_scopes(scopes@.map_values(|s: Scope| scope_view(s)), indent as int)
                    == pop_scopes(sc0, indent as int),
                forall|k: int| 0 <= k < scopes@.len() ==> (#[trigger] scopes@[k]).indent <= 8 * bytes.len(),
            decreases scopes@.len(),
        {
            let ghost before = scopes@.map_values(|s: Scope| scope_view(s));
            scopes.pop();
            proof {
                assert(scopes@.map_values(|s: Scope| scope_view(s)) =~= before.drop_last());
            }
        }
        let ghost sc1 = scopes@.map_values(|s: Scope| scope_view(s));
        assert(sc1 == pop_scopes(sc0, indent as int));
        match parse_def_or_class(bytes, content_start, le) {
            None => {
                assert(find_defs_spec(bytes@, line_starts@, i as int, sc0) == find_defs_spec(
                    bytes@,
                    line_starts@,
                    i + 1,
                    sc1,
                ));
                i = i + 1;
                continue;
            },
            Some(parsed) => {
                match find_signature_colon(bytes, parsed.after_name) {
                    None => {
                        assert(find_defs_spec(bytes@, line_starts@, i as int, sc0)
                            == find_defs_spec(bytes@, line_starts@, i + 1, sc1));
                        i = i + 1;
                        continue;
                    },
                    Some(off) => {
                        let bbs = skip_to_next_line(bytes, off);
                        let (body_end, body_indent, lines_consumed) = find_body_extent(
                            bytes,
                            line_starts.as_slice(),
                            bbs,
                            indent,
                        );
                        let name = byte_range(bytes, parsed.name_start, parsed.name_end);
                        let mut nested = false;
                        let mut k: usize = 0;
                        while k < scopes.len()
                            invariant
                                k <= scopes@.len(),
                                nested == exists|m: int| 0 <= m < k && (#[trigger] scopes@[m]).is_def,
                            decreases scopes@.len() - k,
                        {
                            if scopes[k].is_def {
                                nested = true;
                            }
                            k = k + 1;
                        }
                        assert(nested == exists|m: int| 0 <= m < sc1.len() && (#[trigger] sc1[m]).2) by {
                            if nested {
                                let m = choose|m: int| 0 <= m < scopes@.len() && (#[trigger] scopes@[m]).is_def;
                                assert(sc1[m].2);
                            }
                            if exists|m: int| 0 <= m < sc1.len() && (#[trigger] sc1[m]).2 {
                                let m = choose|m: int| 0 <= m < sc1.len() && (#[trigger] sc1[m]).2;
                                assert(scopes@[m].is_def);
                            }
                        }
                        let lis = line_index_at(line_starts.as_slice(), bbs);
                        let cand = if parsed.is_def {
                            lis + lines_consumed
                        } else {
                            lis
                        };
                        let next = if i < cand && cand <= line_starts.len() + 1 {
                            cand
                        } else {
                            i + 1
                        };
                        let ghost emitted: Seq<DefLocView> = seq![];
                        let ghost rv0 = result@.map_values(|d: DefLoc| d@);
                        if parsed.is_def && !nested && body_end > bbs {
                            let qname = qualify(&scopes, &name);
                            let le2 = line_of(line_starts.as_slice(), body_end - 1);
                            let d = DefLoc {
                                name: qname,
                                decl_start: content_start,
                                body_start: bbs,
                                body_end,
                                body_indent,
                                line_start: i + 1,
                                line_end: le2,
                            };
                            proof {
                                emitted = seq![d@];
                            }
                            result.push(d);
                        }
                        proof {
                            assert(result@.map_values(|d: DefLoc| d@) =~= rv0 + emitted);
                        }
                        scopes.push(Scope { indent, name, is_def: parsed.is_def });
                        proof {
                            assert(scopes@.map_values(|s: Scope| scope_view(s)) =~= sc1.push(
                                (indent as int, name@, parsed.is_def),
                            ));
                            let ext = find_body_extent_spec(bytes@, line_starts@, bbs as int, indent as int);
                            assert(line_starts@[i as int] == ls);
                            assert(leading_indent_spec(bytes@, ls as int, le as int, 0) == (indent as int, content_start as int));
                            assert(parse_def_spec(bytes@, content_start as int, le as int) == Some((parsed.name_start as int, parsed.name_end as int, parsed.is_def)));
                            assert(signature_colon_spec(bytes@, parsed.name_end as int, 0) == Some(off as int));
                            assert(skip_to_next_line_spec(bytes@, off as int) == bbs as int);
                            assert(line_index_spec(line_starts@, bbs as int) == lis as int);
                            assert(ext.0 == body_end as int && ext.1 == body_indent as int && ext.2
                                == lines_consumed as int);
                            assert(find_defs_spec(bytes@, line_starts@, i as int, sc0) == emitted
                                + find_defs_spec(
                                bytes@,
                                line_starts@,
                                next as int,
                                sc1.push((indent as int, name@, parsed.is_def)),
                            ));
                        }
                        i = next;
                    },
                }
            },
        }
    }
    assert(result@.map_values(|d: DefLoc| d@) =~= result@.map_values(|d: DefLoc| d@)
        + find_defs_spec(
        bytes@,
        line_starts@,
        i as int,
        scopes@.map_values(|s: Scope| scope_view(s)),
    ));
    result
}

/// Metadata of one recorded block: qualified name, header text trimmed
/// (from the keyword up to the body's first line), body text with edges
/// stripped, and the 1-based lines of the header and of the body's last
/// content line.
pub open spec fn py_meta_spec(b: Seq<u8>, d: DefLocView) -> FnMetaView {
    FnMetaView {
        name: ascii_text(d.name),
        signature: trim(utf8_lossy(b.subrange(d.decl_start, d.body_start))),
        raw: strip_body_edges_spec(utf8_lossy(b.subrange(d.body_start, d.body_end))),
        line_start: d.line_start,
        line_end: d.line_end,
    }
}

/// Splits Python source into one [`FnMeta`] per recorded `def` block.
pub fn split_py(source: &str) -> (r: Vec<FnMeta>)
    requires
        source.spec_bytes().len() <= max_py_len(),
    ensures
        r@.len() == find_defs_spec(
            source.spec_bytes(),
            line_starts_exec_view(source.spec_bytes()),
            0,
            seq![],
        ).len(),
        forall|k: int|
            0 <= k < r@.len() ==> (#[trigger] r@[k])@ == py_meta_spec(
                source.spec_bytes(),
                find_defs_spec(
                    source.spec_bytes(),
                    line_starts_exec_view(source.spec_bytes()),
                    0,
                    seq![],
                )[k],
            ),
{
    let bytes = source.as_bytes();
    let defs = find_defs(bytes);
    let ghost dv = defs@.map_values(|d: DefLoc| d@);
    let mut metas: Vec<FnMeta> = Vec::new();
    let mut k: usize = 0;
    while k < defs.len()
        invariant
            k <= defs@.len(),
            bytes@ == source.spec_bytes(),
            dv == defs@.map_values(|d: DefLoc| d@),
            forall|j: int| 0 <= j < defs@.len() ==> def_loc_wf(bytes@, #[trigger] defs@[j]),
            metas@.len() == k,
            forall|j: int| 0 <= j < k ==> (#[trigger] metas@[j])@ == py_meta_spec(bytes@, dv[j]),
        decreases defs@.len() - k,
    {
        let d = &defs[k];
        assert(def_loc_wf(bytes@, defs@[k as int]));
        let name = ascii_string(d.name.as_slice(), 0, d.name.len());
        assert(d.name@.subrange(0, d.name@.len() as int) =~= d.name@);
        let raw_bytes = byte_range(bytes, d.body_start, d.body_end);
        let raw_text = from_utf8_lossy(raw_bytes.as_slice());
        let raw = strip_body_edges(raw_text.as_str());
        let sig_bytes = byte_range(bytes, d.decl_start, d.body_start);
        let sig_text = from_utf8_lossy(sig_bytes.as_slice());
        let signature = trim_str(sig_text.as_str());
        let m = FnMeta { name, signature, raw, line_start: d.line_start, line_end: d.line_end };
        metas.push(m);
        proof {
            assert(dv[k as int] == defs@[k as int]@);
            assert(metas@[k as int]@ == py_meta_spec(bytes@, dv[k as int]));
        }
        k = k + 1;
    }
    metas
}

} // verus!
