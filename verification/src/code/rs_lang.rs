//! Byte-level Rust source scanner: finds `fn` items and the byte ranges of
//! their bodies, skipping comments, string literals, raw strings and char
//! literals. Each scanning routine is specified by the recursive function
//! that describes its walk over the bytes.

use vstd::prelude::*;
use vstd::string::StringSliceAdditionalSpecFns;
use crate::code::splitter::{FnMeta, FnMetaView, strip_body_edges, strip_body_edges_spec};
use crate::text::{byte_range, collapse_ws, collapse_ws_str, from_utf8_lossy, utf8_lossy};

verus! {

pub open spec fn is_ident_char_spec(b: u8) -> bool {
    (48 <= b && b <= 57) || (65 <= b && b <= 90) || (97 <= b && b <= 122) || b == 95
}

pub open spec fn is_ident_start_spec(b: u8) -> bool {
    (65 <= b && b <= 90) || (97 <= b && b <= 122) || b == 95
}

/// ASCII alphanumeric or `_`.
pub fn is_ident_char(b: u8) -> (r: bool)
    ensures
        r == is_ident_char_spec(b),
{
    (48 <= b && b <= 57) || (65 <= b && b <= 90) || (97 <= b && b <= 122) || b == 95
}

/// ASCII alphabetic or `_`.
pub fn is_ident_start(b: u8) -> (r: bool)
    ensures
        r == is_ident_start_spec(b),
{
    (65 <= b && b <= 90) || (97 <= b && b <= 122) || b == 95
}

/// End of the identifier run starting at `i`.
pub open spec fn ident_end_spec(b: Seq<u8>, i: int) -> int
    decreases b.len() - i,
{
    if 0 <= i < b.len() && is_ident_char_spec(b[i]) {
        ident_end_spec(b, i + 1)
    } else {
        i
    }
}

/// First index at or after `i` that is not a space, tab, newline or return.
pub open spec fn skip_ws_spec(b: Seq<u8>, i: int) -> int
    decreases b.len() - i,
{
    if 0 <= i < b.len() && (b[i] == 32 || b[i] == 9 || b[i] == 10 || b[i] == 13) {
        skip_ws_spec(b, i + 1)
    } else {
        i
    }
}

/// First index at or after `i` holding a newline, or the length.
pub open spec fn line_end_spec(b: Seq<u8>, i: int) -> int
    decreases b.len() - i,
{
    if 0 <= i < b.len() && b[i] != 10 {
        line_end_spec(b, i + 1)
    } else {
        i
    }
}

/// Scan of a block comment body from `i`: stops at the `*` of the first
/// `*/`, or where fewer than two bytes remain.
pub open spec fn block_scan_spec(b: Seq<u8>, i: int) -> int
    decreases b.len() - i,
{
    if 0 <= i && i + 1 < b.len() && !(b[i] == 42 && b[i + 1] == 47) {
        block_scan_spec(b, i + 1)
    } else {
        i
    }
}

/// Position just after a `"`-string whose contents start at `i`; a
/// backslash skips the following byte.
pub open spec fn skip_string_spec(b: Seq<u8>, i: int) -> int
    decreases b.len() + 2 - i,
{
    if i < 0 || i >= b.len() {
        i
    } else if b[i] == 92 {
        skip_string_spec(b, i + 2)
    } else if b[i] == 34 {
        i + 1
    } else {
        skip_string_spec(b, i + 1)
    }
}

/// End of the run of `#` bytes starting at `i`.
pub open spec fn hash_run_end(b: Seq<u8>, i: int) -> int
    decreases b.len() - i,
{
    if 0 <= i < b.len() && b[i] == 35 {
        hash_run_end(b, i + 1)
    } else {
        i
    }
}

/// Scan for the closing `"` followed by at least `hashes` `#` bytes.
pub open spec fn raw_close_spec(b: Seq<u8>, i: int, hashes: int) -> int
    decreases b.len() - i,
{
    if i < 0 || i >= b.len() {
        i
    } else if b[i] == 34 && hash_run_end(b, i + 1) - (i + 1) >= hashes {
        hash_run_end(b, i + 1)
    } else {
        raw_close_spec(b, i + 1, hashes)
    }
}

/// Raw string `r#*"..."#*` starting at `start` (the `r`): position after its
/// end, or `None` when no `"` follows the hashes.
pub open spec fn skip_raw_string_spec(b: Seq<u8>, start: int) -> Option<int> {
    let h0 = start + 1;
    let q = hash_run_end(b, h0);
    if q >= b.len() || b[q] != 34 {
        None
    } else {
        Some(raw_close_spec(b, q + 1, q - h0))
    }
}

pub fn ident_end(bytes: &[u8], start: usize) -> (r: usize)
    requires
        start <= bytes.len(),
    ensures
        r == ident_end_spec(bytes@, start as int),
        start <= r <= bytes.len(),
{
    let mut i = start;
    while i < bytes.len() && is_ident_char(bytes[i])
        invariant
            start <= i <= bytes.len(),
            ident_end_spec(bytes@, i as int) == ident_end_spec(bytes@, start as int),
        decreases bytes.len() - i,
    {
        i = i + 1;
    }
    i
}

pub fn skip_ws(bytes: &[u8], start: usize) -> (r: usize)
    requires
        start <= bytes.len(),
    ensures
        r == skip_ws_spec(bytes@, start as int),
        start <= r <= bytes.len(),
{
    let mut i = start;
    while i < bytes.len() && (bytes[i] == 32 || bytes[i] == 9 || bytes[i] == 10 || bytes[i] == 13)
        invariant
            start <= i <= bytes.len(),
            skip_ws_spec(bytes@, i as int) == skip_ws_spec(bytes@, start as int),
        decreases bytes.len() - i,
    {
        i = i + 1;
    }
    i
}

pub fn line_end(bytes: &[u8], start: usize) -> (r: usize)
    requires
        start <= bytes.len(),
    ensures
        r == line_end_spec(bytes@, start as int),
        start <= r <= bytes.len(),
{
    let mut i = start;
    while i < bytes.len() && bytes[i] != 10
        invariant
            start <= i <= bytes.len(),
            line_end_spec(bytes@, i as int) == line_end_spec(bytes@, start as int),
        decreases bytes.len() - i,
    {
        i = i + 1;
    }
    i
}

pub fn block_scan(bytes: &[u8], start: usize) -> (r: usize)
    requires
        start <= bytes.len() + 1,
        bytes.len() < usize::MAX - 2,
    ensures
        r == block_scan_spec(bytes@, start as int),
        start <= r,
        r <= start || r + 1 < bytes.len() || r + 1 == bytes.len(),
{
    let mut i = start;
    while i + 1 < bytes.len() && !(bytes[i] == 42 && bytes[i + 1] == 47)
        invariant
            start <= i <= bytes.len() + 1,
            i == start || i + 1 <= bytes.len(),
            bytes.len() < usize::MAX - 2,
            block_scan_spec(bytes@, i as int) == block_scan_spec(bytes@, start as int),
        decreases bytes.len() + 1 - i,
    {
        i = i + 1;
    }
    i
}

/// Skips a `"`-string whose contents start at `start`; returns the index
/// after the closing quote (may exceed the length by one after a trailing
/// backslash).
pub fn skip_string(bytes: &[u8], start: usize) -> (r: usize)
    requires
        start <= bytes.len() + 1,
        bytes.len() < usize::MAX - 2,
    ensures
        r == skip_string_spec(bytes@, start as int),
        start <= r <= bytes.len() + 2,
{
    let mut i = start;
    while i < bytes.len()
        invariant
            start <= i <= bytes.len() + 2,
            bytes.len() < usize::MAX - 2,
            skip_string_spec(bytes@, i as int) == skip_string_spec(bytes@, start as int),
        decreases bytes.len() + 2 - i,
    {
        if bytes[i] == 92 {
            i = i + 2;
            continue;
        }
        if bytes[i] == 34 {
            return i + 1;
        }
        i = i + 1;
    }
    i
}

pub fn hash_end(bytes: &[u8], start: usize) -> (r: usize)
    requires
        start <= bytes.len(),
    ensures
        r == hash_run_end(bytes@, start as int),
        start <= r <= bytes.len(),
{
    let mut i = start;
    while i < bytes.len() && bytes[i] == 35
        invariant
            start <= i <= bytes.len(),
            hash_run_end(bytes@, i as int) == hash_run_end(bytes@, start as int),
        decreases bytes.len() - i,
    {
        i = i + 1;
    }
    i
}

/// Skips a raw string literal whose `r` is at `start`.
pub fn skip_raw_string(bytes: &[u8], start: usize) -> (r: Option<usize>)
    requires
        start < bytes.len(),
    ensures
        match r {
            Some(j) => skip_raw_string_spec(bytes@, start as int) == Some(j as int) && start + 2
                <= j <= bytes.len(),
            None => skip_raw_string_spec(bytes@, start as int) is None,
        },
{
    let h0 = start + 1;
    let q = hash_end(bytes, h0);
    if q >= bytes.len() || bytes[q] != 34 {
        return None;
    }
    let hashes = q - h0;
    let mut i = q + 1;
    while i < bytes.len()
        invariant
            q + 1 <= i <= bytes.len(),
            q < bytes.len(),
            bytes@[q as int] == 34,
            h0 == start + 1,
            q == hash_run_end(bytes@, h0 as int),
            h0 <= q,
            hashes == q - h0,
            raw_close_spec(bytes@, i as int, hashes as int) == raw_close_spec(
                bytes@,
                q + 1,
                hashes as int,
            ),
        decreases bytes.len() - i,
    {
        if bytes[i] == 34 {
            let j = hash_end(bytes, i + 1);
            if j - (i + 1) >= hashes {
                assert(raw_close_spec(bytes@, i as int, hashes as int) == j as int);
                assert(skip_raw_string_spec(bytes@, start as int) == Some(raw_close_spec(
                    bytes@,
                    q + 1,
                    hashes as int,
                )));
                return Some(j);
            }
        }
        i = i + 1;
    }
    Some(i)
}


/// Search from `i` for the `{` that opens a function body, tracking `(`/`)`
/// nesting and `<`/`>` nesting outside parentheses; a `;` at depth zero
/// means the item has no body.
pub open spec fn open_brace_spec(b: Seq<u8>, i: int, paren: int, angle: int) -> Option<int>
    decreases b.len() + 4 - i,
{
    if i < 0 || i >= b.len() {
        None
    } else if b[i] == 47 && i + 1 < b.len() && b[i + 1] == 47 {
        let e = line_end_spec(b, i);
        if i <= e <= b.len() {
            open_brace_spec(b, e + 1, paren, angle)
        } else {
            None
        }
    } else if b[i] == 47 && i + 1 < b.len() && b[i + 1] == 42 {
        let k = block_scan_spec(b, i + 2) + 2;
        if i < k <= b.len() + 4 {
            open_brace_spec(b, k, paren, angle)
        } else {
            None
        }
    } else if b[i] == 40 {
        open_brace_spec(b, i + 1, paren + 1, angle)
    } else if b[i] == 41 {
        open_brace_spec(b, i + 1, paren - 1, angle)
    } else if b[i] == 60 && paren == 0 {
        open_brace_spec(b, i + 1, paren, angle + 1)
    } else if b[i] == 62 && paren == 0 && angle > 0 {
        open_brace_spec(b, i + 1, paren, angle - 1)
    } else if b[i] == 59 && paren == 0 && angle == 0 {
        None
    } else if b[i] == 123 && paren == 0 && angle == 0 {
        Some(i)
    } else {
        open_brace_spec(b, i + 1, paren, angle)
    }
}

/// Search from `i` for the `}` that brings the brace depth from `depth` to
/// zero, skipping comments, strings, raw strings and char literals.
pub open spec fn close_brace_spec(b: Seq<u8>, i: int, depth: int) -> Option<int>
    decreases b.len() + 4 - i,
{
    if i < 0 || i >= b.len() {
        None
    } else if b[i] == 47 && i + 1 < b.len() && b[i + 1] == 47 {
        let e = line_end_spec(b, i);
        if i < e <= b.len() {
            close_brace_spec(b, e, depth)
        } else {
            None
        }
    } else if b[i] == 47 && i + 1 < b.len() && b[i + 1] == 42 {
        let k = block_scan_spec(b, i + 2) + 2;
        if i < k <= b.len() + 4 {
            close_brace_spec(b, k, depth)
        } else {
            None
        }
    } else if b[i] == 34 {
        let k = skip_string_spec(b, i + 1);
        if i < k <= b.len() + 4 {
            close_brace_spec(b, k, depth)
        } else {
            None
        }
    } else if b[i] == 114 && i + 1 < b.len() && (b[i + 1] == 35 || b[i + 1] == 34)
        && skip_raw_string_spec(b, i) is Some {
        let k = skip_raw_string_spec(b, i)->0;
        if i < k <= b.len() + 4 {
            close_brace_spec(b, k, depth)
        } else {
            None
        }
    } else if b[i] == 39 && i + 2 < b.len() && b[i + 1] == 92 {
        if i + 3 < b.len() && b[i + 3] == 39 {
            close_brace_spec(b, i + 4, depth)
        } else {
            close_brace_spec(b, i + 3, depth)
        }
    } else if b[i] == 39 && i + 2 < b.len() && b[i + 2] == 39 {
        close_brace_spec(b, i + 3, depth)
    } else if b[i] == 123 {
        close_brace_spec(b, i + 1, depth + 1)
    } else if b[i] == 125 {
        if depth - 1 == 0 {
            Some(i)
        } else {
            close_brace_spec(b, i + 1, depth - 1)
        }
    } else {
        close_brace_spec(b, i + 1, depth)
    }
}

/// Largest source the scanner is given: no Rust allocation, so no `&str`,
/// holds more than `isize::MAX` bytes.
pub open spec fn max_source_len() -> int {
    isize::MAX as int
}

/// Finds the body-opening `{` after a function's name.
pub fn find_open_brace(bytes: &[u8], from: usize) -> (r: Option<usize>)
    requires
        from <= bytes.len() + 4,
        bytes.len() <= max_source_len(),
    ensures
        r == (match open_brace_spec(bytes@, from as int, 0, 0) {
            Some(k) => Some(k as usize),
            None => None,
        }),
        r matches Some(k) ==> from <= k < bytes.len() && bytes@[k as int] == 123,
{
    let mut i = from;
    let mut paren: i64 = 0;
    let mut angle: i64 = 0;
    while i < bytes.len()
        invariant
            from <= i <= bytes.len() + 4,
            bytes.len() <= max_source_len(),
            -(i as int) <= paren <= i,
            0 <= angle <= i,
            open_brace_spec(bytes@, i as int, paren as int, angle as int) == open_brace_spec(
                bytes@,
                from as int,
                0,
                0,
            ),
        decreases bytes.len() + 4 - i,
    {
        let c = bytes[i];
        if c == 47 && i + 1 < bytes.len() && bytes[i + 1] == 47 {
            i = line_end(bytes, i);
        } else if c == 47 && i + 1 < bytes.len() && bytes[i + 1] == 42 {
            i = block_scan(bytes, i + 2) + 2;
            continue;
        } else if c == 40 {
            paren = paren + 1;
        } else if c == 41 {
            paren = paren - 1;
        } else if c == 60 && paren == 0 {
            angle = angle + 1;
        } else if c == 62 && paren == 0 && angle > 0 {
            angle = angle - 1;
        } else if c == 59 && paren == 0 && angle == 0 {
            return None;
        } else if c == 123 && paren == 0 && angle == 0 {
            return Some(i);
        }
        i = i + 1;
    }
    None
}

/// Finds the `}` matching the `{` at `open`.
pub fn find_close_brace(bytes: &[u8], open: usize) -> (r: Option<usize>)
    requires
        open < bytes.len(),
        bytes.len() <= max_source_len(),
    ensures
        r == (match close_brace_spec(bytes@, open + 1, 1) {
            Some(k) => Some(k as usize),
            None => None,
        }),
        r matches Some(k) ==> open < k < bytes.len() && bytes@[k as int] == 125,
{
    let mut depth: i64 = 1;
    let mut i = open + 1;
    while i < bytes.len()
        invariant
            open + 1 <= i <= bytes.len() + 4,
            bytes.len() <= max_source_len(),
            1 <= depth <= i - open,
            close_brace_spec(bytes@, i as int, depth as int) == close_brace_spec(
                bytes@,
                open + 1,
                1,
            ),
        decreases bytes.len() + 4 - i,
    {
        let c = bytes[i];
        if c == 47 && i + 1 < bytes.len() && bytes[i + 1] == 47 {
            assert(line_end_spec(bytes@, i as int) == line_end_spec(bytes@, i + 1));
            i = line_end(bytes, i + 1);
            continue;
        } else if c == 47 && i + 1 < bytes.len() && bytes[i + 1] == 42 {
            i = block_scan(bytes, i + 2) + 2;
            continue;
        } else if c == 34 {
            i = skip_string(bytes, i + 1);
            continue;
        } else if c == 114 && i + 1 < bytes.len() && (bytes[i + 1] == 35 || bytes[i + 1] == 34) {
            match skip_raw_string(bytes, i) {
                Some(j) => {
                    i = j;
                    continue;
                },
                None => {},
            }
        } else if c == 39 && i + 2 < bytes.len() && bytes[i + 1] == 92 {
            i = i + 3;
            if i < bytes.len() && bytes[i] == 39 {
                i = i + 1;
            }
            continue;
        } else if c == 39 && i + 2 < bytes.len() && bytes[i + 2] == 39 {
            i = i + 3;
            continue;
        } else if c == 123 {
            depth = depth + 1;
        } else if c == 125 {
            depth = depth - 1;
            if depth == 0 {
                return Some(i);
            }
        }
        i = i + 1;
    }
    None
}


/// Byte offsets of one `fn` item: its name, the `fn` keyword, and the body
/// between the braces (`body_start` is just after `{`, `body_end` and
/// `body_close` are the `}`).
#[derive(Clone, Copy)]
pub struct FnLoc {
    pub name_start: usize,
    pub name_end: usize,
    pub decl_start: usize,
    pub body_start: usize,
    pub body_end: usize,
    pub body_close: usize,
}

/// The `fn` item starting at `i`, if any: `(name_start, name_end, open,
/// close)`. The keyword must be delimited on both sides, be followed by an
/// identifier, a body-opening `{` and its matching `}`.
pub open spec fn fn_match_spec(b: Seq<u8>, i: int) -> Option<(int, int, int, int)> {
    if 0 <= i && i + 2 <= b.len() && b[i] == 102 && b[i + 1] == 110 && (i == 0
        || !is_ident_char_spec(b[i - 1])) && (i + 2 >= b.len() || !is_ident_char_spec(b[i + 2])) {
        let ns = skip_ws_spec(b, i + 2);
        if ns < b.len() && is_ident_start_spec(b[ns]) {
            let ne = ident_end_spec(b, ns);
            match open_brace_spec(b, ne, 0, 0) {
                Some(o) => match close_brace_spec(b, o + 1, 1) {
                    Some(c) => Some((ns, ne, o, c)),
                    None => None,
                },
                None => None,
            }
        } else {
            None
        }
    } else {
        None
    }
}

/// All `fn` items found scanning from `i`, in source order.
pub open spec fn find_fns_spec(b: Seq<u8>, i: int) -> Seq<FnLoc>
    decreases b.len() + 4 - i,
{
    if i < 0 || i >= b.len() {
        seq![]
    } else if i + 1 < b.len() && b[i] == 47 && b[i + 1] == 47 {
        let e = line_end_spec(b, i);
        if i < e <= b.len() {
            find_fns_spec(b, e)
        } else {
            seq![]
        }
    } else if i + 1 < b.len() && b[i] == 47 && b[i + 1] == 42 {
        let k = block_scan_spec(b, i + 2) + 2;
        if i < k <= b.len() + 4 {
            find_fns_spec(b, k)
        } else {
            seq![]
        }
    } else if b[i] == 34 {
        let k = skip_string_spec(b, i + 1);
        if i < k <= b.len() + 4 {
            find_fns_spec(b, k)
        } else {
            seq![]
        }
    } else if b[i] == 114 && i + 1 < b.len() && (b[i + 1] == 35 || b[i + 1] == 34)
        && skip_raw_string_spec(b, i) is Some {
        let k = skip_raw_string_spec(b, i)->0;
        if i < k <= b.len() + 4 {
            find_fns_spec(b, k)
        } else {
            seq![]
        }
    } else if fn_match_spec(b, i) is Some {
        let m = fn_match_spec(b, i)->0;
        if i <= m.3 < b.len() {
            seq![
                FnLoc {
                    name_start: m.0 as usize,
                    name_end: m.1 as usize,
                    decl_start: i as usize,
                    body_start: (m.2 + 1) as usize,
                    body_end: m.3 as usize,
                    body_close: m.3 as usize,
                },
            ] + find_fns_spec(b, m.3 + 1)
        } else {
            seq![]
        }
    } else {
        find_fns_spec(b, i + 1)
    }
}

/// Well-formedness of a location: ordered offsets inside the source, `fn`
/// at `decl_start`, braces around the body.
pub open spec fn fn_loc_wf(b: Seq<u8>, l: FnLoc) -> bool {
    &&& l.decl_start + 2 <= l.name_start < l.name_end <= l.body_start - 1
    &&& l.body_start <= l.body_end == l.body_close < b.len()
    &&& b[l.decl_start as int] == 102 && b[l.decl_start + 1] == 110
    &&& b[l.body_start - 1] == 123 && b[l.body_end as int] == 125
}

proof fn lemma_ident_end_ge(b: Seq<u8>, i: int)
    requires
        0 <= i <= b.len(),
    ensures
        i <= ident_end_spec(b, i) <= b.len(),
        forall|k: int| i <= k < ident_end_spec(b, i) ==> is_ident_char_spec(#[trigger] b[k]),
    decreases b.len() - i,
{
    if i < b.len() && is_ident_char_spec(b[i]) {
        lemma_ident_end_ge(b, i + 1);
    }
}

/// The `fn` item at `i`, if any.
fn fn_match(bytes: &[u8], i: usize) -> (r: Option<(usize, usize, usize, usize)>)
    requires
        i < bytes.len(),
        bytes.len() <= max_source_len(),
    ensures
        r == (match fn_match_spec(bytes@, i as int) {
            Some(m) => Some((m.0 as usize, m.1 as usize, m.2 as usize, m.3 as usize)),
            None => None,
        }),
        r matches Some(m) ==> i + 2 <= m.0 < m.1 <= m.2 < m.3 < bytes.len() && bytes@[m.2 as int]
            == 123 && bytes@[m.3 as int] == 125,
{
    if i + 2 <= bytes.len() && bytes[i] == 102 && bytes[i + 1] == 110 {
        let pre_ok = i == 0 || !is_ident_char(bytes[i - 1]);
        let post_ok = i + 2 >= bytes.len() || !is_ident_char(bytes[i + 2]);
        if pre_ok && post_ok {
            let ns = skip_ws(bytes, i + 2);
            if ns < bytes.len() && is_ident_start(bytes[ns]) {
                let ne = ident_end(bytes, ns);
                proof {
                    lemma_ident_end_ge(bytes@, ns as int);
                    assert(ident_end_spec(bytes@, ns as int) == ident_end_spec(bytes@, ns + 1));
                    lemma_open_brace(bytes@, ne as int, 0, 0);
                }
                match find_open_brace(bytes, ne) {
                    Some(o) => match find_close_brace(bytes, o) {
                        Some(c) => {
                            proof {
                                lemma_close_brace(bytes@, o + 1, 1);
                                assert(fn_match_spec(bytes@, i as int) == Some(
                                    (ns as int, ne as int, o as int, c as int),
                                ));
                                lemma_fn_match_wf(bytes@, i as int);
                            }
                            return Some((ns, ne, o, c));
                        },
                        None => {
                            return None;
                        },
                    },
                    None => {
                        return None;
                    },
                }
            }
        }
    }
    None
}

/// Every `fn` item of the source, in order.
pub fn find_fns(bytes: &[u8]) -> (r: Vec<FnLoc>)
    requires
        bytes.len() <= max_source_len(),
    ensures
        r@ == find_fns_spec(bytes@, 0),
{
    let mut result: Vec<FnLoc> = Vec::new();
    let mut i: usize = 0;
    while i < bytes.len()
        invariant
            i <= bytes.len() + 4,
            bytes.len() <= max_source_len(),
            result@ + find_fns_spec(bytes@, i as int) == find_fns_spec(bytes@, 0),
        decreases bytes.len() + 4 - i,
    {
        let c = bytes[i];
        if i + 1 < bytes.len() && c == 47 && bytes[i + 1] == 47 {
            assert(line_end_spec(bytes@, i as int) == line_end_spec(bytes@, i + 1));
            i = line_end(bytes, i + 1);
            continue;
        }
        if i + 1 < bytes.len() && c == 47 && bytes[i + 1] == 42 {
            i = block_scan(bytes, i + 2) + 2;
            continue;
        }
        if c == 34 {
            i = skip_string(bytes, i + 1);
            continue;
        }
        if c == 114 && i + 1 < bytes.len() && (bytes[i + 1] == 35 || bytes[i + 1] == 34) {
            if let Some(j) = skip_raw_string(bytes, i) {
                i = j;
                continue;
            }
        }
        match fn_match(bytes, i) {
            Some(m) => {
                let loc = FnLoc {
                    name_start: m.0,
                    name_end: m.1,
                    decl_start: i,
                    body_start: m.2 + 1,
                    body_end: m.3,
                    body_close: m.3,
                };
                proof {
                    lemma_fn_match_wf(bytes@, i as int);
                    assert(find_fns_spec(bytes@, i as int) == seq![loc] + find_fns_spec(
                        bytes@,
                        m.3 + 1,
                    ));
                }
                result.push(loc);
                proof {
                    assert(result@ + find_fns_spec(bytes@, m.3 + 1) =~= find_fns_spec(bytes@, 0));
                }
                i = m.3 + 1;
            },
            None => {
                i = i + 1;
            },
        }
    }
    assert(result@ =~= result@ + find_fns_spec(bytes@, i as int));
    result
}

/// Number of newline bytes in `b`.
pub open spec fn count_newlines(b: Seq<u8>) -> nat
    decreases b.len(),
{
    if b.len() == 0 {
        0
    } else {
        count_newlines(b.drop_last()) + (if b.last() == 10 {
            1nat
        } else {
            0nat
        })
    }
}

/// 1-based line number of byte offset `off` (offsets past the end count as
/// the end).
pub open spec fn line_of_spec(b: Seq<u8>, off: int) -> int {
    let end = if off < b.len() {
        off
    } else {
        b.len() as int
    };
    count_newlines(b.subrange(0, end)) + 1int
}

pub fn line_of(bytes: &[u8], byte_offset: usize) -> (r: usize)
    requires
        bytes.len() < usize::MAX,
    ensures
        r == line_of_spec(bytes@, byte_offset as int),
{
    let end = if byte_offset < bytes.len() {
        byte_offset
    } else {
        bytes.len()
    };
    let mut n: usize = 0;
    let mut k: usize = 0;
    while k < end
        invariant
            k <= end <= bytes.len(),
            n == count_newlines(bytes@.subrange(0, k as int)),
            n <= k,
        decreases end - k,
    {
        assert(bytes@.subrange(0, k + 1).drop_last() =~= bytes@.subrange(0, k as int));
        if bytes[k] == 10 {
            n = n + 1;
        }
        k = k + 1;
    }
    n + 1
}

/// Characters of an identifier's ASCII bytes.
pub open spec fn ascii_text(b: Seq<u8>) -> Seq<char> {
    b.map_values(|x: u8| x as char)
}

pub(crate) fn ascii_string(bytes: &[u8], start: usize, end: usize) -> (r: String)
    requires
        start <= end <= bytes.len(),
    ensures
        r@ == ascii_text(bytes@.subrange(start as int, end as int)),
{
    let mut cs: Vec<char> = Vec::new();
    let mut k = start;
    while k < end
        invariant
            start <= k <= end <= bytes.len(),
            cs@ =~= ascii_text(bytes@.subrange(start as int, k as int)),
        decreases end - k,
    {
        cs.push(bytes[k] as char);
        k = k + 1;
    }
    crate::text::string_of(cs.as_slice())
}

/// The metadata the Rust splitter records for one location: identifier,
/// whitespace-normalized signature (from `fn` up to the `{`), body text with
/// edges stripped, and the 1-based lines of `fn` and of the closing `}`.
pub open spec fn rs_meta_spec(b: Seq<u8>, l: FnLoc) -> FnMetaView {
    FnMetaView {
        name: ascii_text(b.subrange(l.name_start as int, l.name_end as int)),
        signature: collapse_ws(utf8_lossy(b.subrange(l.decl_start as int, l.body_start - 1))),
        raw: strip_body_edges_spec(utf8_lossy(b.subrange(l.body_start as int, l.body_end as int))),
        line_start: line_of_spec(b, l.decl_start as int),
        line_end: line_of_spec(b, l.body_close as int),
    }
}

proof fn lemma_find_fns_wf(b: Seq<u8>, i: int)
    requires
        b.len() <= max_source_len(),
    ensures
        forall|k: int| 0 <= k < find_fns_spec(b, i).len() ==> fn_loc_wf(b, #[trigger] find_fns_spec(b, i)[k]),
    decreases b.len() + 4 - i,
{
    if i < 0 || i >= b.len() {
    } else if i + 1 < b.len() && b[i] == 47 && b[i + 1] == 47 {
        let e = line_end_spec(b, i);
        if i < e <= b.len() {
            lemma_find_fns_wf(b, e);
            assert(find_fns_spec(b, i) == find_fns_spec(b, e));
        }
    } else if i + 1 < b.len() && b[i] == 47 && b[i + 1] == 42 {
        let k = block_scan_spec(b, i + 2) + 2;
        if i < k <= b.len() + 4 {
            lemma_find_fns_wf(b, k);
            assert(find_fns_spec(b, i) == find_fns_spec(b, k));
        }
    } else if b[i] == 34 {
        let k = skip_string_spec(b, i + 1);
        if i < k <= b.len() + 4 {
            lemma_find_fns_wf(b, k);
            assert(find_fns_spec(b, i) == find_fns_spec(b, k));
        }
    } else if b[i] == 114 && i + 1 < b.len() && (b[i + 1] == 35 || b[i + 1] == 34)
        && skip_raw_string_spec(b, i) is Some {
        let k = skip_raw_string_spec(b, i)->0;
        if i < k <= b.len() + 4 {
            lemma_find_fns_wf(b, k);
            assert(find_fns_spec(b, i) == find_fns_spec(b, k));
        }
    } else if fn_match_spec(b, i) is Some {
        let m = fn_match_spec(b, i)->0;
        if i <= m.3 < b.len() {
            lemma_find_fns_wf(b, m.3 + 1);
            lemma_fn_match_wf(b, i);
            let rest = find_fns_spec(b, m.3 + 1);
            assert forall|k: int| 0 <= k < find_fns_spec(b, i).len() implies fn_loc_wf(
                b,
                #[trigger] find_fns_spec(b, i)[k],
            ) by {
                if k > 0 {
                    assert(find_fns_spec(b, i)[k] == rest[k - 1]);
                }
            }
        }
    } else {
        lemma_find_fns_wf(b, i + 1);
        assert(find_fns_spec(b, i) == find_fns_spec(b, i + 1));
    }
}

proof fn lemma_open_brace(b: Seq<u8>, i: int, paren: int, angle: int)
    requires
        0 <= i,
    ensures
        open_brace_spec(b, i, paren, angle) matches Some(k) ==> i <= k < b.len() && b[k] == 123,
    decreases b.len() + 4 - i,
{
    if i < 0 || i >= b.len() {
    } else if b[i] == 47 && i + 1 < b.len() && b[i + 1] == 47 {
        let e = line_end_spec(b, i);
        if i <= e <= b.len() {
            lemma_open_brace(b, e + 1, paren, angle);
        }
    } else if b[i] == 47 && i + 1 < b.len() && b[i + 1] == 42 {
        let k = block_scan_spec(b, i + 2) + 2;
        if i < k <= b.len() + 4 {
            lemma_open_brace(b, k, paren, angle);
        }
    } else if b[i] == 40 {
        lemma_open_brace(b, i + 1, paren + 1, angle);
    } else if b[i] == 41 {
        lemma_open_brace(b, i + 1, paren - 1, angle);
    } else if b[i] == 60 && paren == 0 {
        lemma_open_brace(b, i + 1, paren, angle + 1);
    } else if b[i] == 62 && paren == 0 && angle > 0 {
        lemma_open_brace(b, i + 1, paren, angle - 1);
    } else if b[i] == 59 && paren == 0 && angle == 0 {
    } else if b[i] == 123 && paren == 0 && angle == 0 {
    } else {
        lemma_open_brace(b, i + 1, paren, angle);
    }
}

proof fn lemma_close_brace(b: Seq<u8>, i: int, depth: int)
    requires
        0 <= i,
    ensures
        close_brace_spec(b, i, depth) matches Some(k) ==> i <= k < b.len() && b[k] == 125,
    decreases b.len() + 4 - i,
{
    if i < 0 || i >= b.len() {
    } else if b[i] == 47 && i + 1 < b.len() && b[i + 1] == 47 {
        let e = line_end_spec(b, i);
        if i < e <= b.len() {
            lemma_close_brace(b, e, depth);
        }
    } else if b[i] == 47 && i + 1 < b.len() && b[i + 1] == 42 {
        let k = block_scan_spec(b, i + 2) + 2;
        if i < k <= b.len() + 4 {
            lemma_close_brace(b, k, depth);
        }
    } else if b[i] == 34 {
        let k = skip_string_spec(b, i + 1);
        if i < k <= b.len() + 4 {
            lemma_close_brace(b, k, depth);
        }
    } else if b[i] == 114 && i + 1 < b.len() && (b[i + 1] == 35 || b[i + 1] == 34)
        && skip_raw_string_spec(b, i) is Some {
        let k = skip_raw_string_spec(b, i)->0;
        if i < k <= b.len() + 4 {
            lemma_close_brace(b, k, depth);
        }
    } else if b[i] == 39 && i + 2 < b.len() && b[i + 1] == 92 {
        if i + 3 < b.len() && b[i + 3] == 39 {
            lemma_close_brace(b, i + 4, depth);
        } else {
            lemma_close_brace(b, i + 3, depth);
        }
    } else if b[i] == 39 && i + 2 < b.len() && b[i + 2] == 39 {
        lemma_close_brace(b, i + 3, depth);
    } else if b[i] == 123 {
        lemma_close_brace(b, i + 1, depth + 1);
    } else if b[i] == 125 {
        if depth - 1 != 0 {
            lemma_close_brace(b, i + 1, depth - 1);
        }
    } else {
        lemma_close_brace(b, i + 1, depth);
    }
}

proof fn lemma_fn_match_wf(b: Seq<u8>, i: int)
    requires
        fn_match_spec(b, i) is Some,
    ensures
        ({
            let m = fn_match_spec(b, i)->0;
            &&& i + 2 <= m.0 < m.1 <= m.2 < m.3 < b.len()
            &&& b[i] == 102 && b[i + 1] == 110 && b[m.2] == 123 && b[m.3] == 125
        }),
{
    let ns = skip_ws_spec(b, i + 2);
    lemma_skip_ws_ge(b, i + 2);
    lemma_ident_end_ge(b, ns);
    assert(ident_end_spec(b, ns) == ident_end_spec(b, ns + 1));
    lemma_ident_end_ge(b, ns + 1);
    let ne = ident_end_spec(b, ns);
    lemma_open_brace(b, ne, 0, 0);
    let o = open_brace_spec(b, ne, 0, 0)->0;
    lemma_close_brace(b, o + 1, 1);
}

proof fn lemma_skip_ws_ge(b: Seq<u8>, i: int)
    requires
        0 <= i,
    ensures
        i <= skip_ws_spec(b, i),
    decreases b.len() - i,
{
    if 0 <= i < b.len() && (b[i] == 32 || b[i] == 9 || b[i] == 10 || b[i] == 13) {
        lemma_skip_ws_ge(b, i + 1);
    }
}

/// Splits Rust source into per-function metadata.
pub fn split_rs(source: &str) -> (r: Vec<FnMeta>)
    requires
        source.spec_bytes().len() <= max_source_len(),
    ensures
        r@.len() == find_fns_spec(source.spec_bytes(), 0).len(),
        forall|k: int|
            0 <= k < r@.len() ==> (#[trigger] r@[k])@ == rs_meta_spec(
                source.spec_bytes(),
                find_fns_spec(source.spec_bytes(), 0)[k],
            ),
{
    let bytes = source.as_bytes();
    let funcs = find_fns(bytes);
    proof {
        lemma_find_fns_wf(bytes@, 0);
    }
    let mut metas: Vec<FnMeta> = Vec::new();
    let mut k: usize = 0;
    while k < funcs.len()
        invariant
            k <= funcs@.len(),
            bytes@ == source.spec_bytes(),
            bytes@.len() <= max_source_len(),
            funcs@ == find_fns_spec(bytes@, 0),
            forall|j: int| 0 <= j < funcs@.len() ==> fn_loc_wf(bytes@, #[trigger] funcs@[j]),
            metas@.len() == k,
            forall|j: int| 0 <= j < k ==> (#[trigger] metas@[j])@ == rs_meta_spec(bytes@, funcs@[j]),
        decreases funcs@.len() - k,
    {
        let f = funcs[k];
        assert(fn_loc_wf(bytes@, funcs@[k as int]));
        let name = ascii_string(bytes, f.name_start, f.name_end);
        let raw_bytes = byte_range(bytes, f.body_start, f.body_end);
        let raw_text = from_utf8_lossy(raw_bytes.as_slice());
        let raw = strip_body_edges(raw_text.as_str());
        let open = f.body_start - 1;
        let sig_bytes = byte_range(bytes, f.decl_start, open);
        let sig_text = from_utf8_lossy(sig_bytes.as_slice());
        let signature = collapse_ws_str(sig_text.as_str());
        let line_start = line_of(bytes, f.decl_start);
        let line_end = line_of(bytes, f.body_close);
        let m = FnMeta { name, signature, raw, line_start, line_end };
        metas.push(m);
        proof {
            assert(metas@[k as int]@ == rs_meta_spec(bytes@, funcs@[k as int]));
        }
        k = k + 1;
    }
    metas
}

} // verus!
