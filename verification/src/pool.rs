//! Decisions of the embedding pool: the fingerprint a document's vector is
//! kept under, when a stored vector is still fresh, and the batches the
//! stale documents are embedded in.

use vstd::prelude::*;
use vstd::string::StringSliceAdditionalSpecFns;
use crate::io::{fnv64, fnv64_bytes};
use crate::text::{hex, hex_string, str_eq, trim, trim_str};

verus! {

/// The fingerprint of a document's content: its FNV-1a hash in
/// hexadecimal.
pub open spec fn content_hash_spec(content: Seq<char>) -> Seq<char> {
    hex(fnv64_bytes(vstd::utf8::encode_utf8(content)) as nat)
}

/// The fingerprint of a document's content (see `content_hash_spec`).
pub fn content_hash(content: &str) -> (r: String)
    ensures
        r@ == content_hash_spec(content@),
{
    hex_string(fnv64(content))
}

/// Whether a stored vector can be used: the vector file exists and the
/// stored fingerprint, trimmed, is the content's.
pub fn sidecar_fresh(vec_exists: bool, stored_hash: Option<&str>, hash: &str) -> (r: bool)
    ensures
        r == (vec_exists && match stored_hash {
            Some(h) => trim(h@) == hash@,
            None => false,
        }),
{
    if !vec_exists {
        return false;
    }
    match stored_hash {
        Some(h) => str_eq(trim_str(h).as_str(), hash),
        None => false,
    }
}

/// The batches `[start, end)` that `n` items are embedded in, `size` at a
/// time, from `start` on.
pub open spec fn batches_from(n: nat, size: nat, start: nat) -> Seq<(nat, nat)>
    decreases n - start,
{
    if size == 0 || start >= n {
        seq![]
    } else {
        let end = if start + size < n {
            start + size
        } else {
            n
        };
        seq![(start, end)] + batches_from(n, size, end)
    }
}

pub open spec fn ranges_view(v: Seq<(usize, usize)>) -> Seq<(nat, nat)> {
    v.map_values(|p: (usize, usize)| (p.0 as nat, p.1 as nat))
}

/// The batches `n` items are embedded in (see `batches_from`).
pub fn batch_ranges(n: usize, size: usize) -> (r: Vec<(usize, usize)>)
    ensures
        ranges_view(r@) == batches_from(n as nat, size as nat, 0),
{
    let mut out: Vec<(usize, usize)> = Vec::new();
    if size == 0 {
        return out;
    }
    let mut cursor: usize = 0;
    while cursor < n
        invariant
            cursor <= n,
            size > 0,
            ranges_view(out@) + batches_from(n as nat, size as nat, cursor as nat) == batches_from(n as nat, size as nat, 0),
        decreases n - cursor,
    {
        let end = if size < n - cursor {
            cursor + size
        } else {
            n
        };
        let ghost before = ranges_view(out@);
        out.push((cursor, end));
        assert(ranges_view(out@) =~= before.push((cursor as nat, end as nat)));
        assert(before.push((cursor as nat, end as nat)) + batches_from(n as nat, size as nat, end as nat) =~= before + (seq![
            (cursor as nat, end as nat),
        ] + batches_from(n as nat, size as nat, end as nat)));
        cursor = end;
    }
    assert(ranges_view(out@) + Seq::<(nat, nat)>::empty() =~= ranges_view(out@));
    out
}

/// The batches cover the items in order, each once: every batch is
/// non-empty and at most `size` long, each starts where the one before
/// ended, and the last ends at `n`.
pub proof fn law_batches_cover(n: nat, size: nat, start: nat)
    requires
        size > 0,
        start <= n,
    ensures
        ({
            let b = batches_from(n, size, start);
            &&& forall|k: int| 0 <= k < b.len() ==> b[k].0 < b[k].1 <= n && b[k].1 - b[k].0 <= size
            &&& forall|k: int| 0 < k < b.len() ==> b[k].0 == b[k - 1].1
            &&& (b.len() == 0 <==> start == n)
            &&& b.len() > 0 ==> b[0].0 == start && b[b.len() - 1].1 == n
        }),
    decreases n - start,
{
    if start < n {
        let end = if start + size < n {
            start + size
        } else {
            n
        };
        law_batches_cover(n, size, end);
        let rest = batches_from(n, size, end);
        let b = batches_from(n, size, start);
        assert(b == seq![(start, end)] + rest);
        assert forall|k: int| 0 <= k < b.len() implies b[k].0 < b[k].1 <= n && b[k].1 - b[k].0 <= size by {
            if k > 0 {
                assert(b[k] == rest[k - 1]);
            }
        }
        assert forall|k: int| 0 < k < b.len() implies b[k].0 == b[k - 1].1 by {
            assert(b[k] == rest[k - 1]);
            if k > 1 {
                assert(b[k - 1] == rest[k - 2]);
            }
        }
        if rest.len() > 0 {
            assert(b[b.len() - 1] == rest[rest.len() - 1]);
        }
    }
}

} // verus!
