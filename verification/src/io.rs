//! Hashing helpers used for content fingerprints, and the checks around
//! durable writes and stored vectors.

use vstd::prelude::*;
use vstd::string::StringSliceAdditionalSpecFns;
use crate::text::{dec, push_dec, push_str_chars, string_of};

verus! {

/// FNV-1a 64-bit offset basis.
pub const FNV_OFFSET: u64 = 0xcbf29ce484222325;

/// FNV-1a 64-bit prime.
pub const FNV_PRIME: u64 = 0x100000001b3;

/// One FNV-1a round: xor in the byte, then multiply (mod 2^64).
pub open spec fn fnv_step(h: u64, b: u8) -> u64 {
    vstd::wrapping::u64_specs::wrapping_mul(h ^ (b as u64), FNV_PRIME)
}

/// FNV-1a over a byte sequence, folding from the left.
pub open spec fn fnv64_bytes(bytes: Seq<u8>) -> u64
    decreases bytes.len(),
{
    if bytes.len() == 0 {
        FNV_OFFSET
    } else {
        fnv_step(fnv64_bytes(bytes.drop_last()), bytes.last())
    }
}

/// FNV-1a 64-bit hash of the UTF-8 bytes of `s`. Stable across runs.
pub fn fnv64(s: &str) -> (h: u64)
    ensures
        h == fnv64_bytes(s.spec_bytes()),
{
    let bytes = s.as_bytes();
    let mut h: u64 = FNV_OFFSET;
    let mut i: usize = 0;
    while i < bytes.len()
        invariant
            0 <= i <= bytes@.len(),
            bytes@ == s.spec_bytes(),
            h == fnv64_bytes(bytes@.subrange(0, i as int)),
        decreases bytes@.len() - i,
    {
        assert(bytes@.subrange(0, i as int + 1).drop_last() =~= bytes@.subrange(0, i as int));
        h = (h ^ (bytes[i] as u64)).wrapping_mul(FNV_PRIME);
        i = i + 1;
    }
    assert(bytes@.subrange(0, bytes@.len() as int) =~= bytes@);
    h
}

/// The name of the temporary file a durable write goes through: the file
/// name with a leading `.` and a `.tmp` suffix.
pub fn atomic_tmp_name(file_name: &str) -> (r: String)
    ensures
        r@ == seq!['.'] + file_name@ + ".tmp"@,
{
    let mut v: Vec<char> = vec!['.'];
    push_str_chars(&mut v, file_name);
    push_str_chars(&mut v, ".tmp");
    string_of(v.as_slice())
}

/// How many values a stored vector of `n_bytes` bytes holds: four bytes
/// each, and `expected` of them when a dimension is required. The errors
/// name the file `path`.
pub open spec fn vec_dim_spec(n_bytes: nat, expected: Option<nat>, path: Seq<char>) -> Result<nat, Seq<char>> {
    if n_bytes % 4 != 0 {
        Err("corrupt vec file: "@ + path)
    } else {
        match expected {
            Some(d) => if n_bytes / 4 != d {
                Err("unexpected vec dim "@ + dec(n_bytes / 4) + " (expected "@ + dec(d) + ") in "@ + path)
            } else {
                Ok(d)
            },
            None => Ok(n_bytes / 4),
        }
    }
}

/// How many values a stored vector holds (see `vec_dim_spec`).
pub fn vec_dim(n_bytes: usize, expected: Option<usize>, path: &str) -> (r: Result<usize, String>)
    ensures
        match r {
            Ok(n) => vec_dim_spec(n_bytes as nat, match expected {
                Some(d) => Some(d as nat),
                None => None,
            }, path@) == Ok::<nat, Seq<char>>(n as nat),
            Err(e) => vec_dim_spec(n_bytes as nat, match expected {
                Some(d) => Some(d as nat),
                None => None,
            }, path@) == Err::<nat, Seq<char>>(e@),
        },
{
    if n_bytes % 4 != 0 {
        let mut v: Vec<char> = Vec::new();
        push_str_chars(&mut v, "corrupt vec file: ");
        push_str_chars(&mut v, path);
        return Err(string_of(v.as_slice()));
    }
    let n = n_bytes / 4;
    match expected {
        Some(d) => {
            if n != d {
                let mut v: Vec<char> = Vec::new();
                push_str_chars(&mut v, "unexpected vec dim ");
                push_dec(&mut v, n);
                push_str_chars(&mut v, " (expected ");
                push_dec(&mut v, d);
                push_str_chars(&mut v, ") in ");
                push_str_chars(&mut v, path);
                Err(string_of(v.as_slice()))
            } else {
                Ok(d)
            }
        },
        None => Ok(n),
    }
}

} // verus!
