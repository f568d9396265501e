//! Shared helpers of the learn passes: question identity hashes and the
//! normalization of reason kinds.

use vstd::prelude::*;
use vstd::string::StringSliceAdditionalSpecFns;
use crate::io::{fnv64, fnv64_bytes};
use crate::text::{hex, hex_string, push_str_chars, str_eq, string_of, trim, trim_str};
use crate::unicode::{lowercase, to_lowercase};

verus! {

/// Hash tag of a question: `q-` and the FNV-1a hash of the trimmed title in
/// lowercase hexadecimal.
pub open spec fn question_id_spec(q: Seq<char>) -> Seq<char> {
    "q-"@ + hex(fnv64_bytes(vstd::utf8::encode_utf8(trim(q))) as nat)
}

/// Hash tag identifying a question by its title, whitespace at the ends
/// ignored.
pub fn fnv_question_id(q: &str) -> (r: String)
    ensures
        r@ == question_id_spec(q@),
{
    let t = trim_str(q);
    let h = fnv64(t.as_str());
    let hx = hex_string(h);
    let mut out: Vec<char> = Vec::new();
    push_str_chars(&mut out, "q-");
    push_str_chars(&mut out, hx.as_str());
    string_of(out.as_slice())
}

/// Canonical reason kind for a kind name given in any case; unknown kinds
/// become `References`.
pub open spec fn allowed_kind_spec(k: Seq<char>) -> Seq<char> {
    let l = lowercase(k);
    if l == "answers"@ {
        "Answers"@
    } else if l == "supports"@ {
        "Supports"@
    } else if l == "contradicts"@ {
        "Contradicts"@
    } else if l == "extends"@ {
        "Extends"@
    } else if l == "requires"@ {
        "Requires"@
    } else if l == "references"@ {
        "References"@
    } else if l == "derives"@ {
        "Derives"@
    } else if l == "instances"@ {
        "Instances"@
    } else {
        "References"@
    }
}

/// Normalizes a reason kind.
pub fn allowed_kind(k: &str) -> (r: &'static str)
    ensures
        r@ == allowed_kind_spec(k@),
{
    let l = to_lowercase(k);
    let l = l.as_str();
    if str_eq(l, "answers") {
        "Answers"
    } else if str_eq(l, "supports") {
        "Supports"
    } else if str_eq(l, "contradicts") {
        "Contradicts"
    } else if str_eq(l, "extends") {
        "Extends"
    } else if str_eq(l, "requires") {
        "Requires"
    } else if str_eq(l, "references") {
        "References"
    } else if str_eq(l, "derives") {
        "Derives"
    } else if str_eq(l, "instances") {
        "Instances"
    } else {
        "References"
    }
}

/// An entity as linking sees it: id, title, aliases, file slug and
/// purpose.
#[derive(Debug, Clone)]
pub struct EntityRef {
    pub id: String,
    pub title: String,
    pub aliases: Vec<String>,
    pub slug: String,
    pub purpose: Option<String>,
}

} // verus!
