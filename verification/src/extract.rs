//! Extraction of external sources, which is delegated: the library only
//! reports what was handed over.

use vstd::prelude::*;
use crate::text::{push_str_chars, string_of};

verus! {

/// Message for a delegated PDF extraction.
pub open spec fn pdf_message(path: Seq<char>) -> Seq<char> {
    "PDF extraction for "@ + path + " - delegated to skill"@
}

/// Message for a delegated YouTube extraction.
pub open spec fn youtube_message(url: Seq<char>) -> Seq<char> {
    "YouTube extraction for "@ + url + " - delegated to skill"@
}

/// Reports the delegation of a PDF's extraction; no pages are extracted
/// here.
pub fn extract_pdf(pdf_path: &str) -> (r: (String, Vec<String>))
    ensures
        r.0@ == pdf_message(pdf_path@),
        r.1@.len() == 0,
{
    let mut v: Vec<char> = Vec::new();
    push_str_chars(&mut v, "PDF extraction for ");
    push_str_chars(&mut v, pdf_path);
    push_str_chars(&mut v, " - delegated to skill");
    (string_of(v.as_slice()), Vec::new())
}

/// Reports the delegation of a video's extraction.
pub fn extract_youtube(url: &str) -> (r: String)
    ensures
        r@ == youtube_message(url@),
{
    let mut v: Vec<char> = Vec::new();
    push_str_chars(&mut v, "YouTube extraction for ");
    push_str_chars(&mut v, url);
    push_str_chars(&mut v, " - delegated to skill");
    string_of(v.as_slice())
}

} // verus!
