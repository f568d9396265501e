//! Metadata of the language modules that split source files: the comment
//! prefix of each language.

use vstd::prelude::*;
use crate::text::str_eq;

verus! {

/// What a language module declares about its language.
#[derive(Clone, Debug)]
pub struct Meta {
    pub comment: String,
}

impl Default for Meta {
    fn default() -> (r: Self)
        ensures
            r.comment@ == "//"@,
    {
        Meta { comment: "//".to_owned() }
    }
}

/// Comment prefix a language module declares: a loaded module's own
/// metadata when there is one; the built-in modules declare `//` for `rs`
/// and `#` for `py`; otherwise `//`.
pub open spec fn comment_for(ext: Seq<char>, module_comment: Option<Seq<char>>) -> Seq<char> {
    match module_comment {
        Some(c) => c,
        None => if ext == "py"@ {
            "#"@
        } else {
            "//"@
        },
    }
}

/// Metadata for `ext`, given the metadata read from a language module
/// installed for it, if any.
pub fn meta_for_ext(ext: &str, module_meta: Option<Meta>) -> (r: Meta)
    ensures
        r.comment@ == comment_for(
            ext@,
            match module_meta {
                Some(m) => Some(m.comment@),
                None => None,
            },
        ),
{
    match module_meta {
        Some(m) => m,
        None => if str_eq(ext, "py") {
            Meta { comment: "#".to_owned() }
        } else {
            Meta { comment: "//".to_owned() }
        },
    }
}

} // verus!
