//! The catch-all purpose that content falls into when no purpose matches.

use vstd::prelude::*;

verus! {

/// A purpose to be created: tag, title and description.
#[derive(Debug, Clone)]
pub struct PurposeDraft {
    pub tag: String,
    pub title: String,
    pub description: String,
}

/// The `general` purpose, to be created when the vault lacks it.
pub fn ensure_general_purpose(general_exists: bool) -> (r: Option<PurposeDraft>)
    ensures
        r is None <==> general_exists,
        r matches Some(d) ==> d.tag@ == "general"@ && d.title@ == "General"@ && d.description@
            == "Catch-all bucket for content that does not match any specific purpose with sufficient confidence."@,
{
    if general_exists {
        None
    } else {
        Some(
            PurposeDraft {
                tag: "general".to_owned(),
                title: "General".to_owned(),
                description: "Catch-all bucket for content that does not match any specific purpose with sufficient confidence.".to_owned(),
            },
        )
    }
}

} // verus!
