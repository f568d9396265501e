//! Decision logic of the learn passes: wikilinks and relation blocks,
//! question identity and edge kinds, question raising, lifecycle
//! migrations and promotion to conclusions.

pub mod infra;
pub mod links;
pub mod raise;
pub mod migrate;
pub mod promote;
pub mod qa;
pub mod feedback;
pub mod code_links;
pub mod dedup;
pub mod connect;
pub mod pass;
