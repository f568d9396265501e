//! Verified core of an Obsidian-vault knowledge base: text and path
//! utilities, the code splitters, the per-root retrieval cache and the
//! decision logic of the learn passes.

pub mod io;
pub mod text;
pub mod code;
pub mod keyed;
pub mod cache;
pub mod slashpath;
pub mod unicode;
pub mod store;
pub mod sanitize;
pub mod pattern;
pub mod learn;
pub mod config;
pub mod chunker;
pub mod smart;
pub mod walk;
pub mod hooks;
pub mod cli;
pub mod extract;
pub mod classifier;
pub mod language;
pub mod settings;
pub mod tools;
pub mod docs;
pub mod pool;
