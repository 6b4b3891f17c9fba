//! A context-aware scanner for probable spelling typos in source trees,
//! together with a file-name convention check.
//!
//! The core is the typo engine: it classifies each whitespace-delimited
//! token of a line by its lexical context (code, comment, attribute,
//! qualified path, string/char literal), suppresses tokens that carry no
//! spelling signal, normalizes the rest to a lowercase comparable form,
//! and reports tokens that miss both dictionary sets.

pub mod laws;
pub mod naming;
pub mod text;
pub mod typos;
