//! A lenient, resumable tokenizer and normalizer for HTML-like markup.
//!
//! The scanner walks an input buffer in a single forward pass and emits a
//! stream of structural tokens (tags, text runs, comments, declarations)
//! together with diagnostics; malformed input never aborts a scan. Input may
//! be fed as one buffer or as ordered chunks with an identical resulting
//! token stream. Attribute lists can be reordered into a canonical,
//! configuration-driven order by a stable sort that preserves the multiset
//! of attributes.

pub mod bytes;
pub mod attrsort;
pub mod config;
pub mod entity;
pub mod position;
pub mod scanner;
pub mod starttag;
pub mod text;
pub mod tokens;
