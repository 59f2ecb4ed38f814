//! Core data stores of a small hypertext browser: a bookmark store with a
//! derived tag index, and a bounded, recency-ordered browsing history log,
//! together with the text codec that persists both, and the pure parts of
//! configuration handling (fonts, key bindings, search shortcuts, address
//! normalisation).
//!
//! All file and process I/O lives outside this crate; the functions here are
//! pure state transformers with verified contracts.

pub mod bookmarks;
pub mod codec;
pub mod config;
pub mod fonts;
pub mod history;
pub mod keys;
pub mod mime;
pub mod uri;
