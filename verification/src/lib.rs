//! Merging of PDF documents: many document graphs become one, with a single
//! catalog, a single page tree in document order and a fresh outline.
//!
//! The documents are those of the codec `lopdf`, which parses and writes them.
//! `model` says what a document is as a mathematical value, `codec` reaches the
//! codec and says what each of its functions does to that value, and `rules`
//! says what a merge is. `engine` and `passes` do the merge and are proved to do
//! what `rules` says; `laws` holds what follows for every merge. `names` decides
//! which files are inputs and in which order they are merged, `label` writes
//! the labels of the bookmarks, and `keys` holds the names that the merge reads
//! and writes.
pub mod codec;
pub mod engine;
pub mod keys;
pub mod label;
pub mod laws;
pub mod model;
pub mod names;
pub mod passes;
pub mod rules;
