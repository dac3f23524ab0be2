//! A term-frequency index over a corpus of text documents.
//!
//! The library covers the indexing pipeline: tokenization of raw text,
//! per-document term-frequency accumulation, corpus-wide inverse-document-
//! frequency counting, and an in-memory model of the persisted tables with
//! their upsert semantics. Reading files and parsing file formats are left
//! to callers, which hand the library plain text.

pub mod document;
pub mod idf;
pub mod orchestrate;
pub mod queries;
pub mod store;
pub mod tokenizer;

pub use document::index_from_str;
pub use document::Document;
pub use idf::count_docs_containing;
pub use idf::idf_appears;
pub use orchestrate::index_file;
pub use orchestrate::is_valid_file;
pub use store::DbWord;
pub use store::Store;
pub use tokenizer::tokenize_text;
