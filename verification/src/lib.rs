//! A tiny BM25 full-text search engine: tokenizer, inverted index,
//! query preparation and snippet extraction, with their contracts.

pub use error::{Error, Result};
pub use index::Index;
pub use search::{query_terms, DocMatch};
pub use snippet::{extract as extract_snippet, Snippet, SnippetConfig};

pub mod error;
pub mod index;
pub mod search;
pub mod snippet;
pub mod text;
pub mod tokenizer;
