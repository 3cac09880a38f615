//! Splitting markdown documents into page-based fragments.
//!
//! The library detects logical page boundaries in a markdown document with a
//! prioritized cascade of line patterns, extracts and merges pages, and plans
//! a partition of the pages into a configurable number of output fragments.
//! All parsing and planning is pure computation over in-memory data; reading
//! sources and writing artifacts is left to the caller.

pub mod error;
pub mod fetcher;
pub mod parser;
pub mod patterns;
pub mod splitter;
pub mod text;
pub mod types;

pub use error::MarkdownSplitterError;
pub use fetcher::ContentFetcher;
pub use parser::MarkdownParser;
pub use splitter::DocumentSplitter;
pub use splitter::SplitPart;
pub use types::DocumentMetadata;
pub use types::MarkdownDocument;
pub use types::MarkdownPage;
pub use types::SourceType;
pub use types::SplitConfig;
pub use types::SplitResult;

use vstd::prelude::*;

verus! {

/// Library initialization; the library keeps no global state, so there is
/// nothing to set up.
pub fn init() {
}

} // verus!
