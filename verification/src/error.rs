//! The library's error type. Every failure carries plain data — a reason
//! string, a path, or an HTTP status — so contracts can state exactly when
//! each variant is produced.

use vstd::prelude::*;

verus! {

/// A failure of fetching, parsing, or splitting a document.
#[derive(Debug)]
pub enum MarkdownSplitterError {
    /// An I/O failure, with the underlying cause text.
    Io { reason: String },
    /// An HTTP request failure, with the underlying cause text.
    Http { reason: String },
    /// A URL that could not be parsed.
    InvalidUrl { reason: String },
    /// A source path that names no file.
    FileNotFound { path: String },
    /// Content that is not usable markdown.
    InvalidMarkdown { reason: String },
    /// An unusable split configuration.
    SplitConfig { reason: String },
    /// A failure to create or write into the output directory.
    OutputDirectory { reason: String },
    /// A failure of the page-extraction pass.
    PageParsing { reason: String },
    /// A non-success HTTP response.
    HttpStatus { status: u16 },
}

} // verus!
