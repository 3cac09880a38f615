//! The data model: pages, documents, provenance metadata, and the split
//! configuration and outcome records.

use vstd::prelude::*;

verus! {

/// One logical page: a contiguous run of lines of the source document.
///
/// `start_line` and `end_line` bound the page as a half-open line-index range
/// into the document's line sequence; `content` is the text of those lines,
/// newline-joined; `title` is the text of the first heading found near the top
/// of the page, if any; `number` is the page's 1-based position among the
/// document's final pages.
#[derive(Debug)]
pub struct MarkdownPage {
    pub number: usize,
    pub content: String,
    pub title: Option<String>,
    pub start_line: usize,
    pub end_line: usize,
}

/// The mathematical model of a page.
#[verifier::ext_equal]
pub struct PageView {
    pub number: int,
    pub content: Seq<char>,
    pub title: Option<Seq<char>>,
    pub start_line: int,
    pub end_line: int,
}

impl View for MarkdownPage {
    type V = PageView;

    open spec fn view(&self) -> PageView {
        PageView {
            number: self.number as int,
            content: self.content@,
            title: self.title.deep_view(),
            start_line: self.start_line as int,
            end_line: self.end_line as int,
        }
    }
}

/// The model of a page vector.
pub open spec fn pages_view(ps: Seq<MarkdownPage>) -> Seq<PageView> {
    ps.map_values(|p: MarkdownPage| p@)
}

/// Copy a page field by field.
pub fn copy_page(p: &MarkdownPage) -> (r: MarkdownPage)
    ensures
        r@ == p@,
{
    MarkdownPage {
        number: p.number,
        content: p.content.clone(),
        title: match &p.title {
            Some(t) => Some(t.clone()),
            None => None,
        },
        start_line: p.start_line,
        end_line: p.end_line,
    }
}

/// Where a document came from.
#[derive(Debug, Clone, Copy, PartialEq, Eq, Structural)]
pub enum SourceType {
    LocalFile,
    Url,
}

/// Provenance of a document: its name, origin kind, creation timestamp
/// (an RFC3339 string supplied by the caller), the raw line count, and the
/// boundary line indices the detector found.
#[derive(Debug)]
pub struct DocumentMetadata {
    pub filename: String,
    pub source_type: SourceType,
    pub created_at: String,
    pub total_lines: usize,
    pub page_breaks: Vec<usize>,
}

/// A fully parsed document: its pages after merging, in order.
#[derive(Debug)]
pub struct MarkdownDocument {
    pub source: String,
    pub total_pages: usize,
    pub pages: Vec<MarkdownPage>,
    pub metadata: DocumentMetadata,
}

impl MarkdownDocument {
    /// Well-formedness: the page count agrees with the page vector, pages are
    /// numbered contiguously from one, and every page spans at least one line,
    /// with consecutive pages in ascending line order.
    pub open spec fn wf(&self) -> bool {
        &&& self.total_pages == self.pages@.len()
        &&& forall|i: int|
            0 <= i < self.pages@.len() ==> (#[trigger] self.pages@[i])@.number == i + 1
        &&& forall|i: int|
            0 <= i < self.pages@.len() ==> (#[trigger] self.pages@[i])@.start_line
                < self.pages@[i]@.end_line
        &&& forall|i: int|
            0 <= i < self.pages@.len() - 1 ==> (#[trigger] self.pages@[i])@.end_line
                <= self.pages@[i + 1]@.start_line
    }
}

/// User intent for one split run: how many fragments to produce, where to put
/// them, whether to keep structural separators and emit a manifest, and an
/// optional custom boundary marker.
#[derive(Debug)]
pub struct SplitConfig {
    pub splits: usize,
    pub output_dir: String,
    pub preserve_structure: bool,
    pub include_metadata: bool,
    pub custom_page_marker: Option<String>,
}

/// Outcome of one split run: the number of fragments actually produced, the
/// computed pages-per-split, the pages distributed, and the artifact
/// locations.
#[derive(Debug)]
pub struct SplitResult {
    pub split_number: usize,
    pub pages_per_split: usize,
    pub actual_pages: usize,
    pub output_files: Vec<String>,
    pub metadata_file: Option<String>,
}

} // verus!
