use markdown_splitter::parser::MarkdownParser;
use markdown_splitter::types::DocumentMetadata;
use markdown_splitter::types::SourceType;
use markdown_splitter::MarkdownSplitterError;

fn meta(name: &str, content: &str) -> DocumentMetadata {
    DocumentMetadata {
        filename: name.to_string(),
        source_type: SourceType::LocalFile,
        created_at: "2024-01-01T00:00:00+00:00".to_string(),
        total_lines: content.lines().count(),
        page_breaks: Vec::new(),
    }
}

fn lines_of(content: &str) -> Vec<String> {
    content.lines().map(|l| l.to_string()).collect()
}

#[test]
fn test_parser_creation() {
    let parser = MarkdownParser::new(None);
    assert!(parser.is_ok());

    let parser_with_marker = MarkdownParser::new(Some("<!-- SPLIT -->"));
    assert!(parser_with_marker.is_ok());
}

#[test]
fn explicit_marker_wins_over_headings() {
    // one explicit page marker and many unrelated headings: boundaries come
    // only from the marker line, never from the headings
    let mut content = String::new();
    for i in 0..5 {
        content.push_str(&format!("## Heading {}\ntext\n", i));
    }
    content.push_str("# Page 2\n");
    for i in 5..10 {
        content.push_str(&format!("## Heading {}\ntext\n", i));
    }
    let lines = lines_of(&content);
    let parser = MarkdownParser::new(None).unwrap();
    let breaks = parser.find_page_breaks(&lines);
    assert_eq!(breaks, vec![0, 10, 21]);
}

#[test]
fn fallback_uses_rules_and_headings() {
    // no explicit markers: both the heading at line 0 and the rule at line 4
    // are boundaries, giving two raw pages
    let lines = lines_of("# A\n\nx\n\n---\n\ny");
    let parser = MarkdownParser::new(None).unwrap();
    let breaks = parser.find_page_breaks(&lines);
    assert_eq!(breaks, vec![0, 4, 7]);
}

#[test]
fn small_pages_merge_into_predecessor() {
    // pages of 20, 3 and 20 lines; the untitled middle page is merged into
    // its predecessor and the result is renumbered 1 and 2
    let mut lines: Vec<String> = Vec::new();
    for i in 0..20 {
        lines.push(format!("line {}", i));
    }
    lines.push("---".to_string());
    lines.push("stray a".to_string());
    lines.push("stray b".to_string());
    for i in 0..20 {
        lines.push(format!("tail {}", i));
    }
    let breaks: Vec<usize> = vec![0, 20, 23, 43];
    let parser = MarkdownParser::new(None).unwrap();
    let pages = parser.extract_pages(&lines, &breaks).unwrap();
    assert_eq!(pages.len(), 2);
    assert_eq!(pages[0].number, 1);
    assert_eq!(pages[1].number, 2);
    assert_eq!(pages[0].start_line, 0);
    assert_eq!(pages[0].end_line, 23);
    assert_eq!(pages[1].start_line, 23);
    assert_eq!(pages[1].end_line, 43);
}

#[test]
fn marker_titled_page_is_not_merged() {
    // a small page whose title looks like a page marker survives the merge
    let mut content = String::new();
    for i in 0..12 {
        content.push_str(&format!("body {}\n", i));
    }
    content.push_str("# Page 2\nshort\n");
    let parser = MarkdownParser::new(None).unwrap();
    let document = parser
        .parse_document(&content, meta("doc.md", &content))
        .unwrap();
    assert_eq!(document.total_pages, 2);
    assert_eq!(document.pages[1].title.as_deref(), Some("Page 2"));
}

#[test]
fn merged_document_keeps_all_content() {
    let content = "# A\n\nx\n\n---\n\ny";
    let parser = MarkdownParser::new(None).unwrap();
    let document = parser
        .parse_document(content, meta("two.md", content))
        .unwrap();
    // the two raw pages collapse into one: the second spans only three lines
    // and has no title
    assert_eq!(document.total_pages, 1);
    assert_eq!(document.pages[0].content, "# A\n\nx\n\n\n---\n\ny");
    assert_eq!(document.pages[0].title.as_deref(), Some("A"));
    assert_eq!(document.metadata.page_breaks, vec![0, 4, 7]);
}

#[test]
fn title_scan_stops_after_ten_lines() {
    // a heading on line 11 of an otherwise untitled page yields no title
    let mut lines: Vec<String> = Vec::new();
    for i in 0..10 {
        lines.push(format!("plain {}", i));
    }
    lines.push("# Late heading".to_string());
    lines.push("tail".to_string());
    let breaks: Vec<usize> = vec![0, 12];
    let parser = MarkdownParser::new(None).unwrap();
    let pages = parser.extract_pages(&lines, &breaks).unwrap();
    assert_eq!(pages.len(), 1);
    assert_eq!(pages[0].title, None);
}

#[test]
fn title_within_first_ten_lines_is_found() {
    let lines = lines_of("intro\n### Deep Title \nrest");
    let breaks: Vec<usize> = vec![0, 3];
    let parser = MarkdownParser::new(None).unwrap();
    let pages = parser.extract_pages(&lines, &breaks).unwrap();
    assert_eq!(pages[0].title.as_deref(), Some("Deep Title"));
}

#[test]
fn empty_document_is_a_parsing_error() {
    let parser = MarkdownParser::new(None).unwrap();
    let result = parser.parse_document("", meta("empty.md", ""));
    match result {
        Err(MarkdownSplitterError::PageParsing { reason }) => {
            assert_eq!(reason, "No valid pages found in document");
        }
        _ => panic!("expected a page parsing error"),
    }
}

#[test]
fn fallback_pattern_variants_are_boundaries() {
    let lines = lines_of("start\n<!-- pagebreak -->\nmid\n\\pagebreak\nmore\n\\newpage\nend");
    let parser = MarkdownParser::new(None).unwrap();
    let breaks = parser.find_page_breaks(&lines);
    assert_eq!(breaks, vec![0, 1, 3, 5, 7]);
}

#[test]
fn bare_page_markers_are_explicit() {
    let lines = lines_of("text\n(Page 3)\nmore\nPAGE 4\nend\n---");
    let parser = MarkdownParser::new(None).unwrap();
    let breaks = parser.find_page_breaks(&lines);
    // the bare markers are authoritative; the trailing rule is ignored
    assert_eq!(breaks, vec![0, 1, 3, 6]);
}

#[test]
fn custom_marker_takes_the_bare_markers_slot() {
    let content = "start\n<<<\nmid\nPage 2\nend";
    let lines = lines_of(content);
    // without a custom marker, the bare "Page 2" line is the only explicit
    // marker
    let plain = MarkdownParser::new(None).unwrap();
    assert_eq!(plain.find_page_breaks(&lines), vec![0, 3, 5]);
    // with one, the custom marker is explicit and the bare form is not
    let custom = MarkdownParser::new(Some("<<<")).unwrap();
    assert_eq!(custom.find_page_breaks(&lines), vec![0, 1, 5]);
}

#[test]
fn default_parser_has_no_custom_marker() {
    let parser = MarkdownParser::default();
    let lines = lines_of("a\n---\nb");
    assert_eq!(parser.find_page_breaks(&lines), vec![0, 1, 3]);
}

#[test]
fn carriage_returns_are_stripped_at_line_breaks() {
    let content = "# A\r\nbody\r\n---\r\ntail";
    let parser = MarkdownParser::new(None).unwrap();
    let document = parser
        .parse_document(content, meta("crlf.md", content))
        .unwrap();
    assert_eq!(document.total_pages, 1);
    assert_eq!(document.pages[0].content, "# A\nbody\n\n---\ntail");
}
