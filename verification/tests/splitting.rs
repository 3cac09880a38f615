use markdown_splitter::splitter::DocumentSplitter;
use markdown_splitter::types::DocumentMetadata;
use markdown_splitter::types::MarkdownDocument;
use markdown_splitter::types::MarkdownPage;
use markdown_splitter::types::SourceType;
use markdown_splitter::types::SplitConfig;
use markdown_splitter::MarkdownSplitterError;

fn sample_document(total_pages: usize) -> MarkdownDocument {
    let mut pages = Vec::new();
    for i in 0..total_pages {
        pages.push(MarkdownPage {
            number: i + 1,
            content: format!("content of page {}", i + 1),
            title: None,
            start_line: 2 * i,
            end_line: 2 * i + 2,
        });
    }
    MarkdownDocument {
        source: "sample.md".to_string(),
        total_pages,
        pages,
        metadata: DocumentMetadata {
            filename: "sample.md".to_string(),
            source_type: SourceType::LocalFile,
            created_at: "2024-01-01T00:00:00+00:00".to_string(),
            total_lines: 2 * total_pages,
            page_breaks: Vec::new(),
        },
    }
}

fn config(splits: usize) -> SplitConfig {
    SplitConfig {
        splits,
        output_dir: "./out".to_string(),
        preserve_structure: false,
        include_metadata: false,
        custom_page_marker: None,
    }
}

#[test]
fn test_split_config_creation() {
    let config = SplitConfig {
        splits: 5,
        output_dir: "./test-output".to_string(),
        preserve_structure: true,
        include_metadata: true,
        custom_page_marker: Some("<!-- PAGE -->".to_string()),
    };

    assert_eq!(config.splits, 5);
    assert!(config.preserve_structure);
    assert!(config.include_metadata);
}

#[test]
fn ceiling_division_with_remainder() {
    let (pages_per_split, ranges) = DocumentSplitter::calculate_split_info(10, 3);
    assert_eq!(pages_per_split, 4);
    assert_eq!(ranges, vec![(1, 4), (5, 8), (9, 10)]);
}

#[test]
fn exact_division() {
    let (pages_per_split, ranges) = DocumentSplitter::calculate_split_info(10, 5);
    assert_eq!(pages_per_split, 2);
    assert_eq!(ranges, vec![(1, 2), (3, 4), (5, 6), (7, 8), (9, 10)]);
}

#[test]
fn ranges_can_run_out_before_splits() {
    // ceiling division exhausts the pages after two of the three splits
    let (pages_per_split, ranges) = DocumentSplitter::calculate_split_info(4, 3);
    assert_eq!(pages_per_split, 2);
    assert_eq!(ranges, vec![(1, 2), (3, 4)]);
}

#[test]
fn ranges_partition_without_gaps() {
    let (pages_per_split, ranges) = DocumentSplitter::calculate_split_info(17, 5);
    assert_eq!(pages_per_split, 4);
    let mut expected_start = 1;
    let mut covered = 0;
    for (s, e) in &ranges {
        assert_eq!(*s, expected_start);
        assert!(s <= e);
        covered += e - s + 1;
        expected_start = e + 1;
    }
    assert_eq!(ranges.last().unwrap().1, 17);
    assert_eq!(covered, 17);
}

#[test]
fn single_split_covers_everything() {
    let (pages_per_split, ranges) = DocumentSplitter::calculate_split_info(7, 1);
    assert_eq!(pages_per_split, 7);
    assert_eq!(ranges, vec![(1, 7)]);
}

#[test]
fn zero_splits_is_rejected() {
    let document = sample_document(3);
    let result = DocumentSplitter::validate_split_config(&document, &config(0));
    match result {
        Err(MarkdownSplitterError::SplitConfig { reason }) => {
            assert_eq!(reason, "Number of splits must be greater than 0");
        }
        _ => panic!("expected a configuration error"),
    }
}

#[test]
fn empty_document_is_rejected() {
    let document = sample_document(0);
    let result = DocumentSplitter::validate_split_config(&document, &config(2));
    match result {
        Err(MarkdownSplitterError::SplitConfig { reason }) => {
            assert_eq!(reason, "Document has no pages to split");
        }
        _ => panic!("expected a configuration error"),
    }
}

#[test]
fn more_splits_than_pages_is_rejected() {
    let document = sample_document(3);
    let result = DocumentSplitter::validate_split_config(&document, &config(5));
    match result {
        Err(MarkdownSplitterError::SplitConfig { reason }) => {
            assert_eq!(reason, "Number of splits (5) cannot exceed total pages (3)");
        }
        _ => panic!("expected a configuration error"),
    }
}

#[test]
fn valid_config_is_accepted() {
    let document = sample_document(3);
    assert!(DocumentSplitter::validate_split_config(&document, &config(3)).is_ok());
}

#[test]
fn split_round_trip_reproduces_content() {
    let document = sample_document(10);
    let (result, parts) = DocumentSplitter::split_document(&document, &config(3)).unwrap();
    assert_eq!(result.split_number, 3);
    assert_eq!(result.pages_per_split, 4);
    assert_eq!(result.actual_pages, 10);
    assert_eq!(result.metadata_file, None);
    let mut joined = String::new();
    for part in &parts {
        joined.push_str(&part.content);
    }
    let mut unsplit = String::new();
    for page in &document.pages {
        unsplit.push_str(&page.content);
    }
    assert_eq!(joined, unsplit);
}

#[test]
fn preserved_structure_adds_header_and_separators() {
    let document = sample_document(4);
    let mut cfg = config(2);
    cfg.preserve_structure = true;
    cfg.include_metadata = true;
    let (result, parts) = DocumentSplitter::split_document(&document, &cfg).unwrap();
    assert_eq!(parts.len(), 2);
    assert_eq!(
        parts[0].content,
        "<!-- Split containing pages 1 to 2 -->\n\n\
         content of page 1\n\n---\n\ncontent of page 2"
    );
    assert_eq!(
        parts[1].content,
        "<!-- Split containing pages 3 to 4 -->\n\n\
         content of page 3\n\n---\n\ncontent of page 4"
    );
    assert_eq!(
        result.metadata_file.as_deref(),
        Some("./out/sample_metadata.json")
    );
}

#[test]
fn split_rejects_bad_requests() {
    let document = sample_document(2);
    assert!(DocumentSplitter::split_document(&document, &config(3)).is_err());
    assert!(DocumentSplitter::split_document(&document, &config(0)).is_err());
    assert!(DocumentSplitter::split_document(&document, &config(2)).is_ok());
}

#[test]
fn output_filenames_are_zero_padded() {
    let name = DocumentSplitter::generate_output_filename("./out", "report.md", 2, 10);
    assert_eq!(name, "./out/report_split_02_of_10.md");
    let name = DocumentSplitter::generate_output_filename("out/", "a/b/notes.txt", 3, 5);
    assert_eq!(name, "out/notes_split_3_of_5.md");
    let name = DocumentSplitter::generate_output_filename("", "archive.tar.gz", 12, 100);
    assert_eq!(name, "archive.tar_split_012_of_100.md");
}

#[test]
fn metadata_filename_uses_the_stem() {
    let name = DocumentSplitter::generate_metadata_filename("./out", "report.md");
    assert_eq!(name, "./out/report_metadata.json");
    let name = DocumentSplitter::generate_metadata_filename("o", "");
    assert_eq!(name, "o/document_metadata.json");
    let name = DocumentSplitter::generate_metadata_filename("o", ".hidden");
    assert_eq!(name, "o/.hidden_metadata.json");
}

#[test]
fn split_filenames_follow_the_pattern() {
    let document = sample_document(10);
    let (result, parts) = DocumentSplitter::split_document(&document, &config(3)).unwrap();
    let expected = vec![
        "./out/sample_split_1_of_3.md",
        "./out/sample_split_2_of_3.md",
        "./out/sample_split_3_of_3.md",
    ];
    assert_eq!(result.output_files, expected);
    for (part, name) in parts.iter().zip(expected.iter()) {
        assert_eq!(&part.filename, name);
    }
    assert_eq!(parts[0].start_page, 0);
    assert_eq!(parts[0].end_page, 4);
    assert_eq!(parts[2].start_page, 8);
    assert_eq!(parts[2].end_page, 10);
}
