use markdown_splitter::fetcher::ContentFetcher;
use markdown_splitter::init;

#[test]
fn url_classification_goes_by_scheme_prefix() {
    assert!(ContentFetcher::is_url("http://example.com/doc.md"));
    assert!(ContentFetcher::is_url("https://example.com/doc.md"));
    assert!(!ContentFetcher::is_url("ftp://example.com/doc.md"));
    assert!(!ContentFetcher::is_url("notes/doc.md"));
    assert!(!ContentFetcher::is_url("http:/missing-slash"));
    assert!(!ContentFetcher::is_url(""));
}

#[test]
fn url_filename_is_the_last_path_segment() {
    assert_eq!(
        ContentFetcher::extract_filename_from_url("/docs/guide.md"),
        "guide.md"
    );
    assert_eq!(ContentFetcher::extract_filename_from_url("/"), "downloaded.md");
    assert_eq!(
        ContentFetcher::extract_filename_from_url("/a/b/"),
        "downloaded.md"
    );
    assert_eq!(ContentFetcher::extract_filename_from_url(""), "downloaded.md");
}

#[test]
fn init_is_callable() {
    init();
}
