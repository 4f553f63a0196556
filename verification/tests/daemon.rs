//! The daemon's answer to a request, computed the way it handles a
//! connection: version check, language from the mode, highlighting of
//! prebuffer and buffer with the working directory, regions on the buffer.
use treeish::dynamic::PathType;
use treeish::highlight::HighlightEngine;
use treeish::regions::{language_for_mode, protocol_version_matches, response_regions};

fn no_paths(_: &str) -> Option<PathType> {
    None
}

fn send_request(ver: &str, lang: &str, pwd: &str, prebuffer: &str, buffer: &str) -> Vec<String> {
    if !protocol_version_matches(ver) {
        return Vec::new();
    }
    let engine = HighlightEngine::new().unwrap();
    let language = language_for_mode(lang);
    let full_source = format!("{prebuffer}{buffer}");
    let spans = engine.highlight_with_pwd(language, &full_source, Some(pwd), &no_paths).unwrap();
    let regions = response_regions(&spans, prebuffer.chars().count());
    if regions.is_empty() {
        Vec::new()
    } else {
        regions.lines().map(|s| s.to_owned()).collect()
    }
}

#[test]
fn test_daemon_highlight_zsh() {
    let responses = send_request("2", "zsh", "/tmp", "", "echo hello");
    assert!(!responses.is_empty(), "expected at least one span");
    let first = &responses[0];
    let parts: Vec<&str> = first.split_whitespace().collect();
    assert_eq!(parts.len(), 3, "expected 'start end style' format");
    assert_eq!(parts[0], "0");
    assert_eq!(parts[1], "4");
}

#[test]
fn test_daemon_highlight_markdown() {
    let responses = send_request("2", "md", "/tmp", "", "# Hello");
    assert!(!responses.is_empty(), "expected at least one span for markdown heading");
    let first = &responses[0];
    let parts: Vec<&str> = first.split_whitespace().collect();
    assert_eq!(parts.len(), 3);
    // Markdown heading: first span is the '#' marker
    assert_eq!(parts[0], "0");
    assert_eq!(parts[1], "1");
}

#[test]
fn test_daemon_multibyte_buffer() {
    let responses = send_request("2", "zsh", "/tmp", "", "echo café");
    assert!(!responses.is_empty(), "expected at least one span for multibyte buffer");
}

#[test]
fn test_daemon_multibyte_prebuffer() {
    let responses = send_request("2", "zsh", "/tmp", "café", "echo hello");
    assert!(!responses.is_empty(), "expected at least one span with multibyte prebuffer");
    let first = &responses[0];
    let parts: Vec<&str> = first.split_whitespace().collect();
    assert_eq!(parts[0], "0", "first span should start at 0 (buffer-relative)");
}

#[test]
fn daemon_ignores_other_protocol_versions() {
    assert!(send_request("3", "zsh", "/tmp", "", "echo hello").is_empty());
    assert!(send_request("", "zsh", "/tmp", "", "echo hello").is_empty());
}

#[test]
fn daemon_regions_of_a_continued_line() {
    // "abcé\n" is five characters; the buffer's regions are counted from its start.
    let responses = send_request("2", "zsh", "/", "abcé\n", "echo hello");
    assert_eq!(responses, vec!["0 4 function".to_string()]);
}
