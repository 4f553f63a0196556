use treeish::dynamic::{dynamic_highlight_zsh, PathType};
use treeish::highlight::{
    all_capture_names, highlight_one_shot, sorted_unique, HighlightEngine, HighlightError, LanguageConfig, ParsedZsh,
};
use treeish::spans::{build_byte_to_char_table, Span};

fn no_paths(_: &str) -> Option<PathType> {
    None
}

fn engine() -> HighlightEngine {
    HighlightEngine::new_without_dynamic().unwrap()
}

fn spans_to_segments(spans: &[Span], source: &str) -> Vec<(String, String)> {
    spans
        .iter()
        .map(|s| {
            let text: String = source.chars().skip(s.start).take(s.end - s.start).collect();
            (text.to_string(), s.style.to_string())
        })
        .collect()
}

fn assert_highlights(source: &str, lang: LanguageConfig, expected: &[(&str, &str)]) {
    let e = engine();
    let spans = e.highlight(lang, source, &no_paths).unwrap();
    let expected_string: Vec<(String, String)> = expected
        .iter()
        .map(|(a, b)| (a.to_string(), b.to_string()))
        .collect();
    assert_eq!(spans_to_segments(&spans, source), expected_string);
}

fn assert_zsh_highlights(source: &str, expected: &[(&str, &str)]) {
    assert_highlights(source, LanguageConfig::Zsh, expected);
}

fn assert_md_highlights(source: &str, expected: &[(&str, &str)]) {
    assert_highlights(source, LanguageConfig::Markdown, expected);
}

#[test]
fn byte_to_char_with_ascii() {
    let t = build_byte_to_char_table("hello");
    assert_eq!(t, vec![0, 1, 2, 3, 4, 5]);
}

#[test]
fn byte_to_char_with_multi_byte() {
    let t = build_byte_to_char_table("aéb");
    assert_eq!(t, vec![0, 1, 1, 2, 3]);
}

#[test]
fn byte_to_char_with_emoji() {
    let t = build_byte_to_char_table("🐑");
    assert_eq!(t.len(), 5); // 4 bytes + 1
    assert_eq!(t[0], 0);
    assert_eq!(t[1], 0);
    assert_eq!(t[2], 0);
    assert_eq!(t[3], 0);
    assert_eq!(t[4], 1);
}

#[test]
fn snapshot_zsh_echo_hello() {
    assert_zsh_highlights("echo hello", &[("echo", "function")]);
}

#[test]
fn snapshot_zsh_combined_static_dynamic() {
    let e = HighlightEngine::new().unwrap();
    let spans = e.highlight(LanguageConfig::Zsh, "echo hello", &no_paths).unwrap();
    assert_eq!(
        spans_to_segments(&spans, "echo hello"),
        vec![("echo".to_string(), "function".to_string())]
    );
}

#[test]
fn snapshot_zsh_comment() {
    assert_zsh_highlights("# foo bar", &[("# foo bar", "comment")]);
}

#[test]
fn snapshot_zsh_quoted_string() {
    assert_zsh_highlights(
        r#"echo "hello world""#,
        &[("echo", "function"), ("\"hello world\"", "string")],
    );
}

#[test]
fn snapshot_zsh_variable() {
    assert_zsh_highlights("echo $HOME", &[("echo", "function")]);
}

#[test]
fn snapshot_zsh_subshell() {
    assert_zsh_highlights(
        "echo $(date)",
        &[
            ("echo", "function"),
            ("$(date)", "embedded"),
            ("date", "function"),
        ],
    );
}

#[test]
fn snapshot_zsh_pipe_redir() {
    assert_zsh_highlights(
        "cat file | grep foo > out.txt",
        &[
            ("cat", "function"),
            ("|", "operator"),
            ("grep", "function"),
            (">", "operator"),
        ],
    );
}

#[test]
fn snapshot_md_heading() {
    assert_md_highlights(
        "# Hello\n",
        &[("#", "punctuation.special"), ("Hello", "text.title")],
    );
}

#[test]
fn snapshot_md_bold() {
    assert_md_highlights(
        "**hello**\n",
        &[
            ("**hello**", "text.strong"),
            ("**", "punctuation.delimiter"),
            ("**", "punctuation.delimiter"),
        ],
    );
}

#[test]
fn snapshot_md_italic() {
    assert_md_highlights(
        "*hello*\n",
        &[
            ("*hello*", "text.emphasis"),
            ("*", "punctuation.delimiter"),
            ("*", "punctuation.delimiter"),
        ],
    );
}

#[test]
fn snapshot_md_inline_code() {
    assert_md_highlights(
        "use `cmd` here\n",
        &[
            ("`cmd`", "text.literal"),
            ("`", "punctuation.delimiter"),
            ("`", "punctuation.delimiter"),
        ],
    );
}

#[test]
fn snapshot_md_code_fence_zsh() {
    assert_md_highlights(
        "```zsh\necho hi\n```\n",
        &[
            ("```zsh\necho hi\n```\n", "text.literal"),
            ("```", "punctuation.delimiter"),
            ("echo", "function"),
            ("```", "punctuation.delimiter"),
        ],
    );
}

#[test]
fn snapshot_md_link() {
    assert_md_highlights(
        "[link](https://example.com)\n",
        &[
            ("[", "punctuation.delimiter"),
            ("link", "text.reference"),
            ("](", "punctuation.delimiter"),
            ("https://example.com", "text.uri"),
            (")", "punctuation.delimiter"),
        ],
    );
}

#[test]
fn snapshot_md_unordered_list() {
    assert_md_highlights(
        "- foo\n- bar\n",
        &[("- ", "punctuation.special"), ("- ", "punctuation.special")],
    );
}

#[test]
fn snapshot_md_task_list() {
    assert_md_highlights(
        "- [x] done\n- [ ] todo\n",
        &[("- ", "punctuation.special"), ("- ", "punctuation.special")],
    );
}

#[test]
fn highlight_md_code_block_with_zsh_injection() {
    let e = engine();
    let source = "```zsh\necho hi\n```";
    let spans = e.highlight(LanguageConfig::Markdown, source, &no_paths).unwrap();
    // Should contain zsh-style highlighting inside the code block
    let segments = spans_to_segments(&spans, source);
    assert!(
        segments.iter().any(|(text, style)| text == "echo" && style == "function"),
        "expected zsh-style span for 'echo', got: {:?}",
        segments
    );
}

#[test]
fn all_capture_names_have_theme_entries() {
    let e = engine();
    let names = all_capture_names(&e);
    // With semantic names, every capture should have a non-empty name.
    assert!(
        names.iter().all(|n| !n.is_empty()),
        "empty capture names found: {:?}",
        names
    );
}

#[test]
fn dynamic_existing_path() {
    let source = "cat /etc/passwd";
    let resolve_path = |_: &str| Some(PathType::File);
    let tree = ParsedZsh::parse(source).unwrap();
    let spans = dynamic_highlight_zsh(&tree, source, &resolve_path).unwrap();
    assert!(
        spans.iter().any(|s| s.style == "path"),
        "expected path span for existing file"
    );
}

#[test]
fn dynamic_spans_through_the_engine() {
    let source = "cat /etc/passwd";
    let e = HighlightEngine::new().unwrap();
    let spans = e
        .highlight(LanguageConfig::Zsh, source, &|_: &str| Some(PathType::File))
        .unwrap();
    assert!(spans.contains(&Span { start: 4, end: 15, style: "path".to_string() }));
    let none = e.highlight(LanguageConfig::Zsh, source, &no_paths).unwrap();
    assert!(!none.iter().any(|s| s.style == "path"));
}

// --- More cases ---

#[test]
fn capture_names_sorted_and_distinct() {
    let names = all_capture_names(&engine());
    for w in names.windows(2) {
        assert!(w[0] < w[1]);
    }
    assert!(names.iter().any(|n| n == "function"));
}

#[test]
fn dynamic_paths_with_pwd() {
    let e = engine();
    let source = "ls ./src docs/x plain";
    let probe = |p: &str| if p == "./src" { Some(PathType::Directory) } else if p == "docs/x" { Some(PathType::File) } else { None };
    // Without a working directory the engine (static only) adds no path span.
    let plain = e.highlight_with_pwd(LanguageConfig::Zsh, source, None, &probe).unwrap();
    assert!(plain.iter().all(|s| !s.style.starts_with("path")));
    let spans = e.highlight_with_pwd(LanguageConfig::Zsh, source, Some("/tmp"), &probe).unwrap();
    let segs = spans_to_segments(&spans, source);
    assert!(segs.contains(&("./src".to_string(), "path.directory".to_string())));
    assert!(segs.contains(&("docs/x".to_string(), "path".to_string())));
    assert!(!segs.iter().any(|(t, _)| t == "plain"));
}

#[test]
fn multibyte_offsets_are_characters() {
    let e = engine();
    let spans = e.highlight(LanguageConfig::Zsh, "echo café; ls", &no_paths).unwrap();
    let segs = spans_to_segments(&spans, "echo café; ls");
    assert!(segs.contains(&("ls".to_string(), "function".to_string())));
    let ls = spans.iter().find(|s| s.start == 11).unwrap();
    assert_eq!(ls.end, 13);
}

#[test]
fn extract_commands() {
    let e = engine();
    let cmds = e.extract_zsh_commands("echo hi | grep h").unwrap();
    let names: Vec<&str> = cmds.iter().map(|(_, _, n)| n.as_str()).collect();
    assert_eq!(names, vec!["echo", "grep"]);
    assert_eq!((cmds[1].0, cmds[1].1), (10, 14));
}

#[test]
fn one_shot_highlight() {
    let spans = highlight_one_shot(LanguageConfig::Zsh, "echo hello", &no_paths).unwrap();
    assert_eq!(spans_to_segments(&spans, "echo hello"), vec![("echo".to_string(), "function".to_string())]);
}

#[test]
fn markdown_without_shell_language_has_no_injection() {
    let e = engine();
    let source = "```python\necho hi\n```\n";
    let spans = e.highlight(LanguageConfig::Markdown, source, &no_paths).unwrap();
    let segs = spans_to_segments(&spans, source);
    assert!(!segs.iter().any(|(_, style)| style == "function"));
}

#[test]
fn sorted_unique_orders_and_dedups() {
    let names: Vec<String> = ["text.title", "comment", "text.title", "Zeta", "comment", "a"].iter().map(|s| s.to_string()).collect();
    assert_eq!(sorted_unique(&names), vec!["Zeta", "a", "comment", "text.title"]);
    assert!(sorted_unique(&Vec::new()).is_empty());
}

#[test]
fn highlight_error_messages() {
    assert_eq!(HighlightError::ZshParse.message(), "zsh parsing failed");
    assert_eq!(HighlightError::MarkdownParse.message(), "markdown parsing failed");
    assert_eq!(HighlightError::ZshQuery.message(), "failed to create zsh highlight query");
}

#[test]
fn working_directory_only_touches_zsh_paths() {
    let e = engine();
    let md = "# Title /etc/passwd\n";
    let all_files = |_: &str| Some(PathType::File);
    assert_eq!(
        e.highlight_with_pwd(LanguageConfig::Markdown, md, Some("/"), &all_files).unwrap(),
        e.highlight(LanguageConfig::Markdown, md, &no_paths).unwrap()
    );
    assert_eq!(
        e.highlight_with_pwd(LanguageConfig::Zsh, "echo hi", None, &all_files).unwrap(),
        e.highlight(LanguageConfig::Zsh, "echo hi", &no_paths).unwrap()
    );
}

#[test]
fn markdown_spans_lie_in_text_in_order() {
    let e = engine();
    let source = "# Title\n\nSome **bold** and `code` text.\n\n```sh\nls -la | grep x\n```\n\n- item with [link](https://x.y)";
    let spans = e.highlight(LanguageConfig::Markdown, source, &no_paths).unwrap();
    // The parsed text gets a newline at its end when the source has none.
    let n = source.chars().count() + 1;
    assert!(!spans.is_empty());
    for s in &spans {
        assert!(s.start <= s.end && s.end <= n, "span out of text: {:?}", s);
        assert!(s.style != "none" && s.style != "injection.content" && s.style != "injection.language", "meta span: {:?}", s);
    }
    for w in spans.windows(2) {
        assert!(w[0].start <= w[1].start, "spans out of order: {:?}", w);
        assert!(!(w[0].end == w[1].start && w[0].style == w[1].style), "mergeable neighbours: {:?}", w);
    }
}

#[test]
fn markdown_without_shell_blocks_has_no_empty_or_meta_spans() {
    let e = engine();
    let source = "## Notes\n\n*one* and __two__ with `x`\n\n```rust\nfn main() {}\n```\n";
    let spans = e.highlight(LanguageConfig::Markdown, source, &no_paths).unwrap();
    assert!(!spans.is_empty());
    for s in &spans {
        assert!(s.start < s.end, "empty span: {:?}", s);
        assert!(s.style != "none" && s.style != "injection.content" && s.style != "injection.language", "meta span: {:?}", s);
    }
}

#[test]
fn capture_names_of_the_bundled_queries() {
    let names = all_capture_names(&engine());
    let expected = [
        "comment",
        "constant",
        "embedded",
        "function",
        "injection.content",
        "injection.language",
        "keyword",
        "none",
        "number",
        "operator",
        "property",
        "punctuation.delimiter",
        "punctuation.special",
        "string",
        "string.escape",
        "text.emphasis",
        "text.literal",
        "text.reference",
        "text.strong",
        "text.title",
        "text.uri",
    ];
    assert_eq!(names, expected.iter().map(|s| s.to_string()).collect::<Vec<_>>());
}
