use treeish::highlight::LanguageConfig;
use treeish::regions::{
    buffer_regions, language_for_mode, line_regions, protocol_version_matches, response_regions,
    theme_needs_reload, to_decimal,
};
use treeish::spans::Span;
use treeish::strmap::StrMap;

fn sp(start: usize, end: usize, style: &str) -> Span {
    Span { start, end, style: style.to_string() }
}

#[test]
fn decimal_numbers() {
    assert_eq!(to_decimal(0), "0");
    assert_eq!(to_decimal(7), "7");
    assert_eq!(to_decimal(10), "10");
    assert_eq!(to_decimal(1234567890), "1234567890");
}

#[test]
fn regions_shift_onto_buffer() {
    // prebuffer of 5 characters
    let spans = vec![sp(0, 3, "a"), sp(3, 7, "b"), sp(5, 9, "c"), sp(6, 6, "d")];
    assert_eq!(buffer_regions(&spans, 5, None), vec!["0 2 b", "0 4 c"]);
    assert_eq!(response_regions(&spans, 5), "0 2 b\n0 4 c");
    assert_eq!(response_regions(&vec![], 0), "");
}

#[test]
fn regions_through_theme() {
    let mut theme = StrMap::new();
    theme.insert("function".to_string(), "fg=#7aa2f7".to_string());
    let spans = vec![sp(0, 4, "function"), sp(5, 10, "string")];
    assert_eq!(buffer_regions(&spans, 0, Some(&theme)), vec!["0 4 fg=#7aa2f7"]);
}

#[test]
fn line_regions_mark_invalid_commands() {
    let mut theme = StrMap::new();
    theme.insert("function".to_string(), "fg=blue".to_string());
    theme.insert("command.invalid".to_string(), "fg=red".to_string());
    let spans = vec![sp(0, 3, "function"), sp(6, 9, "function")];
    let commands = vec![(0, 3, "foo".to_string()), (6, 9, "bar".to_string())];
    let valid = vec![true, false];
    assert_eq!(
        line_regions(&spans, &commands, &valid, 0, &theme),
        vec!["0 3 fg=blue", "6 9 fg=blue", "6 9 fg=red"]
    );
}

#[test]
fn modes_and_versions() {
    assert_eq!(language_for_mode("md"), LanguageConfig::Markdown);
    assert_eq!(language_for_mode("markdown"), LanguageConfig::Markdown);
    assert_eq!(language_for_mode("zsh"), LanguageConfig::Zsh);
    assert_eq!(language_for_mode("other"), LanguageConfig::Zsh);
    assert!(protocol_version_matches("2"));
    assert!(!protocol_version_matches("3"));
    assert!(theme_needs_reload(None, "a", false));
    assert!(theme_needs_reload(Some("a"), "b", false));
    assert!(theme_needs_reload(Some("a"), "a", true));
    assert!(!theme_needs_reload(Some("a"), "a", false));
}
