use treeish::theme::{tokyonight_dark, Style, Theme};

#[test]
fn style_to_ansi_full() {
    let s = Style::new()
        .fg("#c099ff")
        .bg("#1a1b26")
        .bold()
        .italic()
        .underline()
        .strikethrough();
    assert_eq!(
        s.to_ansi(),
        "fg=#c099ff,bg=#1a1b26,bold,italic,underline,strikethrough"
    );
}

#[test]
fn style_to_ansi_empty() {
    assert_eq!(Style::new().to_ansi(), "");
}

#[test]
fn tokyonight_has_keyword() {
    let t = tokyonight_dark();
    let s = t.get("keyword").unwrap();
    assert_eq!(s.foreground, Some("#c099ff".to_string()));
    assert!(!s.bold);
}

#[test]
fn tokyonight_has_markup_heading() {
    let t = tokyonight_dark();
    let s = t.get("markup.heading").unwrap();
    assert_eq!(s.foreground, Some("#7aa2f7".to_string()));
    assert!(s.bold);
}

#[test]
fn tokyonight_theme_covers_all_query_captures() {
    let t = tokyonight_dark();
    let required = vec![
        "keyword", "string", "comment", "function", "property", "number",
        "operator", "constant", "embedded", "punctuation", "punctuation.bracket",
        "punctuation.delimiter", "punctuation.special", "text.title",
        "text.literal", "text.emphasis", "text.strong", "text.uri",
        "text.reference", "string.escape", "none", "markup.heading",
        "markup.strong", "markup.italic", "markup.link", "markup.raw",
        "markup.raw.inline", "markup.list", "markup.list.checked",
        "markup.list.unchecked", "variable", "variable.builtin", "type",
        "type.builtin",
    ];
    for name in required {
        assert!(t.get(name).is_some(), "theme missing capture: {name}");
    }
}

#[test]
fn style_to_ansi_partial() {
    assert_eq!(Style::new().fg("#123456").underline().to_ansi(), "fg=#123456,underline");
    assert_eq!(Style::new().italic().to_ansi(), "italic");
    assert_eq!(Style::default().to_ansi(), "");
}

#[test]
fn theme_insert_keeps_first_order_and_overrides() {
    let mut t = Theme::new();
    t.insert("a", Style::new().bold());
    t.insert("b", Style::new());
    t.insert("a", Style::new().italic());
    assert_eq!(t.names(), vec!["a".to_string(), "b".to_string()]);
    assert!(t.get("a").unwrap().italic);
    assert!(!t.get("a").unwrap().bold);
    assert!(t.style_by_index(0).unwrap().italic);
    assert!(t.style_by_index(2).is_none());
    assert!(t.get("c").is_none());
}

#[test]
fn tokyonight_first_names() {
    let t = tokyonight_dark();
    let names = t.names();
    assert_eq!(names.len(), 36);
    assert_eq!(names[0], "keyword");
    assert_eq!(t.style_by_index(0).unwrap().to_ansi(), "fg=#c099ff");
    assert_eq!(t.get("markup.raw.inline").unwrap().to_ansi(), "fg=#7aa2f7,bg=#414868");
}
