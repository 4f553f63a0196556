use treeish::theme_file::{
    convert_styles, entries_by_key, get_lookup_keys, get_style, load_theme_file, resolve_color, translate_style,
    FileStyle, StyleValue, ThemeFile,
};

fn palette(pairs: &[(&str, &str)]) -> Vec<(String, String)> {
    pairs.iter().map(|(k, v)| (k.to_string(), v.to_string())).collect()
}

fn simple(c: &str) -> StyleValue {
    StyleValue::Simple(c.to_string())
}

fn full(fg: Option<&str>, bg: Option<&str>, mods: Option<&[&str]>, underline: bool) -> StyleValue {
    StyleValue::Full(FileStyle {
        fg: fg.map(|s| s.to_string()),
        bg: bg.map(|s| s.to_string()),
        modifiers: mods.map(|m| m.iter().map(|s| s.to_string()).collect()),
        underline,
    })
}

fn styles(entries: Vec<(&str, StyleValue)>) -> Vec<(String, StyleValue)> {
    entries.into_iter().map(|(k, v)| (k.to_string(), v)).collect()
}

#[test]
fn test_resolve_color() {
    let palette = palette(&[("red", "#ff0000")]);

    assert_eq!(resolve_color("#00ff00", &palette), "#00ff00");
    assert_eq!(resolve_color("red", &palette), "#ff0000");
    assert_eq!(resolve_color("blue", &palette), "blue");
}

#[test]
fn translate_simple_and_full() {
    let pal = palette(&[("grey", "#5C6370"), ("red", "#E06C75")]);
    assert_eq!(translate_style(&simple("grey"), &pal).unwrap(), "fg=#5C6370");
    assert_eq!(
        translate_style(&full(Some("grey"), None, Some(&["italic"]), false), &pal).unwrap(),
        "fg=#5C6370,italic"
    );
    assert_eq!(
        translate_style(&full(Some("red"), Some("#000"), Some(&["bold", "blink", "underlined", "dim"]), true), &pal)
            .unwrap(),
        "fg=#E06C75,bg=#000,bold,underline,dim"
    );
    assert_eq!(translate_style(&full(None, None, None, true), &pal).unwrap(), "underline");
    assert!(translate_style(&full(None, None, Some(&["blink"]), false), &pal).is_none());
    assert!(translate_style(&StyleValue::PaletteList(vec!["a".to_string()]), &pal).is_none());
}

#[test]
fn get_style_fallbacks() {
    let pal = palette(&[("blue", "#61AFEF")]);
    let st = styles(vec![
        ("function", simple("blue")),
        ("error", full(Some("#E06C75"), None, Some(&["bold"]), false)),
    ]);
    assert_eq!(get_style("function", &st, &pal).unwrap(), "fg=#61AFEF");
    assert_eq!(get_style("command.invalid", &st, &pal).unwrap(), "fg=#E06C75,bold");
    assert_eq!(get_style("path", &st, &pal).unwrap(), "underline");
    assert_eq!(get_style("path.directory", &st, &pal).unwrap(), "underline,fg=#61AFEF");
    assert!(get_style("keyword", &st, &pal).is_none());
    let bare = styles(vec![]);
    assert_eq!(get_style("path.directory", &bare, &pal).unwrap(), "underline");
    assert!(get_style("command.invalid", &bare, &pal).is_none());
}

#[test]
fn path_directory_prefers_ui_text_directory() {
    let pal = palette(&[]);
    let st = styles(vec![
        ("function", simple("#111111")),
        ("ui.text.directory", full(None, Some("#222222"), Some(&["bold"]), false)),
    ]);
    // The first directory key with a style has no fg=, so no colour is added.
    assert_eq!(get_style("path.directory", &st, &pal).unwrap(), "underline");
    let st2 = styles(vec![
        ("ui.text.directory", StyleValue::PaletteList(vec![])),
        ("function", full(Some("#111111"), Some("#222222"), None, false)),
    ]);
    assert_eq!(get_style("path.directory", &st2, &pal).unwrap(), "underline,fg=#111111");
}

fn theme(inherits: Option<&str>, pal: &[(&str, &str)], st: Vec<(&str, StyleValue)>) -> ThemeFile {
    ThemeFile { inherits: inherits.map(|s| s.to_string()), palette: palette(pal), styles: styles(st) }
}

fn read_fixture(path: &str) -> Result<ThemeFile, String> {
    match path {
        "themes/child.toml" => Ok(theme(Some("parent"), &[("overlay2", "#949cbb")], vec![])),
        "themes/parent.toml" => Ok(theme(
            None,
            &[("overlay2", "#9399b2"), ("blue", "#89b4fa")],
            vec![
                ("comment", full(Some("overlay2"), None, Some(&["italic"]), false)),
                ("function", simple("blue")),
            ],
        )),
        "themes/loop.toml" => Ok(theme(Some("loop"), &[], vec![])),
        "orphan.toml" => Ok(theme(Some("x"), &[], vec![])),
        "/" => Ok(theme(Some("x"), &[], vec![])),
        other => Err(format!("failed to read theme file '{}': not found", other)),
    }
}

#[test]
fn load_inherited_theme_uses_child_palette() {
    let cache = load_theme_file("themes/child.toml", &read_fixture).unwrap();
    assert_eq!(cache.get("comment").unwrap(), "fg=#949cbb,italic");
    assert_eq!(cache.get("function").unwrap(), "fg=#89b4fa");
    assert_eq!(cache.get("path").unwrap(), "underline");
    assert_eq!(cache.get("path.directory").unwrap(), "underline,fg=#89b4fa");
    assert!(cache.get("keyword").is_none());
}

#[test]
fn load_theme_errors() {
    assert_eq!(
        load_theme_file("themes/loop.toml", &read_fixture).err().unwrap(),
        "theme inheritance depth exceeded limit of 10"
    );
    assert_eq!(
        load_theme_file("themes/missing.toml", &read_fixture).err().unwrap(),
        "failed to read theme file 'themes/missing.toml': not found"
    );
    assert_eq!(
        load_theme_file("themes/child.toml", &|p: &str| if p == "themes/child.toml" {
            read_fixture(p)
        } else {
            Err("nope".to_string())
        })
        .err()
        .unwrap(),
        "nope"
    );
    // the parent of a bare file name is found in the current directory
    assert_eq!(
        load_theme_file("orphan.toml", &read_fixture).err().unwrap(),
        "failed to read theme file 'x.toml': not found"
    );
    assert_eq!(
        load_theme_file("/", &read_fixture).err().unwrap(),
        "failed to get parent directory of '/'"
    );
}

#[test]
fn lookup_keys() {
    assert_eq!(get_lookup_keys("text.title"), vec!["text.title", "markup.heading", "markup.heading.1"]);
    assert_eq!(get_lookup_keys("punctuation.special"), vec!["punctuation.special", "special", "punctuation"]);
    assert_eq!(get_lookup_keys("comment"), vec!["comment"]);
}

#[test]
fn convert_picks_first_found_key() {
    let st = styles(vec![
        ("markup.heading.1", simple("#aaaaaa")),
        ("special", simple("#bbbbbb")),
        ("punctuation", simple("#cccccc")),
        ("error", simple("#dddddd")),
        ("ui.text.directory", simple("#eeeeee")),
    ]);
    let out = convert_styles(&st);
    let keys: Vec<&str> = out.iter().map(|(k, _)| k.as_str()).collect();
    assert_eq!(
        keys,
        vec!["embedded", "punctuation.delimiter", "punctuation.special", "text.title", "command.invalid", "path.directory"]
    );
    match &out[2].1 {
        StyleValue::Simple(c) => assert_eq!(c, "#bbbbbb"),
        _ => panic!("expected a simple colour"),
    }
}

#[test]
fn entries_by_key_sorts_and_keeps_first() {
    let entries = vec![
        ("red".to_string(), "#ff0000".to_string()),
        ("blue".to_string(), "#0000ff".to_string()),
        ("red".to_string(), "#880000".to_string()),
        ("green".to_string(), "#00ff00".to_string()),
    ];
    let sorted = entries_by_key(entries);
    assert_eq!(
        sorted,
        vec![
            ("blue".to_string(), "#0000ff".to_string()),
            ("green".to_string(), "#00ff00".to_string()),
            ("red".to_string(), "#ff0000".to_string()),
        ]
    );
    assert!(entries_by_key(Vec::<(String, u8)>::new()).is_empty());
}

#[test]
fn empty_theme_still_styles_paths() {
    let cache = load_theme_file("empty.toml", &|_: &str| Ok(theme(None, &[], vec![]))).unwrap();
    assert_eq!(cache.len(), 2);
    assert_eq!(cache.get("path").unwrap(), "underline");
    assert_eq!(cache.get("path.directory").unwrap(), "underline");
}

#[test]
fn underline_appears_once() {
    let pal = palette(&[]);
    assert_eq!(
        translate_style(&full(None, Some("#101010"), Some(&["underline", "italic"]), true), &pal).unwrap(),
        "bg=#101010,underline,italic"
    );
    assert_eq!(translate_style(&full(Some("#202020"), None, Some(&["dim"]), true), &pal).unwrap(), "fg=#202020,dim,underline");
}

#[test]
fn load_errors_come_from_the_reader() {
    let reader = |p: &str| -> Result<ThemeFile, String> {
        if p == "a/top.toml" {
            Ok(theme(Some("mid"), &[], vec![]))
        } else {
            Err(format!("failed to parse theme file '{}'", p))
        }
    };
    assert_eq!(load_theme_file("a/top.toml", &reader).err().unwrap(), "failed to parse theme file 'a/mid.toml'");
}
