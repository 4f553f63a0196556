//! The edited line as zsh shows it: the `region_highlight` entries of the
//! line, applied in order (a later entry wins over an earlier one on the
//! characters it covers; line ends are never coloured), rendered as
//! `<style>text</style>` markup. The
//! theme maps each capture name to itself, so that the markup names the
//! style each character ends up with.
use treeish::dynamic::PathType;
use treeish::highlight::{HighlightEngine, LanguageConfig};
use treeish::regions::{language_for_mode, line_regions};
use treeish::strmap::StrMap;

const TAGS: [&str; 23] = [
    "comment",
    "constant",
    "embedded",
    "function",
    "keyword",
    "number",
    "operator",
    "property",
    "punctuation.delimiter",
    "punctuation.special",
    "string",
    "string.escape",
    "text.emphasis",
    "text.literal",
    "text.reference",
    "text.strong",
    "text.title",
    "text.uri",
    "variable",
    "command.invalid",
    "error",
    "path",
    "path.directory",
];

/// The commands the shell of these cases knows: builtins, and functions
/// defined on the line itself.
const KNOWN_COMMANDS: [&str; 3] = ["echo", "true", "bar_does_not_exist"];

fn no_paths(_: &str) -> Option<PathType> {
    None
}

fn markup(buffer: &str, regions: &[String]) -> String {
    let chars: Vec<char> = buffer.chars().collect();
    let mut styles: Vec<Option<String>> = vec![None; chars.len()];
    for r in regions {
        let mut parts = r.splitn(3, ' ');
        let start: usize = parts.next().unwrap().parse().unwrap();
        let end: usize = parts.next().unwrap().parse().unwrap();
        let attr = parts.next().unwrap().to_string();
        for (i, s) in styles.iter_mut().enumerate().take(end.min(chars.len())).skip(start) {
            if chars[i] != '\n' {
                *s = Some(attr.clone());
            }
        }
    }
    let mut out = String::new();
    let mut i = 0;
    while i < chars.len() {
        match &styles[i] {
            None => {
                out.push(chars[i]);
                i += 1;
            }
            Some(tag) => {
                let tag = tag.clone();
                out.push_str(&format!("<{tag}>"));
                while i < chars.len() && styles[i].as_deref() == Some(tag.as_str()) {
                    out.push(chars[i]);
                    i += 1;
                }
                out.push_str(&format!("</{tag}>"));
            }
        }
    }
    out
}

fn highlight_markup_in_mode(buffer: &str, mode: &str) -> String {
    let engine = HighlightEngine::new().unwrap();
    let language = language_for_mode(mode);
    let spans = engine.highlight_with_pwd(language, buffer, Some("/tmp"), &no_paths).unwrap();
    let (commands, valid) = if language == LanguageConfig::Zsh {
        let commands = engine.extract_zsh_commands(buffer).unwrap();
        let valid: Vec<bool> = commands.iter().map(|(_, _, name)| KNOWN_COMMANDS.contains(&name.as_str())).collect();
        (commands, valid)
    } else {
        (Vec::new(), Vec::new())
    };
    let mut theme = StrMap::new();
    for tag in TAGS.iter() {
        theme.insert(tag.to_string(), tag.to_string());
    }
    let regions = line_regions(&spans, &commands, &valid, 0, &theme);
    markup(buffer, &regions)
}

fn highlight_markup(buffer: &str) -> String {
    highlight_markup_in_mode(buffer, "zsh")
}

#[test]
fn test_markdown_heading() {
    assert_eq!(
        highlight_markup_in_mode("# Hello World", "markdown"),
        "<punctuation.special>#</punctuation.special> <text.title>Hello World</text.title>"
    );
}

#[test]
fn test_markdown_bold_italic() {
    assert_eq!(
        highlight_markup_in_mode("**bold** and *italic*", "markdown"),
        "<punctuation.delimiter>**</punctuation.delimiter><text.strong>bold</text.strong><punctuation.delimiter>**</punctuation.delimiter> and <punctuation.delimiter>*</punctuation.delimiter><text.emphasis>italic</text.emphasis><punctuation.delimiter>*</punctuation.delimiter>"
    );
}

#[test]
fn test_markdown_multiline() {
    let multiline_buffer = "\
# Heading

- **bold** and *italic*
- inline `code`
- block:

```zsh
echo hello
```
";
    assert_eq!(
        highlight_markup_in_mode(multiline_buffer, "markdown"),
        "\
<punctuation.special>#</punctuation.special> <text.title>Heading</text.title>

<punctuation.special>- </punctuation.special><punctuation.delimiter>**</punctuation.delimiter><text.strong>bold</text.strong><punctuation.delimiter>**</punctuation.delimiter> and <punctuation.delimiter>*</punctuation.delimiter><text.emphasis>italic</text.emphasis><punctuation.delimiter>*</punctuation.delimiter>
<punctuation.special>- </punctuation.special>inline <punctuation.delimiter>`</punctuation.delimiter><text.literal>code</text.literal><punctuation.delimiter>`</punctuation.delimiter>
<punctuation.special>- </punctuation.special>block:

<punctuation.delimiter>```</punctuation.delimiter><text.literal>zsh</text.literal>
<function>echo</function><text.literal> hello</text.literal>
<punctuation.delimiter>```</punctuation.delimiter>
"
    );
}

#[test]
fn test_simple_command_with_comment() {
    assert_eq!(
        highlight_markup("echo hello # comment"),
        "<function>echo</function> hello <comment># comment</comment>"
    );
}

#[test]
fn test_invalid_command() {
    assert_eq!(
        highlight_markup("nonexistent_cmd_12345"),
        "<command.invalid>nonexistent_cmd_12345</command.invalid>"
    );
}

#[test]
fn test_double_quoted_string() {
    assert_eq!(
        highlight_markup("echo \"hello\""),
        "<function>echo</function> <string>\"hello\"</string>"
    );
}

#[test]
fn test_single_quoted_string() {
    assert_eq!(
        highlight_markup("echo 'world'"),
        "<function>echo</function> <string>'world'</string>"
    );
}

#[test]
fn test_keywords_control_structures() {
    assert_eq!(
        highlight_markup("if true; then echo yes; fi"),
        "<keyword>if</keyword> <function>true</function>; <keyword>then</keyword> <function>echo</function> yes; <keyword>fi</keyword>"
    );
}

#[test]
fn test_inline_function_definition() {
    assert_eq!(
        highlight_markup("bar_does_not_exist() { true; }; bar_does_not_exist"),
        "<function>bar_does_not_exist</function>() { <function>true</function>; }; <function>bar_does_not_exist</function>"
    );
}
