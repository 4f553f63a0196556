//! Styles for zsh's `region_highlight`, and the built-in Tokyonight theme.
use vstd::prelude::*;

use crate::strmap::{
    entries_map, keys_unique, lemma_entries_map_dom, lemma_entries_map_get, lemma_entries_map_update,
};
use crate::text::{concat, join_commas, join_with_commas, opt_string_view, views};

verus! {

/// A `region_highlight` style: colours and text attributes.
#[derive(Debug, Clone, PartialEq, Eq)]
pub struct Style {
    pub foreground: Option<String>,
    pub background: Option<String>,
    pub bold: bool,
    pub italic: bool,
    pub underline: bool,
    pub strikethrough: bool,
}

/// The value a `Style` denotes.
pub struct StyleView {
    pub foreground: Option<Seq<char>>,
    pub background: Option<Seq<char>>,
    pub bold: bool,
    pub italic: bool,
    pub underline: bool,
    pub strikethrough: bool,
}

impl View for Style {
    type V = StyleView;

    open spec fn view(&self) -> StyleView {
        StyleView {
            foreground: opt_string_view(self.foreground),
            background: opt_string_view(self.background),
            bold: self.bold,
            italic: self.italic,
            underline: self.underline,
            strikethrough: self.strikethrough,
        }
    }
}

/// The style with no colour and no attribute.
pub open spec fn plain_style() -> StyleView {
    StyleView { foreground: None, background: None, bold: false, italic: false, underline: false, strikethrough: false }
}

/// The parts of a style's `region_highlight` attribute string, in order.
pub open spec fn ansi_parts(s: StyleView) -> Seq<Seq<char>> {
    let fg = match s.foreground {
        Some(c) => seq!["fg="@ + c],
        None => Seq::empty(),
    };
    let bg = match s.background {
        Some(c) => seq!["bg="@ + c],
        None => Seq::empty(),
    };
    let bold = if s.bold { seq!["bold"@] } else { Seq::empty() };
    let italic = if s.italic { seq!["italic"@] } else { Seq::empty() };
    let underline = if s.underline { seq!["underline"@] } else { Seq::empty() };
    let strike = if s.strikethrough { seq!["strikethrough"@] } else { Seq::empty() };
    fg + bg + bold + italic + underline + strike
}

/// A style's `region_highlight` attribute string: its parts joined with `,`.
pub open spec fn spec_to_ansi(s: StyleView) -> Seq<char> {
    join_commas(ansi_parts(s))
}

impl Style {
    /// The style with no colour and no attribute.
    pub fn new() -> (s: Style)
        ensures
            s@ == plain_style(),
    {
        Style { foreground: None, background: None, bold: false, italic: false, underline: false, strikethrough: false }
    }

    /// This style with foreground colour `color`.
    pub fn fg(self, color: &str) -> (s: Style)
        ensures
            s@ == (StyleView { foreground: Some(color@), ..self@ }),
    {
        Style { foreground: Some(String::from_str(color)), ..self }
    }

    /// This style with background colour `color`.
    pub fn bg(self, color: &str) -> (s: Style)
        ensures
            s@ == (StyleView { background: Some(color@), ..self@ }),
    {
        Style { background: Some(String::from_str(color)), ..self }
    }

    /// This style, bold.
    pub fn bold(self) -> (s: Style)
        ensures
            s@ == (StyleView { bold: true, ..self@ }),
    {
        Style { bold: true, ..self }
    }

    /// This style, italic.
    pub fn italic(self) -> (s: Style)
        ensures
            s@ == (StyleView { italic: true, ..self@ }),
    {
        Style { italic: true, ..self }
    }

    /// This style, underlined.
    pub fn underline(self) -> (s: Style)
        ensures
            s@ == (StyleView { underline: true, ..self@ }),
    {
        Style { underline: true, ..self }
    }

    /// This style, struck through.
    pub fn strikethrough(self) -> (s: Style)
        ensures
            s@ == (StyleView { strikethrough: true, ..self@ }),
    {
        Style { strikethrough: true, ..self }
    }

    /// Renders the style as a zsh `region_highlight` attribute string, such as
    /// `fg=#c099ff,bg=#1a1b26,bold`.
    pub fn to_ansi(&self) -> (r: String)
        ensures
            r@ == spec_to_ansi(self@),
    {
        let mut parts: Vec<String> = Vec::new();
        let ghost mut expect: Seq<Seq<char>> = Seq::empty();
        if let Some(fg) = &self.foreground {
            parts.push(concat("fg=", fg.as_str()));
            proof {
                expect = expect + seq!["fg="@ + fg@];
            }
        }
        if let Some(bg) = &self.background {
            parts.push(concat("bg=", bg.as_str()));
            proof {
                expect = expect + seq!["bg="@ + bg@];
            }
        }
        if self.bold {
            parts.push(String::from_str("bold"));
            proof {
                expect = expect + seq!["bold"@];
            }
        }
        if self.italic {
            parts.push(String::from_str("italic"));
            proof {
                expect = expect + seq!["italic"@];
            }
        }
        if self.underline {
            parts.push(String::from_str("underline"));
            proof {
                expect = expect + seq!["underline"@];
            }
        }
        if self.strikethrough {
            parts.push(String::from_str("strikethrough"));
            proof {
                expect = expect + seq!["strikethrough"@];
            }
        }
        assert(views(parts@) =~= expect);
        assert(expect =~= ansi_parts(self@));
        join_with_commas(&parts)
    }
}

impl Default for Style {
    fn default() -> (s: Style)
        ensures
            s@ == plain_style(),
    {
        Style::new()
    }
}

// ---------------------------------------------------------------------------
// Themes
// ---------------------------------------------------------------------------

/// Maps tree-sitter capture names to styles, remembering the order in which
/// names were first given a style.
#[derive(Debug, PartialEq, Eq)]
pub struct Theme {
    entries: Vec<(String, Style)>,
}

/// What a theme denotes: its names in first-insertion order, and the style of each.
pub struct ThemeView {
    pub names: Seq<Seq<char>>,
    pub styles: Map<Seq<char>, StyleView>,
}

/// The names of a theme's entries, in order.
pub open spec fn entry_names(s: Seq<(String, Style)>) -> Seq<Seq<char>> {
    s.map_values(|e: (String, Style)| e.0@)
}

impl View for Theme {
    type V = ThemeView;

    closed spec fn view(&self) -> ThemeView {
        ThemeView { names: entry_names(self.entries@), styles: entries_map(self.entries@) }
    }
}

impl Theme {
    #[verifier::type_invariant]
    spec fn inv(&self) -> bool {
        keys_unique(self.entries@)
    }

    /// A theme with no style.
    pub fn new() -> (t: Theme)
        ensures
            t@.names == Seq::<Seq<char>>::empty(),
            t@.styles == Map::<Seq<char>, StyleView>::empty(),
    {
        Theme { entries: Vec::new() }
    }

    /// Gives `name` the style `style`; a new name goes to the end of the names.
    pub fn insert(&mut self, name: &str, style: Style)
        ensures
            final(self)@.styles == old(self)@.styles.insert(name@, style@),
            final(self)@.names == if old(self)@.styles.dom().contains(name@) {
                old(self)@.names
            } else {
                old(self)@.names.push(name@)
            },
    {
        proof {
            use_type_invariant(&*self);
        }
        let key = String::from_str(name);
        let ghost k = key@;
        let mut entries: Vec<(String, Style)> = Vec::new();
        std::mem::swap(&mut entries, &mut self.entries);
        let ghost s = entries@;
        let mut i: usize = 0;
        while i < entries.len()
            invariant
                entries@ == s,
                keys_unique(s),
                k == name@,
                key@ == k,
                0 <= i <= s.len(),
                entries_map(s) == old(self)@.styles,
                entry_names(s) == old(self)@.names,
                forall|j: int| 0 <= j < i ==> #[trigger] s[j].0@ != k,
            decreases s.len() - i,
        {
            let same = entries[i].0.eq(&key);
            if same {
                proof {
                    lemma_entries_map_update(s, i as int, (key, style));
                    lemma_entries_map_get(s, i as int);
                    assert(entry_names(s.update(i as int, (key, style))) =~= entry_names(s));
                }
                entries.set(i, (key, style));
                self.entries = entries;
                return;
            }
            i = i + 1;
        }
        proof {
            lemma_entries_map_dom(s, k);
        }
        entries.push((key, style));
        proof {
            let t = s.push((key, style));
            assert(t.drop_last() == s);
            assert(entry_names(t) =~= entry_names(s).push(k));
            assert(keys_unique(t)) by {
                assert forall|a: int, b: int| 0 <= a < b < t.len() implies #[trigger] t[a].0@ != #[trigger] t[b].0@ by {
                    if b < s.len() {
                        assert(s[a].0@ != s[b].0@);
                    } else {
                        assert(s[a].0@ != k);
                    }
                }
            }
        }
        self.entries = entries;
    }

    /// The style of `name`, if it has one.
    pub fn get(&self, name: &str) -> (r: Option<&Style>)
        ensures
            r is Some <==> self@.styles.dom().contains(name@),
            r matches Some(s) ==> s@ == self@.styles[name@],
    {
        proof {
            use_type_invariant(self);
        }
        let k = String::from_str(name);
        let mut i: usize = 0;
        while i < self.entries.len()
            invariant
                0 <= i <= self.entries@.len(),
                keys_unique(self.entries@),
                k@ == name@,
                forall|j: int| 0 <= j < i ==> #[trigger] self.entries@[j].0@ != name@,
            decreases self.entries@.len() - i,
        {
            if self.entries[i].0.eq(&k) {
                proof {
                    lemma_entries_map_get(self.entries@, i as int);
                }
                return Some(&self.entries[i].1);
            }
            i = i + 1;
        }
        proof {
            lemma_entries_map_dom(self.entries@, name@);
        }
        None
    }

    /// The names, in the order they were first given a style.
    pub fn names(&self) -> (r: Vec<String>)
        ensures
            views(r@) == self@.names,
    {
        let mut r: Vec<String> = Vec::new();
        let mut i: usize = 0;
        while i < self.entries.len()
            invariant
                0 <= i <= self.entries@.len(),
                views(r@) == entry_names(self.entries@).take(i as int),
            decreases self.entries@.len() - i,
        {
            r.push(self.entries[i].0.clone());
            proof {
                assert(entry_names(self.entries@).take(i + 1) =~= entry_names(self.entries@).take(i as int).push(self.entries@[i as int].0@));
                assert(views(r@) =~= views(r@).drop_last().push(r@.last()@));
            }
            i = i + 1;
        }
        assert(entry_names(self.entries@).take(i as int) =~= entry_names(self.entries@));
        r
    }

    /// The style of the name at position `index` of `names()`.
    pub fn style_by_index(&self, index: usize) -> (r: Option<&Style>)
        ensures
            r is Some <==> index < self@.names.len(),
            r matches Some(s) ==> s@ == self@.styles[self@.names[index as int]],
    {
        proof {
            use_type_invariant(self);
        }
        if index < self.entries.len() {
            proof {
                lemma_entries_map_get(self.entries@, index as int);
            }
            Some(&self.entries[index].1)
        } else {
            None
        }
    }
}

impl Default for Theme {
    fn default() -> (t: Theme)
        ensures
            t@.names == Seq::<Seq<char>>::empty(),
            t@.styles == Map::<Seq<char>, StyleView>::empty(),
    {
        Theme::new()
    }
}

// ---------------------------------------------------------------------------
// The built-in theme
// ---------------------------------------------------------------------------

/// The names of the zsh captures of the built-in theme, in order.
pub open spec fn tokyonight_zsh_names() -> Seq<Seq<char>> {
    seq!["keyword"@, "string"@, "comment"@, "function"@, "property"@, "number"@, "operator"@, "constant"@, "embedded"@]
}

/// `m` with the styles of the zsh captures of the built-in theme.
pub open spec fn with_tokyonight_zsh_styles(m: Map<Seq<char>, StyleView>) -> Map<Seq<char>, StyleView> {
    m
        .insert("keyword"@, StyleView { foreground: Some("#c099ff"@), ..plain_style() })
        .insert("string"@, StyleView { foreground: Some("#e0af68"@), ..plain_style() })
        .insert("comment"@, StyleView { foreground: Some("#565f89"@), ..plain_style() })
        .insert("function"@, StyleView { foreground: Some("#7aa2f7"@), ..plain_style() })
        .insert("property"@, StyleView { foreground: Some("#9ece6a"@), ..plain_style() })
        .insert("number"@, StyleView { foreground: Some("#ff9e64"@), ..plain_style() })
        .insert("operator"@, StyleView { foreground: Some("#7882bf"@), ..plain_style() })
        .insert("constant"@, StyleView { foreground: Some("#ff9e64"@), ..plain_style() })
        .insert("embedded"@, StyleView { foreground: Some("#73daca"@), ..plain_style() })
}

/// The names of the markdown and common captures of the built-in theme, in order.
pub open spec fn tokyonight_markdown_names() -> Seq<Seq<char>> {
    seq!["punctuation"@, "punctuation.bracket"@, "punctuation.delimiter"@, "punctuation.special"@, "text.title"@, "text.literal"@, "text.emphasis"@, "text.strong"@, "text.uri"@, "text.reference"@, "string.escape"@, "none"@]
}

/// `m` with the styles of the markdown and common captures of the built-in theme.
pub open spec fn with_tokyonight_markdown_styles(m: Map<Seq<char>, StyleView>) -> Map<Seq<char>, StyleView> {
    m
        .insert("punctuation"@, StyleView { foreground: Some("#7882bf"@), ..plain_style() })
        .insert("punctuation.bracket"@, StyleView { foreground: Some("#565f89"@), ..plain_style() })
        .insert("punctuation.delimiter"@, StyleView { foreground: Some("#7882bf"@), ..plain_style() })
        .insert("punctuation.special"@, StyleView { foreground: Some("#ff9e64"@), ..plain_style() })
        .insert("text.title"@, StyleView { bold: true, ..StyleView { foreground: Some("#7aa2f7"@), ..plain_style() } })
        .insert("text.literal"@, StyleView { foreground: Some("#e0af68"@), ..plain_style() })
        .insert("text.emphasis"@, StyleView { italic: true, ..plain_style() })
        .insert("text.strong"@, StyleView { bold: true, ..plain_style() })
        .insert("text.uri"@, StyleView { underline: true, ..StyleView { foreground: Some("#1abc9c"@), ..plain_style() } })
        .insert("text.reference"@, StyleView { foreground: Some("#1abc9c"@), ..plain_style() })
        .insert("string.escape"@, StyleView { foreground: Some("#bb9af7"@), ..plain_style() })
        .insert("none"@, plain_style())
}

/// The names of the injection captures and the markup aliases of the built-in theme, in order.
pub open spec fn tokyonight_markup_names() -> Seq<Seq<char>> {
    seq!["injection.content"@, "injection.language"@, "markup.heading"@, "markup.strong"@, "markup.italic"@, "markup.link"@, "markup.raw"@, "markup.raw.inline"@, "markup.list"@, "markup.list.checked"@, "markup.list.unchecked"@]
}

/// `m` with the styles of the injection captures and the markup aliases of the built-in theme.
pub open spec fn with_tokyonight_markup_styles(m: Map<Seq<char>, StyleView>) -> Map<Seq<char>, StyleView> {
    m
        .insert("injection.content"@, plain_style())
        .insert("injection.language"@, plain_style())
        .insert("markup.heading"@, StyleView { bold: true, ..StyleView { foreground: Some("#7aa2f7"@), ..plain_style() } })
        .insert("markup.strong"@, StyleView { bold: true, ..plain_style() })
        .insert("markup.italic"@, StyleView { italic: true, ..plain_style() })
        .insert("markup.link"@, StyleView { underline: true, ..StyleView { foreground: Some("#1abc9c"@), ..plain_style() } })
        .insert("markup.raw"@, StyleView { foreground: Some("#e0af68"@), ..plain_style() })
        .insert("markup.raw.inline"@, StyleView { background: Some("#414868"@), ..StyleView { foreground: Some("#7aa2f7"@), ..plain_style() } })
        .insert("markup.list"@, StyleView { foreground: Some("#ff9e64"@), ..plain_style() })
        .insert("markup.list.checked"@, StyleView { foreground: Some("#9ece6a"@), ..plain_style() })
        .insert("markup.list.unchecked"@, StyleView { foreground: Some("#7aa2f7"@), ..plain_style() })
}

/// The names of the variable and type fallbacks of the built-in theme, in order.
pub open spec fn tokyonight_fallback_names() -> Seq<Seq<char>> {
    seq!["variable"@, "variable.builtin"@, "type"@, "type.builtin"@]
}

/// `m` with the styles of the variable and type fallbacks of the built-in theme.
pub open spec fn with_tokyonight_fallback_styles(m: Map<Seq<char>, StyleView>) -> Map<Seq<char>, StyleView> {
    m
        .insert("variable"@, StyleView { foreground: Some("#c0caf5"@), ..plain_style() })
        .insert("variable.builtin"@, StyleView { foreground: Some("#f7768e"@), ..plain_style() })
        .insert("type"@, StyleView { foreground: Some("#2ac3de"@), ..plain_style() })
        .insert("type.builtin"@, StyleView { foreground: Some("#2ac3de"@), ..plain_style() })
}

/// The names of the built-in Tokyonight Dark theme, in the order they are given styles.
pub open spec fn tokyonight_names() -> Seq<Seq<char>> {
    tokyonight_zsh_names() + tokyonight_markdown_names() + tokyonight_markup_names() + tokyonight_fallback_names()
}

/// The styles of the built-in Tokyonight Dark theme.
pub open spec fn tokyonight_styles() -> Map<Seq<char>, StyleView> {
    with_tokyonight_fallback_styles(
        with_tokyonight_markup_styles(with_tokyonight_markdown_styles(with_tokyonight_zsh_styles(Map::empty()))),
    )
}

/// The length and the first and last characters of each of the built-in
/// theme's names, which tell the names apart.
proof fn reveal_tokyonight_names()
    ensures
        "keyword"@.len() == 7 && "keyword"@[0] == 'k' && "keyword"@[6] == 'd',
        "string"@.len() == 6 && "string"@[0] == 's' && "string"@[5] == 'g',
        "comment"@.len() == 7 && "comment"@[0] == 'c' && "comment"@[6] == 't',
        "function"@.len() == 8 && "function"@[0] == 'f' && "function"@[7] == 'n',
        "property"@.len() == 8 && "property"@[0] == 'p' && "property"@[7] == 'y',
        "number"@.len() == 6 && "number"@[0] == 'n' && "number"@[5] == 'r',
        "operator"@.len() == 8 && "operator"@[0] == 'o' && "operator"@[7] == 'r',
        "constant"@.len() == 8 && "constant"@[0] == 'c' && "constant"@[7] == 't',
        "embedded"@.len() == 8 && "embedded"@[0] == 'e' && "embedded"@[7] == 'd',
        "punctuation"@.len() == 11 && "punctuation"@[0] == 'p' && "punctuation"@[10] == 'n',
        "punctuation.bracket"@.len() == 19 && "punctuation.bracket"@[0] == 'p' && "punctuation.bracket"@[18] == 't',
        "punctuation.delimiter"@.len() == 21 && "punctuation.delimiter"@[0] == 'p' && "punctuation.delimiter"@[20] == 'r',
        "punctuation.special"@.len() == 19 && "punctuation.special"@[0] == 'p' && "punctuation.special"@[18] == 'l',
        "text.title"@.len() == 10 && "text.title"@[0] == 't' && "text.title"@[9] == 'e',
        "text.literal"@.len() == 12 && "text.literal"@[0] == 't' && "text.literal"@[11] == 'l',
        "text.emphasis"@.len() == 13 && "text.emphasis"@[0] == 't' && "text.emphasis"@[12] == 's',
        "text.strong"@.len() == 11 && "text.strong"@[0] == 't' && "text.strong"@[10] == 'g',
        "text.uri"@.len() == 8 && "text.uri"@[0] == 't' && "text.uri"@[7] == 'i',
        "text.reference"@.len() == 14 && "text.reference"@[0] == 't' && "text.reference"@[13] == 'e',
        "string.escape"@.len() == 13 && "string.escape"@[0] == 's' && "string.escape"@[12] == 'e',
        "none"@.len() == 4 && "none"@[0] == 'n' && "none"@[3] == 'e',
        "injection.content"@.len() == 17 && "injection.content"@[0] == 'i' && "injection.content"@[16] == 't',
        "injection.language"@.len() == 18 && "injection.language"@[0] == 'i' && "injection.language"@[17] == 'e',
        "markup.heading"@.len() == 14 && "markup.heading"@[0] == 'm' && "markup.heading"@[13] == 'g',
        "markup.strong"@.len() == 13 && "markup.strong"@[0] == 'm' && "markup.strong"@[12] == 'g',
        "markup.italic"@.len() == 13 && "markup.italic"@[0] == 'm' && "markup.italic"@[12] == 'c',
        "markup.link"@.len() == 11 && "markup.link"@[0] == 'm' && "markup.link"@[10] == 'k',
        "markup.raw"@.len() == 10 && "markup.raw"@[0] == 'm' && "markup.raw"@[9] == 'w',
        "markup.raw.inline"@.len() == 17 && "markup.raw.inline"@[0] == 'm' && "markup.raw.inline"@[16] == 'e',
        "markup.list"@.len() == 11 && "markup.list"@[0] == 'm' && "markup.list"@[10] == 't',
        "markup.list.checked"@.len() == 19 && "markup.list.checked"@[0] == 'm' && "markup.list.checked"@[18] == 'd',
        "markup.list.unchecked"@.len() == 21 && "markup.list.unchecked"@[0] == 'm' && "markup.list.unchecked"@[20] == 'd',
        "variable"@.len() == 8 && "variable"@[0] == 'v' && "variable"@[7] == 'e',
        "variable.builtin"@.len() == 16 && "variable.builtin"@[0] == 'v' && "variable.builtin"@[15] == 'n',
        "type"@.len() == 4 && "type"@[0] == 't' && "type"@[3] == 'e',
        "type.builtin"@.len() == 12 && "type.builtin"@[0] == 't' && "type.builtin"@[11] == 'n',
{
    reveal_strlit("keyword");
    reveal_strlit("string");
    reveal_strlit("comment");
    reveal_strlit("function");
    reveal_strlit("property");
    reveal_strlit("number");
    reveal_strlit("operator");
    reveal_strlit("constant");
    reveal_strlit("embedded");
    reveal_strlit("punctuation");
    reveal_strlit("punctuation.bracket");
    reveal_strlit("punctuation.delimiter");
    reveal_strlit("punctuation.special");
    reveal_strlit("text.title");
    reveal_strlit("text.literal");
    reveal_strlit("text.emphasis");
    reveal_strlit("text.strong");
    reveal_strlit("text.uri");
    reveal_strlit("text.reference");
    reveal_strlit("string.escape");
    reveal_strlit("none");
    reveal_strlit("injection.content");
    reveal_strlit("injection.language");
    reveal_strlit("markup.heading");
    reveal_strlit("markup.strong");
    reveal_strlit("markup.italic");
    reveal_strlit("markup.link");
    reveal_strlit("markup.raw");
    reveal_strlit("markup.raw.inline");
    reveal_strlit("markup.list");
    reveal_strlit("markup.list.checked");
    reveal_strlit("markup.list.unchecked");
    reveal_strlit("variable");
    reveal_strlit("variable.builtin");
    reveal_strlit("type");
    reveal_strlit("type.builtin");
}

/// Gives `theme` the styles of the zsh captures.
fn add_tokyonight_zsh(theme: &mut Theme)
    requires
        old(theme)@.names == Seq::<Seq<char>>::empty(),
        old(theme)@.styles == Map::<Seq<char>, StyleView>::empty(),
    ensures
        final(theme)@.names == tokyonight_zsh_names(),
        final(theme)@.styles == with_tokyonight_zsh_styles(Map::<Seq<char>, StyleView>::empty()),
{
    proof {
        reveal_tokyonight_names();
    }
    theme.insert("keyword", Style::new().fg("#c099ff"));
    theme.insert("string", Style::new().fg("#e0af68"));
    theme.insert("comment", Style::new().fg("#565f89"));
    theme.insert("function", Style::new().fg("#7aa2f7"));
    theme.insert("property", Style::new().fg("#9ece6a"));
    theme.insert("number", Style::new().fg("#ff9e64"));
    theme.insert("operator", Style::new().fg("#7882bf"));
    theme.insert("constant", Style::new().fg("#ff9e64"));
    theme.insert("embedded", Style::new().fg("#73daca"));
}

/// Gives `theme` the styles of the markdown and common captures.
fn add_tokyonight_markdown(theme: &mut Theme)
    requires
        old(theme)@.names == tokyonight_zsh_names(),
        old(theme)@.styles == with_tokyonight_zsh_styles(Map::<Seq<char>, StyleView>::empty()),
    ensures
        final(theme)@.names == tokyonight_zsh_names() + tokyonight_markdown_names(),
        final(theme)@.styles == with_tokyonight_markdown_styles(with_tokyonight_zsh_styles(Map::<Seq<char>, StyleView>::empty())),
{
    proof {
        reveal_tokyonight_names();
    }
    theme.insert("punctuation", Style::new().fg("#7882bf"));
    theme.insert("punctuation.bracket", Style::new().fg("#565f89"));
    theme.insert("punctuation.delimiter", Style::new().fg("#7882bf"));
    theme.insert("punctuation.special", Style::new().fg("#ff9e64"));
    theme.insert("text.title", Style::new().fg("#7aa2f7").bold());
    theme.insert("text.literal", Style::new().fg("#e0af68"));
    theme.insert("text.emphasis", Style::new().italic());
    theme.insert("text.strong", Style::new().bold());
    theme.insert("text.uri", Style::new().fg("#1abc9c").underline());
    theme.insert("text.reference", Style::new().fg("#1abc9c"));
    theme.insert("string.escape", Style::new().fg("#bb9af7"));
    theme.insert("none", Style::new());
}

/// Gives `theme` the styles of the injection captures and the markup aliases.
fn add_tokyonight_markup(theme: &mut Theme)
    requires
        old(theme)@.names == tokyonight_zsh_names() + tokyonight_markdown_names(),
        old(theme)@.styles == with_tokyonight_markdown_styles(with_tokyonight_zsh_styles(Map::<Seq<char>, StyleView>::empty())),
    ensures
        final(theme)@.names == tokyonight_zsh_names() + tokyonight_markdown_names() + tokyonight_markup_names(),
        final(theme)@.styles == with_tokyonight_markup_styles(with_tokyonight_markdown_styles(with_tokyonight_zsh_styles(Map::<Seq<char>, StyleView>::empty()))),
{
    proof {
        reveal_tokyonight_names();
    }
    theme.insert("injection.content", Style::new());
    theme.insert("injection.language", Style::new());
    theme.insert("markup.heading", Style::new().fg("#7aa2f7").bold());
    theme.insert("markup.strong", Style::new().bold());
    theme.insert("markup.italic", Style::new().italic());
    theme.insert("markup.link", Style::new().fg("#1abc9c").underline());
    theme.insert("markup.raw", Style::new().fg("#e0af68"));
    theme.insert("markup.raw.inline", Style::new().fg("#7aa2f7").bg("#414868"));
    theme.insert("markup.list", Style::new().fg("#ff9e64"));
    theme.insert("markup.list.checked", Style::new().fg("#9ece6a"));
    theme.insert("markup.list.unchecked", Style::new().fg("#7aa2f7"));
}

/// Gives `theme` the styles of the variable and type fallbacks.
fn add_tokyonight_fallback(theme: &mut Theme)
    requires
        old(theme)@.names == tokyonight_zsh_names() + tokyonight_markdown_names() + tokyonight_markup_names(),
        old(theme)@.styles == with_tokyonight_markup_styles(with_tokyonight_markdown_styles(with_tokyonight_zsh_styles(Map::<Seq<char>, StyleView>::empty()))),
    ensures
        final(theme)@.names == tokyonight_zsh_names() + tokyonight_markdown_names() + tokyonight_markup_names() + tokyonight_fallback_names(),
        final(theme)@.styles == with_tokyonight_fallback_styles(with_tokyonight_markup_styles(with_tokyonight_markdown_styles(with_tokyonight_zsh_styles(Map::<Seq<char>, StyleView>::empty())))),
{
    proof {
        reveal_tokyonight_names();
    }
    theme.insert("variable", Style::new().fg("#c0caf5"));
    theme.insert("variable.builtin", Style::new().fg("#f7768e"));
    theme.insert("type", Style::new().fg("#2ac3de"));
    theme.insert("type.builtin", Style::new().fg("#2ac3de"));
}

/// The built-in Tokyonight Dark theme.
pub fn tokyonight_dark() -> (t: Theme)
    ensures
        t@.names == tokyonight_names(),
        t@.styles == tokyonight_styles(),
{
    let mut theme = Theme::new();
    add_tokyonight_zsh(&mut theme);
    add_tokyonight_markdown(&mut theme);
    add_tokyonight_markup(&mut theme);
    add_tokyonight_fallback(&mut theme);
    theme
}

} // verus!
