//! Theme files: TOML tables that map capture names to styles, with a palette
//! of named colours and single inheritance from a parent theme. This module
//! holds what is decided once a file's table has been read: colour
//! resolution, style translation, fallbacks, inheritance and the style cache.
use vstd::prelude::*;

use crate::highlight::{lemma_str_lt_total, lemma_str_lt_trans, str_lt, string_lt};
use crate::protocol::{index_of_from, lemma_index_of_bounds};
use crate::strmap::StrMap;
use crate::text::{
    chars_of, concat, join_commas, join_with_commas, opt_string_view, starts_with, str_eq, str_starts_with, views,
};

verus! {

// ---------------------------------------------------------------------------
// The data of a theme file
// ---------------------------------------------------------------------------

/// A style table: colours, modifiers, and whether an `underline` entry is present.
pub struct FileStyle {
    pub fg: Option<String>,
    pub bg: Option<String>,
    pub modifiers: Option<Vec<String>>,
    pub underline: bool,
}

/// The value of a capture's entry in a theme file.
pub enum StyleValue {
    /// A bare colour, used as the foreground.
    Simple(String),
    /// A full style table.
    Full(FileStyle),
    /// A list of palette names (not a style).
    PaletteList(Vec<String>),
}

/// One theme file: its parent, its palette and its style entries. A key that
/// occurs twice stands for its first occurrence.
pub struct ThemeFile {
    pub inherits: Option<String>,
    pub palette: Vec<(String, String)>,
    pub styles: Vec<(String, StyleValue)>,
}

/// What a `FileStyle` denotes.
pub struct FileStyleView {
    pub fg: Option<Seq<char>>,
    pub bg: Option<Seq<char>>,
    pub modifiers: Option<Seq<Seq<char>>>,
    pub underline: bool,
}

/// What a `StyleValue` denotes.
pub enum StyleValueView {
    Simple(Seq<char>),
    Full(FileStyleView),
    PaletteList(Seq<Seq<char>>),
}

/// What a `ThemeFile` denotes.
pub struct ThemeFileView {
    pub inherits: Option<Seq<char>>,
    pub palette: Seq<(Seq<char>, Seq<char>)>,
    pub styles: Seq<(Seq<char>, StyleValueView)>,
}

impl View for FileStyle {
    type V = FileStyleView;

    open spec fn view(&self) -> FileStyleView {
        FileStyleView {
            fg: opt_string_view(self.fg),
            bg: opt_string_view(self.bg),
            modifiers: match self.modifiers {
                Some(m) => Some(views(m@)),
                None => None,
            },
            underline: self.underline,
        }
    }
}

impl View for StyleValue {
    type V = StyleValueView;

    open spec fn view(&self) -> StyleValueView {
        match self {
            StyleValue::Simple(s) => StyleValueView::Simple(s@),
            StyleValue::Full(f) => StyleValueView::Full(f@),
            StyleValue::PaletteList(l) => StyleValueView::PaletteList(views(l@)),
        }
    }
}

/// The views of a list of string pairs.
pub open spec fn pair_views(s: Seq<(String, String)>) -> Seq<(Seq<char>, Seq<char>)> {
    s.map_values(|e: (String, String)| (e.0@, e.1@))
}

/// The views of a list of style entries.
pub open spec fn style_entry_views(s: Seq<(String, StyleValue)>) -> Seq<(Seq<char>, StyleValueView)> {
    s.map_values(|e: (String, StyleValue)| (e.0@, e.1@))
}

impl View for ThemeFile {
    type V = ThemeFileView;

    open spec fn view(&self) -> ThemeFileView {
        ThemeFileView {
            inherits: opt_string_view(self.inherits),
            palette: pair_views(self.palette@),
            styles: style_entry_views(self.styles@),
        }
    }
}

/// The value of the first entry of `s` with key `k`.
pub open spec fn lookup<V>(s: Seq<(Seq<char>, V)>, k: Seq<char>) -> Option<V>
    decreases s.len(),
{
    if s.len() == 0 {
        None
    } else if s[0].0 == k {
        Some(s[0].1)
    } else {
        lookup(s.drop_first(), k)
    }
}

/// The first entry with key `k` gives the lookup its value.
pub proof fn lemma_lookup_index<V>(s: Seq<(Seq<char>, V)>, k: Seq<char>, i: int)
    requires
        0 <= i < s.len(),
        s[i].0 == k,
        forall|j: int| 0 <= j < i ==> #[trigger] s[j].0 != k,
    ensures
        lookup(s, k) == Some(s[i].1),
    decreases i,
{
    if i > 0 {
        assert forall|j: int| 0 <= j < i - 1 implies #[trigger] s.drop_first()[j].0 != k by {
            assert(s[j + 1].0 != k);
        }
        lemma_lookup_index(s.drop_first(), k, i - 1);
    }
}

/// A key no entry has is not found.
pub proof fn lemma_lookup_none<V>(s: Seq<(Seq<char>, V)>, k: Seq<char>)
    requires
        forall|j: int| 0 <= j < s.len() ==> #[trigger] s[j].0 != k,
    ensures
        lookup(s, k) == None::<V>,
    decreases s.len(),
{
    if s.len() > 0 {
        assert forall|j: int| 0 <= j < s.len() - 1 implies #[trigger] s.drop_first()[j].0 != k by {
            assert(s[j + 1].0 != k);
        }
        lemma_lookup_none(s.drop_first(), k);
    }
}

/// Looking a key up in `first + second` finds it in `first` when it is there,
/// and in `second` otherwise.
pub proof fn lemma_lookup_concat<V>(first: Seq<(Seq<char>, V)>, second: Seq<(Seq<char>, V)>, k: Seq<char>)
    ensures
        lookup(first + second, k) == match lookup(first, k) {
            Some(v) => Some(v),
            None => lookup(second, k),
        },
    decreases first.len(),
{
    if first.len() > 0 {
        assert((first + second).drop_first() == first.drop_first() + second);
        lemma_lookup_concat(first.drop_first(), second, k);
    } else {
        assert(first + second == second);
    }
}

/// The palette colour named `key`, if any.
pub fn palette_get<'a>(palette: &'a Vec<(String, String)>, key: &str) -> (r: Option<&'a String>)
    ensures
        match r {
            Some(v) => lookup(pair_views(palette@), key@) == Some(v@),
            None => lookup(pair_views(palette@), key@) is None,
        },
{
    let k = String::from_str(key);
    let ghost s = pair_views(palette@);
    let mut i: usize = 0;
    while i < palette.len()
        invariant
            s == pair_views(palette@),
            0 <= i <= palette@.len(),
            k@ == key@,
            forall|j: int| 0 <= j < i ==> #[trigger] s[j].0 != key@,
        decreases palette@.len() - i,
    {
        if palette[i].0.eq(&k) {
            proof {
                lemma_lookup_index(s, key@, i as int);
            }
            return Some(&palette[i].1);
        }
        i = i + 1;
    }
    proof {
        lemma_lookup_none(s, key@);
    }
    None
}

/// The style entry named `key`, if any.
pub fn styles_get<'a>(styles: &'a Vec<(String, StyleValue)>, key: &str) -> (r: Option<&'a StyleValue>)
    ensures
        match r {
            Some(v) => lookup(style_entry_views(styles@), key@) == Some(v@),
            None => lookup(style_entry_views(styles@), key@) is None,
        },
{
    let k = String::from_str(key);
    let ghost s = style_entry_views(styles@);
    let mut i: usize = 0;
    while i < styles.len()
        invariant
            s == style_entry_views(styles@),
            0 <= i <= styles@.len(),
            k@ == key@,
            forall|j: int| 0 <= j < i ==> #[trigger] s[j].0 != key@,
        decreases styles@.len() - i,
    {
        if styles[i].0.eq(&k) {
            proof {
                lemma_lookup_index(s, key@, i as int);
            }
            return Some(&styles[i].1);
        }
        i = i + 1;
    }
    proof {
        lemma_lookup_none(s, key@);
    }
    None
}

// ---------------------------------------------------------------------------
// Colours and styles
// ---------------------------------------------------------------------------

/// A colour as written in a theme: `#rrggbb` stays as it is, a palette name
/// becomes its palette colour, and anything else stays as it is.
pub open spec fn spec_resolve_color(color: Seq<char>, palette: Seq<(Seq<char>, Seq<char>)>) -> Seq<char> {
    if starts_with(color, "#"@) {
        color
    } else {
        match lookup(palette, color) {
            Some(c) => c,
            None => color,
        }
    }
}

/// Resolves a colour against the palette.
pub fn resolve_color(color: &str, palette: &Vec<(String, String)>) -> (r: String)
    ensures
        r@ == spec_resolve_color(color@, pair_views(palette@)),
{
    if str_starts_with(color, "#") {
        String::from_str(color)
    } else {
        match palette_get(palette, color) {
            Some(resolved) => resolved.clone(),
            None => String::from_str(color),
        }
    }
}

/// The zsh attribute that a theme modifier stands for, if any.
pub open spec fn modifier_parts(m: Seq<char>) -> Seq<Seq<char>> {
    if m == "bold"@ {
        seq!["bold"@]
    } else if m == "italic"@ {
        seq!["italic"@]
    } else if m == "underlined"@ || m == "underline"@ {
        seq!["underline"@]
    } else if m == "dim"@ {
        seq!["dim"@]
    } else {
        Seq::empty()
    }
}

/// The zsh attributes of a list of modifiers, in order.
pub open spec fn modifiers_parts(mods: Seq<Seq<char>>) -> Seq<Seq<char>>
    decreases mods.len(),
{
    if mods.len() == 0 {
        Seq::empty()
    } else {
        modifiers_parts(mods.drop_last()) + modifier_parts(mods.last())
    }
}

/// The attribute parts of a full style table, before it is joined.
pub open spec fn full_style_parts(st: FileStyleView, palette: Seq<(Seq<char>, Seq<char>)>) -> Seq<Seq<char>> {
    let fg = match st.fg {
        Some(c) => seq!["fg="@ + spec_resolve_color(c, palette)],
        None => Seq::empty(),
    };
    let bg = match st.bg {
        Some(c) => seq!["bg="@ + spec_resolve_color(c, palette)],
        None => Seq::empty(),
    };
    let mods = match st.modifiers {
        Some(m) => modifiers_parts(m),
        None => Seq::empty(),
    };
    let parts = fg + bg + mods;
    if st.underline && !parts.contains("underline"@) {
        parts.push("underline"@)
    } else {
        parts
    }
}

/// The zsh attribute string of a theme entry, if it denotes a style.
pub open spec fn spec_translate_style(v: StyleValueView, palette: Seq<(Seq<char>, Seq<char>)>) -> Option<Seq<char>> {
    match v {
        StyleValueView::Simple(c) => Some("fg="@ + spec_resolve_color(c, palette)),
        StyleValueView::Full(st) => {
            let parts = full_style_parts(st, palette);
            if parts.len() == 0 {
                None
            } else {
                Some(join_commas(parts))
            }
        },
        StyleValueView::PaletteList(_) => None,
    }
}

/// Whether one of `parts` is `s`.
fn contains_part(parts: &Vec<String>, s: &str) -> (r: bool)
    ensures
        r == views(parts@).contains(s@),
{
    let mut i: usize = 0;
    while i < parts.len()
        invariant
            0 <= i <= parts@.len(),
            forall|j: int| 0 <= j < i ==> #[trigger] parts@[j]@ != s@,
        decreases parts@.len() - i,
    {
        if str_eq(parts[i].as_str(), s) {
            assert(views(parts@)[i as int] == s@);
            return true;
        }
        i = i + 1;
    }
    assert forall|j: int| 0 <= j < views(parts@).len() implies views(parts@)[j] != s@ by {
        assert(parts@[j]@ != s@);
    }
    false
}

/// Translates a theme entry into a zsh attribute string: a bare colour becomes
/// `fg=…`; a table becomes its colours, then its known modifiers, then
/// `underline` if an underline entry is present; a palette list is no style.
pub fn translate_style(value: &StyleValue, palette: &Vec<(String, String)>) -> (r: Option<String>)
    ensures
        opt_string_view(r) == spec_translate_style(value@, pair_views(palette@)),
{
    match value {
        StyleValue::Simple(color) => {
            let resolved = resolve_color(color.as_str(), palette);
            Some(concat("fg=", resolved.as_str()))
        },
        StyleValue::Full(style) => {
            let ghost pal = pair_views(palette@);
            let mut parts: Vec<String> = Vec::new();
            let ghost mut expect: Seq<Seq<char>> = Seq::empty();
            if let Some(fg) = &style.fg {
                let resolved = resolve_color(fg.as_str(), palette);
                parts.push(concat("fg=", resolved.as_str()));
                proof {
                    expect = expect + seq!["fg="@ + spec_resolve_color(fg@, pal)];
                }
            }
            if let Some(bg) = &style.bg {
                let resolved = resolve_color(bg.as_str(), palette);
                parts.push(concat("bg=", resolved.as_str()));
                proof {
                    expect = expect + seq!["bg="@ + spec_resolve_color(bg@, pal)];
                }
            }
            assert(views(parts@) == expect);
            if let Some(mods) = &style.modifiers {
                let ghost base = expect;
                let mut i: usize = 0;
                while i < mods.len()
                    invariant
                        0 <= i <= mods@.len(),
                        views(parts@) == base + modifiers_parts(views(mods@).take(i as int)),
                    decreases mods@.len() - i,
                {
                    let m = mods[i].as_str();
                    let ghost before = views(parts@);
                    if str_eq(m, "bold") {
                        parts.push(String::from_str("bold"));
                    } else if str_eq(m, "italic") {
                        parts.push(String::from_str("italic"));
                    } else if str_eq(m, "underlined") || str_eq(m, "underline") {
                        parts.push(String::from_str("underline"));
                    } else if str_eq(m, "dim") {
                        parts.push(String::from_str("dim"));
                    }
                    proof {
                        let t = views(mods@).take(i + 1);
                        assert(t.drop_last() == views(mods@).take(i as int));
                        assert(t.last() == m@);
                        assert(views(parts@) =~= before + modifier_parts(m@));
                    }
                    i = i + 1;
                }
                assert(views(mods@).take(mods@.len() as int) == views(mods@));
                proof {
                    expect = views(parts@);
                }
            }
            assert(views(parts@) == expect);
            if style.underline && !contains_part(&parts, "underline") {
                parts.push(String::from_str("underline"));
                assert(views(parts@) =~= expect.push("underline"@));
            }
            assert(views(parts@) == full_style_parts(style@, pal));
            if parts.len() == 0 {
                None
            } else {
                Some(join_with_commas(&parts))
            }
        },
        StyleValue::PaletteList(_) => None,
    }
}

/// Whether `x` occurs in `a + b`: in `a` or in `b`.
proof fn lemma_concat_contains<T>(a: Seq<T>, b: Seq<T>, x: T)
    ensures
        (a + b).contains(x) <==> (a.contains(x) || b.contains(x)),
{
    if a.contains(x) {
        let i = choose|i: int| 0 <= i < a.len() && a[i] == x;
        assert((a + b)[i] == x);
    }
    if b.contains(x) {
        let i = choose|i: int| 0 <= i < b.len() && b[i] == x;
        assert((a + b)[a.len() + i] == x);
    }
    if (a + b).contains(x) {
        let i = choose|i: int| 0 <= i < (a + b).len() && (a + b)[i] == x;
        if i < a.len() {
            assert(a[i] == x);
        } else {
            assert(b[i - a.len()] == x);
        }
    }
}

/// The modifiers give `underline` exactly when one of them is `underline`
/// or `underlined`.
proof fn lemma_modifiers_underline(mods: Seq<Seq<char>>)
    ensures
        modifiers_parts(mods).contains("underline"@) <==> (mods.contains("underline"@) || mods.contains("underlined"@)),
    decreases mods.len(),
{
    reveal_strlit("bold");
    reveal_strlit("italic");
    reveal_strlit("underline");
    reveal_strlit("underlined");
    reveal_strlit("dim");
    if mods.len() > 0 {
        let d = mods.drop_last();
        let m = mods.last();
        lemma_modifiers_underline(d);
        lemma_concat_contains(modifiers_parts(d), modifier_parts(m), "underline"@);
        assert(mods == d + seq![m]);
        lemma_concat_contains(d, seq![m], "underline"@);
        lemma_concat_contains(d, seq![m], "underlined"@);
        assert(seq![m].contains("underline"@) <==> m == "underline"@) by {
            if m == "underline"@ {
                assert(seq![m][0] == m);
            }
        }
        assert(seq![m].contains("underlined"@) <==> m == "underlined"@) by {
            if m == "underlined"@ {
                assert(seq![m][0] == m);
            }
        }
        assert(modifier_parts(m).contains("underline"@) <==> (m == "underline"@ || m == "underlined"@)) by {
            if m == "underline"@ || m == "underlined"@ {
                assert(modifier_parts(m)[0] == "underline"@);
            }
        }
    }
}

/// A bare colour translates to `fg=` and the resolved colour; a palette list
/// is no style. A table translates to its parts joined by commas, or to no
/// style where it has none: first `fg=` and `bg=` with their resolved colours,
/// where given, then the attributes of its known modifiers in the order
/// written; `underline` is among the parts exactly when the table asks for an
/// underline or a modifier is `underline` or `underlined`.
pub proof fn law_translate_style_parts(v: StyleValueView, palette: Seq<(Seq<char>, Seq<char>)>)
    ensures
        v matches StyleValueView::Simple(c) ==> spec_translate_style(v, palette) == Some("fg="@ + spec_resolve_color(c, palette)),
        v is PaletteList ==> spec_translate_style(v, palette) is None,
        v matches StyleValueView::Full(st) ==> {
            let parts = full_style_parts(st, palette);
            let n_fg: int = if st.fg is Some { 1 } else { 0 };
            let n_bg: int = if st.bg is Some { 1 } else { 0 };
            let mods = match st.modifiers {
                Some(m) => modifiers_parts(m),
                None => Seq::empty(),
            };
            let underlined_mod = match st.modifiers {
                Some(m) => m.contains("underline"@) || m.contains("underlined"@),
                None => false,
            };
            &&& spec_translate_style(v, palette) == (if parts.len() == 0 { None } else { Some(join_commas(parts)) })
            &&& st.fg matches Some(c) ==> parts[0] == "fg="@ + spec_resolve_color(c, palette)
            &&& st.bg matches Some(c) ==> parts[n_fg] == "bg="@ + spec_resolve_color(c, palette)
            &&& parts.subrange(n_fg + n_bg, n_fg + n_bg + mods.len()) == mods
            &&& (parts.contains("underline"@) <==> (st.underline || underlined_mod))
        },
{
    if let StyleValueView::Full(st) = v {
        reveal_strlit("fg=");
        reveal_strlit("bg=");
        reveal_strlit("underline");
        let fg = match st.fg {
            Some(c) => seq!["fg="@ + spec_resolve_color(c, palette)],
            None => Seq::empty(),
        };
        let bg = match st.bg {
            Some(c) => seq!["bg="@ + spec_resolve_color(c, palette)],
            None => Seq::empty(),
        };
        let mods = match st.modifiers {
            Some(m) => modifiers_parts(m),
            None => Seq::empty(),
        };
        let base = fg + bg + mods;
        let parts = full_style_parts(st, palette);
        assert(parts.subrange(0, base.len() as int) == base);
        assert(base.subrange((fg.len() + bg.len()) as int, base.len() as int) == mods);
        lemma_concat_contains(fg, bg, "underline"@);
        lemma_concat_contains(fg + bg, mods, "underline"@);
        assert(!fg.contains("underline"@)) by {
            if fg.contains("underline"@) {
                assert(fg[0][0] == 'f');
            }
        }
        assert(!bg.contains("underline"@)) by {
            if bg.contains("underline"@) {
                assert(bg[0][0] == 'b');
            }
        }
        if let Some(m) = st.modifiers {
            lemma_modifiers_underline(m);
        }
        if st.underline && !base.contains("underline"@) {
            assert(parts[base.len() as int] == "underline"@);
        }
    }
}

// ---------------------------------------------------------------------------
// Looking a capture's style up, with fallbacks
// ---------------------------------------------------------------------------

/// The `,`-separated components of `s` from position `pos` on.
pub open spec fn split_commas_from(s: Seq<char>, pos: int) -> Seq<Seq<char>>
    decreases s.len() - pos,
{
    if pos < 0 || pos > s.len() {
        Seq::empty()
    } else {
        let i = index_of_from(s, pos, ',');
        if i >= s.len() {
            seq![s.subrange(pos, s.len() as int)]
        } else {
            proof {
                lemma_index_of_bounds(s, pos, ',');
            }
            seq![s.subrange(pos, i)] + split_commas_from(s, i + 1)
        }
    }
}

/// The `,`-separated components of `s`, as `str::split(',')` gives them.
pub open spec fn split_commas(s: Seq<char>) -> Seq<Seq<char>> {
    split_commas_from(s, 0)
}

/// The first of `parts` that begins with `prefix`.
pub open spec fn first_with_prefix(parts: Seq<Seq<char>>, prefix: Seq<char>) -> Option<Seq<char>>
    decreases parts.len(),
{
    if parts.len() == 0 {
        None
    } else if starts_with(parts[0], prefix) {
        Some(parts[0])
    } else {
        first_with_prefix(parts.drop_first(), prefix)
    }
}

/// The first `fg=` component of a `,`-separated attribute string.
pub fn first_fg_component(s: &str) -> (r: Option<String>)
    ensures
        opt_string_view(r) == first_with_prefix(split_commas(s@), "fg="@),
{
    let chars = chars_of(s);
    let total = chars.len();
    let mut pos: usize = 0;
    loop
        invariant
            chars@ == s@,
            total == s@.len(),
            0 <= pos <= total,
            first_with_prefix(split_commas(s@), "fg="@) == first_with_prefix(split_commas_from(s@, pos as int), "fg="@),
        decreases total - pos,
    {
        let i = crate::protocol::find_char(&chars, pos, ',');
        let part = s.substring_char(pos, i);
        let ghost rest = split_commas_from(s@, pos as int);
        assert(rest[0] == part@);
        assert(rest.len() > 0);
        assert(!starts_with(part@, "fg="@) ==> first_with_prefix(rest, "fg="@) == first_with_prefix(rest.drop_first(), "fg="@));
        if str_starts_with(part, "fg=") {
            return Some(String::from_str(part));
        }
        if i >= total {
            assert(rest.drop_first().len() == 0);
            return None;
        }
        assert(rest.drop_first() == split_commas_from(s@, i + 1));
        pos = i + 1;
    }
}

/// The keys tried, in order, for a directory's colour.
pub open spec fn directory_keys() -> Seq<Seq<char>> {
    seq!["ui.text.directory"@, "function"@, "blue"@]
}

/// The foreground component of the first of `keys` whose entry is a style.
pub open spec fn directory_fg_from(
    styles: Seq<(Seq<char>, StyleValueView)>,
    palette: Seq<(Seq<char>, Seq<char>)>,
    keys: Seq<Seq<char>>,
) -> Seq<Seq<char>>
    decreases keys.len(),
{
    if keys.len() == 0 {
        Seq::empty()
    } else {
        let translated = match lookup(styles, keys[0]) {
            Some(v) => spec_translate_style(v, palette),
            None => None,
        };
        match translated {
            Some(st) => match first_with_prefix(split_commas(st), "fg="@) {
                Some(c) => seq![c],
                None => Seq::empty(),
            },
            None => directory_fg_from(styles, palette, keys.drop_first()),
        }
    }
}

/// The style of a capture: its own entry when that is a style; otherwise
/// `command.invalid` falls back to `error`, `path` is underlined, and
/// `path.directory` is underlined in the colour of the first directory key
/// that has a style.
pub open spec fn spec_get_style(
    capture: Seq<char>,
    styles: Seq<(Seq<char>, StyleValueView)>,
    palette: Seq<(Seq<char>, Seq<char>)>,
) -> Option<Seq<char>> {
    let direct = match lookup(styles, capture) {
        Some(v) => spec_translate_style(v, palette),
        None => None,
    };
    if direct is Some {
        direct
    } else if capture == "command.invalid"@ {
        match lookup(styles, "error"@) {
            Some(v) => spec_translate_style(v, palette),
            None => None,
        }
    } else if capture == "path"@ {
        Some("underline"@)
    } else if capture == "path.directory"@ {
        Some(join_commas(seq!["underline"@] + directory_fg_from(styles, palette, directory_keys())))
    } else {
        None
    }
}

/// The translated style of entry `key`, if it has one that is a style.
fn translated_entry(key: &str, styles: &Vec<(String, StyleValue)>, palette: &Vec<(String, String)>) -> (r: Option<String>)
    ensures
        opt_string_view(r) == match lookup(style_entry_views(styles@), key@) {
            Some(v) => spec_translate_style(v, pair_views(palette@)),
            None => None,
        },
{
    match styles_get(styles, key) {
        Some(v) => translate_style(v, palette),
        None => None,
    }
}

/// Looks the style of `capture` up in a theme's entries, with fallbacks.
pub fn get_style(capture: &str, styles: &Vec<(String, StyleValue)>, palette: &Vec<(String, String)>) -> (r: Option<String>)
    ensures
        opt_string_view(r) == spec_get_style(capture@, style_entry_views(styles@), pair_views(palette@)),
{
    let ghost sv = style_entry_views(styles@);
    let ghost pv = pair_views(palette@);
    let direct = translated_entry(capture, styles, palette);
    if direct.is_some() {
        return direct;
    }
    if str_eq(capture, "command.invalid") {
        return translated_entry("error", styles, palette);
    }
    if str_eq(capture, "path") {
        return Some(String::from_str("underline"));
    }
    if str_eq(capture, "path.directory") {
        let mut parts: Vec<String> = Vec::new();
        parts.push(String::from_str("underline"));
        let keys: Vec<&str> = vec!["ui.text.directory", "function", "blue"];
        assert(keys@.map_values(|k: &str| k@) =~= directory_keys());
        let mut i: usize = 0;
        assert(directory_keys().skip(0) == directory_keys());
        assert(capture@ == "path.directory"@);
        assert(capture@ != "path"@) by {
            reveal_strlit("path");
            reveal_strlit("path.directory");
        }
        assert(capture@ != "command.invalid"@) by {
            reveal_strlit("command.invalid");
            reveal_strlit("path.directory");
        }
        while i < keys.len()
            invariant
                0 <= i <= keys@.len(),
                keys@.len() == 3,
                keys@.map_values(|k: &str| k@) == directory_keys(),
                sv == style_entry_views(styles@),
                pv == pair_views(palette@),
                views(parts@) == seq!["underline"@],
                spec_get_style(capture@, sv, pv) == Some(join_commas(seq!["underline"@] + directory_fg_from(sv, pv, directory_keys()))),
                directory_fg_from(sv, pv, directory_keys()) == directory_fg_from(sv, pv, directory_keys().skip(i as int)),
            decreases keys@.len() - i,
        {
            let ghost ks = directory_keys().skip(i as int);
            assert(ks[0] == keys@[i as int]@);
            assert(ks.drop_first() == directory_keys().skip(i + 1));
            let entry = translated_entry(keys[i], styles, palette);
            assert(ks.len() > 0);
            assert(entry is None ==> directory_fg_from(sv, pv, ks) == directory_fg_from(sv, pv, ks.drop_first()));
            if let Some(style_str) = entry {
                assert(directory_fg_from(sv, pv, ks) == match first_with_prefix(split_commas(style_str@), "fg="@) {
                    Some(c) => seq![c],
                    None => Seq::<Seq<char>>::empty(),
                });
                if let Some(fg) = first_fg_component(style_str.as_str()) {
                    parts.push(fg);
                    assert(views(parts@) =~= seq!["underline"@] + directory_fg_from(sv, pv, directory_keys()));
                } else {
                    assert(views(parts@) =~= seq!["underline"@] + directory_fg_from(sv, pv, directory_keys()));
                }
                return Some(join_with_commas(&parts));
            }
            i = i + 1;
        }
        assert(directory_keys().skip(3).len() == 0);
        assert(views(parts@) =~= seq!["underline"@] + directory_fg_from(sv, pv, directory_keys()));
        return Some(join_with_commas(&parts));
    }
    None
}

/// The style of entry `key` in a theme, where it has one that is a style.
pub open spec fn entry_style(
    styles: Seq<(Seq<char>, StyleValueView)>,
    palette: Seq<(Seq<char>, Seq<char>)>,
    key: Seq<char>,
) -> Option<Seq<char>> {
    match lookup(styles, key) {
        Some(v) => spec_translate_style(v, palette),
        None => None,
    }
}

/// What `first_with_prefix` finds begins with the prefix.
proof fn lemma_first_with_prefix(parts: Seq<Seq<char>>, prefix: Seq<char>)
    ensures
        first_with_prefix(parts, prefix) matches Some(x) ==> starts_with(x, prefix),
    decreases parts.len(),
{
    if parts.len() > 0 && !starts_with(parts[0], prefix) {
        lemma_first_with_prefix(parts.drop_first(), prefix);
    }
}

/// A directory's colour is at most one `fg=` component.
proof fn lemma_directory_fg(
    styles: Seq<(Seq<char>, StyleValueView)>,
    palette: Seq<(Seq<char>, Seq<char>)>,
    keys: Seq<Seq<char>>,
)
    ensures
        directory_fg_from(styles, palette, keys).len() <= 1,
        directory_fg_from(styles, palette, keys).len() == 1 ==> starts_with(
            directory_fg_from(styles, palette, keys)[0],
            "fg="@,
        ),
    decreases keys.len(),
{
    if keys.len() > 0 {
        match entry_style(styles, palette, keys[0]) {
            Some(st) => lemma_first_with_prefix(split_commas(st), "fg="@),
            None => lemma_directory_fg(styles, palette, keys.drop_first()),
        }
    }
}

/// A capture's style is its own entry's style where that entry is a style.
/// Otherwise `command.invalid` takes the style of the `error` entry; `path`
/// is `underline`; `path.directory` is `underline`, followed by a comma and
/// the first `fg=` component of the first of `ui.text.directory`, `function`
/// and `blue` whose entry is a style, where that style has one; and any other
/// capture has no style.
pub proof fn law_get_style_fallbacks(
    capture: Seq<char>,
    styles: Seq<(Seq<char>, StyleValueView)>,
    palette: Seq<(Seq<char>, Seq<char>)>,
)
    ensures
        entry_style(styles, palette, capture) is Some ==> spec_get_style(capture, styles, palette) == entry_style(
            styles,
            palette,
            capture,
        ),
        entry_style(styles, palette, capture) is None && capture == "command.invalid"@ ==> spec_get_style(
            capture,
            styles,
            palette,
        ) == entry_style(styles, palette, "error"@),
        entry_style(styles, palette, capture) is None && capture == "path"@ ==> spec_get_style(capture, styles, palette)
            == Some("underline"@),
        entry_style(styles, palette, capture) is None && capture == "path.directory"@ ==> {
            let fg = directory_fg_from(styles, palette, directory_keys());
            &&& spec_get_style(capture, styles, palette) == Some(
                if fg.len() == 0 {
                    "underline"@
                } else {
                    "underline"@ + ","@ + fg[0]
                },
            )
            &&& fg.len() <= 1
            &&& fg.len() == 1 ==> starts_with(fg[0], "fg="@)
        },
        entry_style(styles, palette, capture) is None && capture != "command.invalid"@ && capture != "path"@ && capture
            != "path.directory"@ ==> spec_get_style(capture, styles, palette) is None,
{
    reveal_strlit(",");
    reveal_strlit("path");
    reveal_strlit("path.directory");
    reveal_strlit("command.invalid");
    let fg = directory_fg_from(styles, palette, directory_keys());
    lemma_directory_fg(styles, palette, directory_keys());
    let parts = seq!["underline"@] + fg;
    assert("path"@.len() == 4 && "path.directory"@.len() == 14 && "command.invalid"@.len() == 15);
    assert(join_commas(seq!["underline"@]) == "underline"@);
    assert(","@ == seq![',']);
    if fg.len() == 1 {
        assert(parts.drop_last() =~= seq!["underline"@]);
        assert(parts.last() == fg[0]);
        assert(join_commas(parts) == join_commas(parts.drop_last()) + seq![','] + parts.last());
    } else {
        assert(parts =~= seq!["underline"@]);
    }
}

// ---------------------------------------------------------------------------
// Inheritance and the style cache
// ---------------------------------------------------------------------------

/// A theme merged over its parent: the parent's palette and styles, each
/// entry overridden by the child's entry with the same key.
pub open spec fn spec_merge(child: ThemeFileView, parent: ThemeFileView) -> ThemeFileView {
    ThemeFileView {
        inherits: child.inherits,
        palette: child.palette + parent.palette,
        styles: child.styles + parent.styles,
    }
}

/// Merges `parent` under `child`; the child's entries override the parent's.
pub fn merge_themes(child: ThemeFile, parent: ThemeFile) -> (r: ThemeFile)
    ensures
        r@ == spec_merge(child@, parent@),
{
    let ThemeFile { inherits, mut palette, mut styles } = child;
    let ThemeFile { inherits: _, palette: mut parent_palette, styles: mut parent_styles } = parent;
    let ghost p0 = palette@;
    let ghost s0 = styles@;
    palette.append(&mut parent_palette);
    styles.append(&mut parent_styles);
    assert(pair_views(palette@) =~= pair_views(p0) + pair_views(parent.palette@));
    assert(style_entry_views(styles@) =~= style_entry_views(s0) + style_entry_views(parent.styles@));
    ThemeFile { inherits, palette, styles }
}

/// In a merged theme, a child's entry wins over the parent's, and a key the
/// child lacks keeps the parent's entry (for the palette and for the styles).
pub proof fn law_child_overrides_parent(child: ThemeFileView, parent: ThemeFileView, k: Seq<char>)
    ensures
        lookup(spec_merge(child, parent).palette, k) == match lookup(child.palette, k) {
            Some(c) => Some(c),
            None => lookup(parent.palette, k),
        },
        lookup(spec_merge(child, parent).styles, k) == match lookup(child.styles, k) {
            Some(v) => Some(v),
            None => lookup(parent.styles, k),
        },
{
    lemma_lookup_concat(child.palette, parent.palette, k);
    lemma_lookup_concat(child.styles, parent.styles, k);
}

/// The captures whose styles a loaded theme provides.
pub open spec fn cached_captures() -> Seq<Seq<char>> {
    seq![
        "comment"@,
        "constant"@,
        "embedded"@,
        "function"@,
        "keyword"@,
        "number"@,
        "operator"@,
        "property"@,
        "punctuation.delimiter"@,
        "punctuation.special"@,
        "string"@,
        "string.escape"@,
        "text.emphasis"@,
        "text.literal"@,
        "text.reference"@,
        "text.strong"@,
        "text.title"@,
        "text.uri"@,
        "variable"@,
        "command.invalid"@,
        "path"@,
        "path.directory"@,
    ]
}

/// The style cache of `t` for the captures `caps`: each capture that has a style.
pub open spec fn cache_for(caps: Seq<Seq<char>>, t: ThemeFileView) -> Map<Seq<char>, Seq<char>>
    decreases caps.len(),
{
    if caps.len() == 0 {
        Map::empty()
    } else {
        let m = cache_for(caps.drop_last(), t);
        match spec_get_style(caps.last(), t.styles, t.palette) {
            Some(st) => m.insert(caps.last(), st),
            None => m,
        }
    }
}

/// The style cache of a loaded theme.
pub open spec fn spec_theme_cache(t: ThemeFileView) -> Map<Seq<char>, Seq<char>> {
    cache_for(cached_captures(), t)
}

proof fn lemma_cache_for(caps: Seq<Seq<char>>, t: ThemeFileView, k: Seq<char>)
    ensures
        cache_for(caps, t).dom().contains(k) <==> (caps.contains(k) && spec_get_style(k, t.styles, t.palette) is Some),
        cache_for(caps, t).dom().contains(k) ==> cache_for(caps, t)[k] == spec_get_style(k, t.styles, t.palette)->Some_0,
    decreases caps.len(),
{
    if caps.len() > 0 {
        let d = caps.drop_last();
        lemma_cache_for(d, t, k);
        if caps.contains(k) && k != caps.last() {
            let i = choose|i: int| 0 <= i < caps.len() && caps[i] == k;
            assert(d[i] == k);
        }
        if d.contains(k) {
            let i = choose|i: int| 0 <= i < d.len() && d[i] == k;
            assert(caps[i] == k);
        }
        if k == caps.last() {
            assert(caps[caps.len() - 1] == k);
        }
    }
}

/// A loaded theme's style cache has exactly the cached captures that the
/// merged theme gives a style, each with that style; so it always has
/// `path` and `path.directory`.
pub proof fn law_theme_cache_keys(t: ThemeFileView)
    ensures
        forall|k: Seq<char>| #[trigger] spec_theme_cache(t).dom().contains(k)
            <==> (cached_captures().contains(k) && spec_get_style(k, t.styles, t.palette) is Some),
        forall|k: Seq<char>| #[trigger] spec_theme_cache(t).dom().contains(k)
            ==> spec_theme_cache(t)[k] == spec_get_style(k, t.styles, t.palette)->Some_0,
        spec_theme_cache(t).dom().contains("path"@),
        spec_theme_cache(t).dom().contains("path.directory"@),
{
    assert forall|k: Seq<char>| #[trigger] spec_theme_cache(t).dom().contains(k)
        <==> (cached_captures().contains(k) && spec_get_style(k, t.styles, t.palette) is Some) by {
        lemma_cache_for(cached_captures(), t, k);
    }
    assert forall|k: Seq<char>| #[trigger] spec_theme_cache(t).dom().contains(k)
        implies spec_theme_cache(t)[k] == spec_get_style(k, t.styles, t.palette)->Some_0 by {
        lemma_cache_for(cached_captures(), t, k);
    }
    reveal_strlit("path");
    reveal_strlit("path.directory");
    reveal_strlit("command.invalid");
    assert("path"@.len() == 4 && "path.directory"@.len() == 14 && "command.invalid"@.len() == 15);
    assert(spec_get_style("path"@, t.styles, t.palette) is Some);
    assert(spec_get_style("path.directory"@, t.styles, t.palette) is Some);
    assert(cached_captures()[20] == "path"@);
    assert(cached_captures()[21] == "path.directory"@);
    lemma_cache_for(cached_captures(), t, "path"@);
    lemma_cache_for(cached_captures(), t, "path.directory"@);
}

/// Whether `k` is one of the captures a loaded theme styles: those the zsh
/// and markdown queries emit (the meta captures aside), `variable`, and the
/// highlighter's own `command.invalid`, `path` and `path.directory`.
pub open spec fn styled_capture(k: Seq<char>) -> bool {
    ||| k == "comment"@
    ||| k == "constant"@
    ||| k == "embedded"@
    ||| k == "function"@
    ||| k == "keyword"@
    ||| k == "number"@
    ||| k == "operator"@
    ||| k == "property"@
    ||| k == "punctuation.delimiter"@
    ||| k == "punctuation.special"@
    ||| k == "string"@
    ||| k == "string.escape"@
    ||| k == "text.emphasis"@
    ||| k == "text.literal"@
    ||| k == "text.reference"@
    ||| k == "text.strong"@
    ||| k == "text.title"@
    ||| k == "text.uri"@
    ||| k == "variable"@
    ||| k == "command.invalid"@
    ||| k == "path"@
    ||| k == "path.directory"@
}

/// A loaded theme's style cache holds each styled capture (`keyword`,
/// `string`, `comment`, `function`, …, `path.directory`) exactly when the
/// theme gives it a style, with that style, and holds nothing else.
pub proof fn law_theme_cache_covers_styled_captures(t: ThemeFileView, k: Seq<char>)
    ensures
        spec_theme_cache(t).dom().contains(k) <==> (styled_capture(k) && spec_get_style(k, t.styles, t.palette) is Some),
        spec_theme_cache(t).dom().contains(k) ==> spec_theme_cache(t)[k] == spec_get_style(k, t.styles, t.palette)->Some_0,
{
    lemma_cache_for(cached_captures(), t, k);
    if cached_captures().contains(k) {
        let i = choose|i: int| 0 <= i < cached_captures().len() && cached_captures()[i] == k;
        assert(styled_capture(cached_captures()[i]));
    }
    if styled_capture(k) {
        if k == "comment"@ {
            assert(cached_captures()[0] == k);
        } else if k == "constant"@ {
            assert(cached_captures()[1] == k);
        } else if k == "embedded"@ {
            assert(cached_captures()[2] == k);
        } else if k == "function"@ {
            assert(cached_captures()[3] == k);
        } else if k == "keyword"@ {
            assert(cached_captures()[4] == k);
        } else if k == "number"@ {
            assert(cached_captures()[5] == k);
        } else if k == "operator"@ {
            assert(cached_captures()[6] == k);
        } else if k == "property"@ {
            assert(cached_captures()[7] == k);
        } else if k == "punctuation.delimiter"@ {
            assert(cached_captures()[8] == k);
        } else if k == "punctuation.special"@ {
            assert(cached_captures()[9] == k);
        } else if k == "string"@ {
            assert(cached_captures()[10] == k);
        } else if k == "string.escape"@ {
            assert(cached_captures()[11] == k);
        } else if k == "text.emphasis"@ {
            assert(cached_captures()[12] == k);
        } else if k == "text.literal"@ {
            assert(cached_captures()[13] == k);
        } else if k == "text.reference"@ {
            assert(cached_captures()[14] == k);
        } else if k == "text.strong"@ {
            assert(cached_captures()[15] == k);
        } else if k == "text.title"@ {
            assert(cached_captures()[16] == k);
        } else if k == "text.uri"@ {
            assert(cached_captures()[17] == k);
        } else if k == "variable"@ {
            assert(cached_captures()[18] == k);
        } else if k == "command.invalid"@ {
            assert(cached_captures()[19] == k);
        } else if k == "path"@ {
            assert(cached_captures()[20] == k);
        } else if k == "path.directory"@ {
            assert(cached_captures()[21] == k);
        }
    }
}

/// The styles of all cached captures of a (merged) theme.
pub fn theme_cache(theme: &ThemeFile) -> (m: StrMap)
    ensures
        m@ == spec_theme_cache(theme@),
{
    let caps: Vec<&str> = vec![
        "comment",
        "constant",
        "embedded",
        "function",
        "keyword",
        "number",
        "operator",
        "property",
        "punctuation.delimiter",
        "punctuation.special",
        "string",
        "string.escape",
        "text.emphasis",
        "text.literal",
        "text.reference",
        "text.strong",
        "text.title",
        "text.uri",
        "variable",
        "command.invalid",
        "path",
        "path.directory",
    ];
    let ghost cs = cached_captures();
    assert(caps@.map_values(|k: &str| k@) =~= cs);
    let mut cache = StrMap::new();
    let mut i: usize = 0;
    while i < caps.len()
        invariant
            0 <= i <= caps@.len(),
            caps@.map_values(|k: &str| k@) == cs,
            cs == cached_captures(),
            cache@ == cache_for(cs.take(i as int), theme@),
        decreases caps@.len() - i,
    {
        let ghost t = cs.take(i + 1);
        assert(t.drop_last() == cs.take(i as int));
        assert(t.last() == caps@[i as int]@);
        if let Some(style_str) = get_style(caps[i], &theme.styles, &theme.palette) {
            cache.insert(String::from_str(caps[i]), style_str);
        }
        i = i + 1;
    }
    assert(cs.take(caps@.len() as int) == cs);
    cache
}

/// The directory part of a path, as `Path::parent` gives it.
pub uninterp spec fn path_parent(path: Seq<char>) -> Option<Seq<char>>;

/// The path of `file` inside directory `dir`, as `Path::join` gives it: an
/// absolute `file` replaces `dir`; an empty `dir` gives `file`; otherwise
/// `file` follows `dir`, with a `/` between them unless `dir` ends with one.
pub open spec fn path_join(dir: Seq<char>, file: Seq<char>) -> Seq<char> {
    if starts_with(file, "/"@) || dir.len() == 0 {
        file
    } else if dir.last() == '/' {
        dir + file
    } else {
        dir + "/"@ + file
    }
}

/// Calls `std::path::Path::parent`: the result is the path without its last
/// component, or none for a root or an empty path; a function of `path` alone.
#[verifier::external_body]
fn parent_dir(path: &str) -> (r: Option<String>)
    ensures
        opt_string_view(r) == path_parent(path@),
{
    match std::path::Path::new(path).parent() {
        Some(d) => Some(d.to_string_lossy().into_owned()),
        None => None,
    }
}

/// Calls `std::path::Path::join`. As its documentation (and that of
/// `PathBuf::push`) says: an absolute `file` replaces `dir`; otherwise `file`
/// is appended to `dir`, with a `/` between them where `dir` is not empty and
/// does not already end with one. Both arguments are UTF-8, so the lossy
/// conversion back to a string keeps every character.
#[verifier::external_body]
fn join_path(dir: &str, file: &str) -> (r: String)
    ensures
        r@ == path_join(dir@, file@),
{
    std::path::Path::new(dir).join(file).to_string_lossy().into_owned()
}

/// The error given when inheritance goes deeper than ten parents.
pub open spec fn depth_error() -> Seq<char> {
    "theme inheritance depth exceeded limit of 10"@
}

/// The error given when a theme's path has no directory part.
pub open spec fn no_parent_error(path: Seq<char>) -> Seq<char> {
    "failed to get parent directory of '"@ + path + "'"@
}

/// What a theme file read gives, as values.
pub open spec fn theme_result_view(r: Result<ThemeFile, String>) -> Result<ThemeFileView, Seq<char>> {
    match r {
        Ok(t) => Ok(t@),
        Err(e) => Err(e@),
    }
}

/// Loading the theme at `path`, `depth` parents below the first, when reading
/// and parsing the file at a path `p` gives `read(p)`.
pub open spec fn spec_load_theme(
    read: spec_fn(Seq<char>) -> Result<ThemeFileView, Seq<char>>,
    path: Seq<char>,
    depth: int,
) -> Result<ThemeFileView, Seq<char>>
    decreases 11 - depth,
{
    if depth > 10 || depth < 0 {
        Err(depth_error())
    } else {
        match read(path) {
            Err(e) => Err(e),
            Ok(t) => match t.inherits {
                None => Ok(t),
                Some(name) => match path_parent(path) {
                    None => Err(no_parent_error(path)),
                    Some(dir) => match spec_load_theme(read, path_join(dir, name + ".toml"@), depth + 1) {
                        Err(e) => Err(e),
                        Ok(parent) => Ok(spec_merge(t, parent)),
                    },
                },
            },
        }
    }
}

/// `read_theme` returns `f(p)` for the path `p` it is called with.
pub open spec fn reads_as<F: Fn(&str) -> Result<ThemeFile, String>>(
    read_theme: F,
    f: spec_fn(Seq<char>) -> Result<ThemeFileView, Seq<char>>,
) -> bool {
    forall|p: &str, r: Result<ThemeFile, String>|
        #[trigger] call_ensures(read_theme, (p,), r) ==> theme_result_view(r) == f(p@)
}

/// Loading the theme at `path`, `depth` parents below the first, when the
/// reader's answer for the file read at depth `d` is `answers(d)`.
pub open spec fn spec_load_theme_answered(
    answers: spec_fn(int) -> Result<ThemeFileView, Seq<char>>,
    path: Seq<char>,
    depth: int,
) -> Result<ThemeFileView, Seq<char>>
    decreases 11 - depth,
{
    if depth > 10 || depth < 0 {
        Err(depth_error())
    } else {
        match answers(depth) {
            Err(e) => Err(e),
            Ok(t) => match t.inherits {
                None => Ok(t),
                Some(name) => match path_parent(path) {
                    None => Err(no_parent_error(path)),
                    Some(dir) => match spec_load_theme_answered(answers, path_join(dir, name + ".toml"@), depth + 1) {
                        Err(e) => Err(e),
                        Ok(parent) => Ok(spec_merge(t, parent)),
                    },
                },
            },
        }
    }
}

/// Whether `a` is an answer `read_theme` may give when asked for the file at `path`.
pub open spec fn may_read<F: Fn(&str) -> Result<ThemeFile, String>>(
    read_theme: F,
    path: Seq<char>,
    a: Result<ThemeFileView, Seq<char>>,
) -> bool {
    exists|p: &str, r: Result<ThemeFile, String>|
        p@ == path && #[trigger] call_ensures(read_theme, (p,), r) && theme_result_view(r) == a
}

/// Whether `answers` holds, for each file read when loading the theme at
/// `path` from `depth` on (the file at `path`, then its parent named by its
/// `inherits`, and so on), an answer `read_theme` may give for that file.
pub open spec fn reader_answers<F: Fn(&str) -> Result<ThemeFile, String>>(
    read_theme: F,
    answers: spec_fn(int) -> Result<ThemeFileView, Seq<char>>,
    path: Seq<char>,
    depth: int,
) -> bool
    decreases 11 - depth,
{
    if depth > 10 || depth < 0 {
        true
    } else {
        &&& may_read(read_theme, path, answers(depth))
        &&& match answers(depth) {
            Ok(t) => match t.inherits {
                Some(name) => match path_parent(path) {
                    Some(dir) => reader_answers(read_theme, answers, path_join(dir, name + ".toml"@), depth + 1),
                    None => true,
                },
                None => true,
            },
            Err(_) => true,
        }
    }
}

proof fn lemma_answered_frame<F: Fn(&str) -> Result<ThemeFile, String>>(
    read_theme: F,
    a1: spec_fn(int) -> Result<ThemeFileView, Seq<char>>,
    a2: spec_fn(int) -> Result<ThemeFileView, Seq<char>>,
    path: Seq<char>,
    depth: int,
)
    requires
        forall|d: int| d >= depth ==> #[trigger] a1(d) == a2(d),
    ensures
        spec_load_theme_answered(a1, path, depth) == spec_load_theme_answered(a2, path, depth),
        reader_answers(read_theme, a1, path, depth) == reader_answers(read_theme, a2, path, depth),
    decreases 11 - depth,
{
    if 0 <= depth <= 10 {
        assert(a1(depth) == a2(depth));
        if let Ok(t) = a1(depth) {
            if let Some(name) = t.inherits {
                if let Some(dir) = path_parent(path) {
                    lemma_answered_frame(read_theme, a1, a2, path_join(dir, name + ".toml"@), depth + 1);
                }
            }
        }
    }
}

/// With a reader that answers as `f`, loading with the reader's answers is
/// loading with `f`.
proof fn lemma_answered_as<F: Fn(&str) -> Result<ThemeFile, String>>(
    read_theme: F,
    f: spec_fn(Seq<char>) -> Result<ThemeFileView, Seq<char>>,
    answers: spec_fn(int) -> Result<ThemeFileView, Seq<char>>,
    path: Seq<char>,
    depth: int,
)
    requires
        reads_as(read_theme, f),
        reader_answers(read_theme, answers, path, depth),
    ensures
        spec_load_theme_answered(answers, path, depth) == spec_load_theme(f, path, depth),
    decreases 11 - depth,
{
    if 0 <= depth <= 10 {
        let (p, r) = choose|p: &str, r: Result<ThemeFile, String>|
            p@ == path && #[trigger] call_ensures(read_theme, (p,), r) && theme_result_view(r) == answers(depth);
        assert(answers(depth) == f(path));
        if let Ok(t) = answers(depth) {
            if let Some(name) = t.inherits {
                if let Some(dir) = path_parent(path) {
                    lemma_answered_as(read_theme, f, answers, path_join(dir, name + ".toml"@), depth + 1);
                }
            }
        }
    }
}

fn load_theme_recursive<F: Fn(&str) -> Result<ThemeFile, String>>(path: &str, depth: usize, read_theme: &F) -> (r: Result<
    ThemeFile,
    String,
>)
    requires
        depth <= 11,
        forall|p: &str| #[trigger] call_requires(*read_theme, (p,)),
    ensures
        exists|answers: spec_fn(int) -> Result<ThemeFileView, Seq<char>>|
            #[trigger] reader_answers(*read_theme, answers, path@, depth as int)
                && theme_result_view(r) == spec_load_theme_answered(answers, path@, depth as int),
    decreases 11 - depth,
{
    if depth > 10 {
        let ghost answers = |d: int| Err::<ThemeFileView, Seq<char>>(depth_error());
        assert(reader_answers(*read_theme, answers, path@, depth as int));
        return Err(String::from_str("theme inheritance depth exceeded limit of 10"));
    }
    let read_result = read_theme(path);
    let ghost got = theme_result_view(read_result);
    proof {
        assert(may_read(*read_theme, path@, got));
    }
    let theme = match read_result {
        Ok(t) => t,
        Err(e) => {
            let ghost answers = |d: int| got;
            assert(reader_answers(*read_theme, answers, path@, depth as int));
            return Err(e);
        },
    };
    match &theme.inherits {
        None => {
            let ghost answers = |d: int| got;
            assert(reader_answers(*read_theme, answers, path@, depth as int));
            Ok(theme)
        },
        Some(parent_name) => {
            let dir = match parent_dir(path) {
                Some(d) => d,
                None => {
                    let msg = concat(concat("failed to get parent directory of '", path).as_str(), "'");
                    let ghost answers = |d: int| got;
                    assert(reader_answers(*read_theme, answers, path@, depth as int));
                    return Err(msg);
                },
            };
            let file = concat(parent_name.as_str(), ".toml");
            let parent_path = join_path(dir.as_str(), file.as_str());
            let result = load_theme_recursive(parent_path.as_str(), depth + 1, read_theme);
            let ghost rest = choose|answers: spec_fn(int) -> Result<ThemeFileView, Seq<char>>|
                #[trigger] reader_answers(*read_theme, answers, parent_path@, depth + 1)
                    && theme_result_view(result) == spec_load_theme_answered(answers, parent_path@, depth + 1);
            let ghost answers = |d: int| if d == depth as int { got } else { rest(d) };
            proof {
                lemma_answered_frame(*read_theme, rest, answers, parent_path@, depth + 1);
                assert(reader_answers(*read_theme, answers, path@, depth as int));
            }
            let parent = match result {
                Ok(p) => p,
                Err(e) => {
                    return Err(e);
                },
            };
            Ok(merge_themes(theme, parent))
        },
    }
}

/// Loads the theme at `path` with its chain of parents (at most ten) merged
/// in, each parent under its child.
///
/// `read_theme` reads and parses one theme file; its errors are passed on.
pub fn load_theme<F: Fn(&str) -> Result<ThemeFile, String>>(path: &str, read_theme: &F) -> (r: Result<ThemeFile, String>)
    requires
        forall|p: &str| #[trigger] call_requires(*read_theme, (p,)),
    ensures
        exists|answers: spec_fn(int) -> Result<ThemeFileView, Seq<char>>|
            #[trigger] reader_answers(*read_theme, answers, path@, 0)
                && theme_result_view(r) == spec_load_theme_answered(answers, path@, 0),
        forall|f: spec_fn(Seq<char>) -> Result<ThemeFileView, Seq<char>>|
            #[trigger] reads_as(*read_theme, f) ==> theme_result_view(r) == spec_load_theme(f, path@, 0),
{
    let r = load_theme_recursive(path, 0, read_theme);
    proof {
        let answers = choose|answers: spec_fn(int) -> Result<ThemeFileView, Seq<char>>|
            #[trigger] reader_answers(*read_theme, answers, path@, 0)
                && theme_result_view(r) == spec_load_theme_answered(answers, path@, 0);
        assert forall|f: spec_fn(Seq<char>) -> Result<ThemeFileView, Seq<char>>|
            #[trigger] reads_as(*read_theme, f) implies theme_result_view(r) == spec_load_theme(f, path@, 0) by {
            lemma_answered_as(*read_theme, f, answers, path@, 0);
        }
    }
    r
}

/// Loading a theme fails only with an error of the reader for one of the
/// files read, the depth error, or the error for a path without a directory.
pub proof fn law_load_errors_are_read_depth_or_parent_errors(
    answers: spec_fn(int) -> Result<ThemeFileView, Seq<char>>,
    path: Seq<char>,
    depth: int,
)
    ensures
        spec_load_theme_answered(answers, path, depth) matches Err(e) ==> {
            ||| e == depth_error()
            ||| exists|q: Seq<char>| e == #[trigger] no_parent_error(q)
            ||| exists|d: int| depth <= d && #[trigger] answers(d) == Err::<ThemeFileView, Seq<char>>(e)
        },
    decreases 11 - depth,
{
    if 0 <= depth <= 10 {
        if let Ok(t) = answers(depth) {
            if let Some(name) = t.inherits {
                if let Some(dir) = path_parent(path) {
                    law_load_errors_are_read_depth_or_parent_errors(answers, path_join(dir, name + ".toml"@), depth + 1);
                } else {
                    assert(no_parent_error(path) == no_parent_error(path));
                }
            }
        }
    }
}

/// With answers that the reader may give, loading a theme fails only with the
/// depth error, with the error for a path without a directory (a path that
/// was read), or with an error that the reader gives for one of the paths
/// read.
pub proof fn law_load_errors_come_from_the_reader<F: Fn(&str) -> Result<ThemeFile, String>>(
    read_theme: F,
    answers: spec_fn(int) -> Result<ThemeFileView, Seq<char>>,
    path: Seq<char>,
    depth: int,
)
    requires
        reader_answers(read_theme, answers, path, depth),
    ensures
        spec_load_theme_answered(answers, path, depth) matches Err(e) ==> {
            ||| e == depth_error()
            ||| exists|q: Seq<char>, t: ThemeFileView|
                e == #[trigger] no_parent_error(q) && #[trigger] may_read(read_theme, q, Ok::<ThemeFileView, Seq<char>>(t))
            ||| exists|q: Seq<char>| #[trigger] may_read(read_theme, q, Err::<ThemeFileView, Seq<char>>(e))
        },
    decreases 11 - depth,
{
    if 0 <= depth <= 10 {
        assert(may_read(read_theme, path, answers(depth)));
        if let Ok(t) = answers(depth) {
            if let Some(name) = t.inherits {
                if let Some(dir) = path_parent(path) {
                    law_load_errors_come_from_the_reader(read_theme, answers, path_join(dir, name + ".toml"@), depth + 1);
                } else {
                    assert(no_parent_error(path) == no_parent_error(path));
                }
            }
        }
    }
}

/// What the style cache of the theme loaded from `path` is, when loading it
/// gives `loaded`: the cache of the theme, or the loading error.
pub open spec fn cache_outcome(r: Result<StrMap, String>, loaded: Result<ThemeFileView, Seq<char>>) -> bool {
    match loaded {
        Ok(t) => r matches Ok(m) && m@ == spec_theme_cache(t),
        Err(e) => r matches Err(msg) && msg@ == e,
    }
}

/// Loads the theme at `path`, following its chain of parents (at most ten),
/// and returns the style of every cached capture that has one.
///
/// `read_theme` reads and parses one theme file; its errors are passed on.
pub fn load_theme_file<F: Fn(&str) -> Result<ThemeFile, String>>(path: &str, read_theme: &F) -> (r: Result<StrMap, String>)
    requires
        forall|p: &str| #[trigger] call_requires(*read_theme, (p,)),
    ensures
        exists|answers: spec_fn(int) -> Result<ThemeFileView, Seq<char>>|
            #[trigger] reader_answers(*read_theme, answers, path@, 0)
                && cache_outcome(r, spec_load_theme_answered(answers, path@, 0)),
        forall|f: spec_fn(Seq<char>) -> Result<ThemeFileView, Seq<char>>|
            #[trigger] reads_as(*read_theme, f) ==> cache_outcome(r, spec_load_theme(f, path@, 0)),
{
    let loaded = load_theme(path, read_theme);
    let theme = match loaded {
        Ok(t) => t,
        Err(e) => {
            return Err(e);
        },
    };
    Ok(theme_cache(&theme))
}

// ---------------------------------------------------------------------------
// Converting a theme to the captures this highlighter uses
// ---------------------------------------------------------------------------

/// The other keys under which a theme may style `capture`, in order of preference.
pub open spec fn capture_aliases(capture: Seq<char>) -> Seq<Seq<char>> {
    if capture == "text.title"@ {
        seq!["markup.heading"@, "markup.heading.1"@]
    } else if capture == "text.strong"@ {
        seq!["markup.bold"@]
    } else if capture == "text.emphasis"@ {
        seq!["markup.italic"@]
    } else if capture == "text.literal"@ {
        seq!["markup.raw"@]
    } else if capture == "text.reference"@ {
        seq!["markup.link.text"@]
    } else if capture == "text.uri"@ {
        seq!["markup.link.url"@]
    } else if capture == "punctuation.delimiter"@ {
        seq!["punctuation"@]
    } else if capture == "punctuation.special"@ {
        seq!["special"@, "punctuation"@]
    } else if capture == "string.escape"@ {
        seq!["constant.character.escape"@, "constant"@]
    } else if capture == "embedded"@ {
        seq!["special"@]
    } else if capture == "property"@ {
        seq!["variable"@]
    } else if capture == "number"@ {
        seq!["constant"@]
    } else {
        Seq::empty()
    }
}

/// The keys tried, in order, when converting a theme's style for `capture`:
/// the capture itself, then its aliases.
pub fn get_lookup_keys(capture: &str) -> (keys: Vec<String>)
    ensures
        views(keys@) == seq![capture@] + capture_aliases(capture@),
{
    let mut keys: Vec<String> = Vec::new();
    keys.push(String::from_str(capture));
    if str_eq(capture, "text.title") {
        keys.push(String::from_str("markup.heading"));
        keys.push(String::from_str("markup.heading.1"));
    } else if str_eq(capture, "text.strong") {
        keys.push(String::from_str("markup.bold"));
    } else if str_eq(capture, "text.emphasis") {
        keys.push(String::from_str("markup.italic"));
    } else if str_eq(capture, "text.literal") {
        keys.push(String::from_str("markup.raw"));
    } else if str_eq(capture, "text.reference") {
        keys.push(String::from_str("markup.link.text"));
    } else if str_eq(capture, "text.uri") {
        keys.push(String::from_str("markup.link.url"));
    } else if str_eq(capture, "punctuation.delimiter") {
        keys.push(String::from_str("punctuation"));
    } else if str_eq(capture, "punctuation.special") {
        keys.push(String::from_str("special"));
        keys.push(String::from_str("punctuation"));
    } else if str_eq(capture, "string.escape") {
        keys.push(String::from_str("constant.character.escape"));
        keys.push(String::from_str("constant"));
    } else if str_eq(capture, "embedded") {
        keys.push(String::from_str("special"));
    } else if str_eq(capture, "property") {
        keys.push(String::from_str("variable"));
    } else if str_eq(capture, "number") {
        keys.push(String::from_str("constant"));
    }
    assert(views(keys@) =~= seq![capture@] + capture_aliases(capture@));
    keys
}

/// The keys tried when converting a theme's style for `capture`, row by row:
/// the capture itself, then its Helix names (`number` falls back to
/// `constant`, `property` to `variable`, `embedded` to `special`, …); any
/// other capture is looked up under its own name only.
pub proof fn law_lookup_keys_table(capture: Seq<char>)
    ensures
        capture == "text.title"@ ==> seq![capture] + capture_aliases(capture) == seq!["text.title"@, "markup.heading"@, "markup.heading.1"@],
        capture == "text.strong"@ ==> seq![capture] + capture_aliases(capture) == seq!["text.strong"@, "markup.bold"@],
        capture == "text.emphasis"@ ==> seq![capture] + capture_aliases(capture) == seq!["text.emphasis"@, "markup.italic"@],
        capture == "text.literal"@ ==> seq![capture] + capture_aliases(capture) == seq!["text.literal"@, "markup.raw"@],
        capture == "text.reference"@ ==> seq![capture] + capture_aliases(capture) == seq!["text.reference"@, "markup.link.text"@],
        capture == "text.uri"@ ==> seq![capture] + capture_aliases(capture) == seq!["text.uri"@, "markup.link.url"@],
        capture == "punctuation.delimiter"@ ==> seq![capture] + capture_aliases(capture) == seq!["punctuation.delimiter"@, "punctuation"@],
        capture == "punctuation.special"@ ==> seq![capture] + capture_aliases(capture) == seq!["punctuation.special"@, "special"@, "punctuation"@],
        capture == "string.escape"@ ==> seq![capture] + capture_aliases(capture) == seq!["string.escape"@, "constant.character.escape"@, "constant"@],
        capture == "embedded"@ ==> seq![capture] + capture_aliases(capture) == seq!["embedded"@, "special"@],
        capture == "property"@ ==> seq![capture] + capture_aliases(capture) == seq!["property"@, "variable"@],
        capture == "number"@ ==> seq![capture] + capture_aliases(capture) == seq!["number"@, "constant"@],
        capture != "text.title"@ && capture != "text.strong"@ && capture != "text.emphasis"@ && capture != "text.literal"@ && capture != "text.reference"@ && capture != "text.uri"@ && capture != "punctuation.delimiter"@ && capture != "punctuation.special"@ && capture != "string.escape"@ && capture != "embedded"@ && capture != "property"@ && capture != "number"@ ==> seq![capture] + capture_aliases(capture) == seq![capture],
{
    reveal_strlit("text.title");
    reveal_strlit("text.strong");
    reveal_strlit("text.emphasis");
    reveal_strlit("text.literal");
    reveal_strlit("text.reference");
    reveal_strlit("text.uri");
    reveal_strlit("punctuation.delimiter");
    reveal_strlit("punctuation.special");
    reveal_strlit("string.escape");
    reveal_strlit("embedded");
    reveal_strlit("property");
    reveal_strlit("number");
    assert(
        "text.title"@.len() == 10
            && "text.strong"@.len() == 11
            && "text.emphasis"@.len() == 13
            && "text.literal"@.len() == 12
            && "text.reference"@.len() == 14
            && "text.uri"@.len() == 8
            && "punctuation.delimiter"@.len() == 21
            && "punctuation.special"@.len() == 19
            && "string.escape"@.len() == 13
            && "embedded"@.len() == 8
            && "property"@.len() == 8
            && "number"@.len() == 6
    );
    assert(
        "text.title"@[0] == 't'
            && "text.strong"@[0] == 't'
            && "text.emphasis"@[0] == 't'
            && "text.literal"@[0] == 't'
            && "text.reference"@[0] == 't'
            && "text.uri"@[0] == 't'
            && "punctuation.delimiter"@[0] == 'p'
            && "punctuation.special"@[0] == 'p'
            && "string.escape"@[0] == 's'
            && "embedded"@[0] == 'e'
            && "property"@[0] == 'p'
            && "number"@[0] == 'n'
    );
    if capture == "text.title"@ {
        assert(capture_aliases(capture) == seq!["markup.heading"@, "markup.heading.1"@]);
        assert(seq![capture] + seq!["markup.heading"@, "markup.heading.1"@] =~= seq!["text.title"@, "markup.heading"@, "markup.heading.1"@]);
    }
    if capture == "text.strong"@ {
        assert(capture_aliases(capture) == seq!["markup.bold"@]);
        assert(seq![capture] + seq!["markup.bold"@] =~= seq!["text.strong"@, "markup.bold"@]);
    }
    if capture == "text.emphasis"@ {
        assert(capture_aliases(capture) == seq!["markup.italic"@]);
        assert(seq![capture] + seq!["markup.italic"@] =~= seq!["text.emphasis"@, "markup.italic"@]);
    }
    if capture == "text.literal"@ {
        assert(capture_aliases(capture) == seq!["markup.raw"@]);
        assert(seq![capture] + seq!["markup.raw"@] =~= seq!["text.literal"@, "markup.raw"@]);
    }
    if capture == "text.reference"@ {
        assert(capture_aliases(capture) == seq!["markup.link.text"@]);
        assert(seq![capture] + seq!["markup.link.text"@] =~= seq!["text.reference"@, "markup.link.text"@]);
    }
    if capture == "text.uri"@ {
        assert(capture_aliases(capture) == seq!["markup.link.url"@]);
        assert(seq![capture] + seq!["markup.link.url"@] =~= seq!["text.uri"@, "markup.link.url"@]);
    }
    if capture == "punctuation.delimiter"@ {
        assert(capture_aliases(capture) == seq!["punctuation"@]);
        assert(seq![capture] + seq!["punctuation"@] =~= seq!["punctuation.delimiter"@, "punctuation"@]);
    }
    if capture == "punctuation.special"@ {
        assert(capture_aliases(capture) == seq!["special"@, "punctuation"@]);
        assert(seq![capture] + seq!["special"@, "punctuation"@] =~= seq!["punctuation.special"@, "special"@, "punctuation"@]);
    }
    if capture == "string.escape"@ {
        assert(capture_aliases(capture) == seq!["constant.character.escape"@, "constant"@]);
        assert(seq![capture] + seq!["constant.character.escape"@, "constant"@] =~= seq!["string.escape"@, "constant.character.escape"@, "constant"@]);
    }
    if capture == "embedded"@ {
        assert(capture_aliases(capture) == seq!["special"@]);
        assert(seq![capture] + seq!["special"@] =~= seq!["embedded"@, "special"@]);
    }
    if capture == "property"@ {
        assert(capture_aliases(capture) == seq!["variable"@]);
        assert(seq![capture] + seq!["variable"@] =~= seq!["property"@, "variable"@]);
    }
    if capture == "number"@ {
        assert(capture_aliases(capture) == seq!["constant"@]);
        assert(seq![capture] + seq!["constant"@] =~= seq!["number"@, "constant"@]);
    }
}

/// The captures that a converted theme styles.
pub open spec fn converted_captures() -> Seq<Seq<char>> {
    seq![
        "comment"@,
        "constant"@,
        "embedded"@,
        "function"@,
        "keyword"@,
        "number"@,
        "operator"@,
        "property"@,
        "punctuation.delimiter"@,
        "punctuation.special"@,
        "string"@,
        "string.escape"@,
        "text.emphasis"@,
        "text.literal"@,
        "text.reference"@,
        "text.strong"@,
        "text.title"@,
        "text.uri"@,
        "variable"@,
    ]
}

/// The entry of the first of `keys` that `styles` has.
pub open spec fn first_found(styles: Seq<(Seq<char>, StyleValueView)>, keys: Seq<Seq<char>>) -> Option<StyleValueView>
    decreases keys.len(),
{
    if keys.len() == 0 {
        None
    } else {
        match lookup(styles, keys[0]) {
            Some(v) => Some(v),
            None => first_found(styles, keys.drop_first()),
        }
    }
}

/// The converted entries for `caps`: each capture with the entry of its first key found.
pub open spec fn converted_from(caps: Seq<Seq<char>>, styles: Seq<(Seq<char>, StyleValueView)>) -> Seq<(Seq<char>, StyleValueView)>
    decreases caps.len(),
{
    if caps.len() == 0 {
        Seq::empty()
    } else {
        converted_from(caps.drop_last(), styles) + match first_found(styles, seq![caps.last()] + capture_aliases(caps.last())) {
            Some(v) => seq![(caps.last(), v)],
            None => Seq::empty(),
        }
    }
}

/// The entry list of a converted theme: the captures' entries, then
/// `command.invalid` from `error` and `path.directory` from `ui.text.directory`.
pub open spec fn spec_convert_styles(styles: Seq<(Seq<char>, StyleValueView)>) -> Seq<(Seq<char>, StyleValueView)> {
    let overrides_error = match lookup(styles, "error"@) {
        Some(v) => seq![("command.invalid"@, v)],
        None => Seq::empty(),
    };
    let overrides_dir = match lookup(styles, "ui.text.directory"@) {
        Some(v) => seq![("path.directory"@, v)],
        None => Seq::empty(),
    };
    converted_from(converted_captures(), styles) + overrides_error + overrides_dir
}

/// The converted entry of `k` among `caps`: the entry of the first of its
/// keys found, where `k` is one of `caps`.
proof fn lemma_converted_lookup(caps: Seq<Seq<char>>, styles: Seq<(Seq<char>, StyleValueView)>, k: Seq<char>)
    ensures
        lookup(converted_from(caps, styles), k) == (if caps.contains(k) {
            first_found(styles, seq![k] + capture_aliases(k))
        } else {
            None
        }),
    decreases caps.len(),
{
    if caps.len() > 0 {
        let d = caps.drop_last();
        let x = caps.last();
        lemma_converted_lookup(d, styles, k);
        let fx = first_found(styles, seq![x] + capture_aliases(x));
        let e = match fx {
            Some(v) => seq![(x, v)],
            None => Seq::<(Seq<char>, StyleValueView)>::empty(),
        };
        assert(converted_from(caps, styles) == converted_from(d, styles) + e);
        lemma_lookup_concat(converted_from(d, styles), e, k);
        assert(caps =~= d.push(x));
        let le = lookup(e, k);
        if let Some(v) = fx {
            assert(e[0].0 == x);
            assert(e.drop_first().len() == 0);
            assert(lookup(e.drop_first(), k) is None);
            assert(le == (if x == k { Some(v) } else { None }));
        } else {
            assert(le is None);
        }
        if d.contains(k) {
            let i = choose|i: int| 0 <= i < d.len() && d[i] == k;
            assert(caps[i] == k);
            assert(caps.contains(k));
        } else {
            if caps.contains(k) {
                let i = choose|i: int| 0 <= i < caps.len() && caps[i] == k;
                if i < d.len() {
                    assert(d[i] == k);
                }
                assert(k == x);
            }
            if k == x {
                assert(caps[caps.len() - 1] == k);
            }
        }
    }
}

/// Converting a theme gives each converted capture the entry of the first
/// of its lookup keys that the theme has.
pub proof fn law_convert_takes_first_key_found(styles: Seq<(Seq<char>, StyleValueView)>, k: Seq<char>, v: StyleValueView)
    requires
        converted_captures().contains(k),
        first_found(styles, seq![k] + capture_aliases(k)) == Some(v),
    ensures
        lookup(spec_convert_styles(styles), k) == Some(v),
{
    lemma_converted_lookup(converted_captures(), styles, k);
    let overrides_error = match lookup(styles, "error"@) {
        Some(v) => seq![("command.invalid"@, v)],
        None => Seq::empty(),
    };
    let overrides_dir = match lookup(styles, "ui.text.directory"@) {
        Some(v) => seq![("path.directory"@, v)],
        None => Seq::empty(),
    };
    let conv = converted_from(converted_captures(), styles);
    assert(spec_convert_styles(styles) == conv + overrides_error + overrides_dir);
    lemma_lookup_concat(conv + overrides_error, overrides_dir, k);
    lemma_lookup_concat(conv, overrides_error, k);
}

/// A theme that styles `constant` but not `number` gives numbers the
/// `constant` entry when converted.
pub proof fn law_convert_number_falls_back_to_constant(styles: Seq<(Seq<char>, StyleValueView)>, v: StyleValueView)
    requires
        lookup(styles, "number"@) is None,
        lookup(styles, "constant"@) == Some(v),
    ensures
        lookup(spec_convert_styles(styles), "number"@) == Some(v),
{
    law_lookup_keys_table("number"@);
    let keys = seq!["number"@, "constant"@];
    assert(keys.drop_first() =~= seq!["constant"@]);
    assert(seq!["constant"@][0] == "constant"@);
    assert(first_found(styles, seq!["constant"@]) == Some(v));
    assert(keys[0] == "number"@);
    assert(first_found(styles, keys) == first_found(styles, keys.drop_first()));
    assert(first_found(styles, keys) == Some(v));
    assert(converted_captures()[5] == "number"@);
    law_convert_takes_first_key_found(styles, "number"@, v);
}

/// A copy of a list of strings.
pub fn copy_strings(v: &Vec<String>) -> (r: Vec<String>)
    ensures
        views(r@) == views(v@),
{
    let mut r: Vec<String> = Vec::new();
    let mut i: usize = 0;
    while i < v.len()
        invariant
            0 <= i <= v@.len(),
            views(r@) == views(v@).take(i as int),
        decreases v@.len() - i,
    {
        let ghost before = r@;
        let c = v[i].clone();
        r.push(c);
        assert(r@ == before.push(c));
        assert(views(r@) =~= views(before).push(v@[i as int]@));
        assert(views(r@) =~= views(v@).take(i + 1));
        i = i + 1;
    }
    assert(views(v@).take(v@.len() as int) =~= views(v@));
    r
}

fn copy_opt(o: &Option<String>) -> (r: Option<String>)
    ensures
        opt_string_view(r) == opt_string_view(*o),
{
    match o {
        Some(s) => Some(s.clone()),
        None => None,
    }
}

impl StyleValue {
    /// A copy of this entry.
    pub fn copy_value(&self) -> (r: StyleValue)
        ensures
            r@ == self@,
    {
        match self {
            StyleValue::Simple(s) => StyleValue::Simple(s.clone()),
            StyleValue::Full(f) => StyleValue::Full(FileStyle {
                fg: copy_opt(&f.fg),
                bg: copy_opt(&f.bg),
                modifiers: match &f.modifiers {
                    Some(m) => Some(copy_strings(m)),
                    None => None,
                },
                underline: f.underline,
            }),
            StyleValue::PaletteList(l) => StyleValue::PaletteList(copy_strings(l)),
        }
    }
}

/// The entry of the first of `keys` that `styles` has.
fn first_found_exec<'a>(styles: &'a Vec<(String, StyleValue)>, keys: &Vec<String>) -> (r: Option<&'a StyleValue>)
    ensures
        match r {
            Some(v) => first_found(style_entry_views(styles@), views(keys@)) == Some(v@),
            None => first_found(style_entry_views(styles@), views(keys@)) is None,
        },
{
    let ghost sv = style_entry_views(styles@);
    let mut i: usize = 0;
    assert(views(keys@).skip(0) == views(keys@));
    while i < keys.len()
        invariant
            0 <= i <= keys@.len(),
            sv == style_entry_views(styles@),
            first_found(sv, views(keys@)) == first_found(sv, views(keys@).skip(i as int)),
        decreases keys@.len() - i,
    {
        let ghost ks = views(keys@).skip(i as int);
        assert(ks[0] == keys@[i as int]@);
        assert(ks.drop_first() == views(keys@).skip(i + 1));
        if let Some(v) = styles_get(styles, keys[i].as_str()) {
            return Some(v);
        }
        i = i + 1;
    }
    assert(views(keys@).skip(i as int).len() == 0);
    None
}

/// Converts a theme's entries to the flat set of captures this highlighter
/// uses: each capture takes the entry of its first key found (itself, then
/// its aliases); `error` becomes `command.invalid` and `ui.text.directory`
/// becomes `path.directory`.
pub fn convert_styles(styles: &Vec<(String, StyleValue)>) -> (r: Vec<(String, StyleValue)>)
    ensures
        style_entry_views(r@) == spec_convert_styles(style_entry_views(styles@)),
{
    let caps: Vec<&str> = vec![
        "comment",
        "constant",
        "embedded",
        "function",
        "keyword",
        "number",
        "operator",
        "property",
        "punctuation.delimiter",
        "punctuation.special",
        "string",
        "string.escape",
        "text.emphasis",
        "text.literal",
        "text.reference",
        "text.strong",
        "text.title",
        "text.uri",
        "variable",
    ];
    let ghost cs = converted_captures();
    let ghost sv = style_entry_views(styles@);
    assert(caps@.map_values(|k: &str| k@) =~= cs);
    let mut out: Vec<(String, StyleValue)> = Vec::new();
    let mut i: usize = 0;
    while i < caps.len()
        invariant
            0 <= i <= caps@.len(),
            caps@.map_values(|k: &str| k@) == cs,
            cs == converted_captures(),
            sv == style_entry_views(styles@),
            style_entry_views(out@) == converted_from(cs.take(i as int), sv),
        decreases caps@.len() - i,
    {
        let ghost t = cs.take(i + 1);
        assert(t.drop_last() == cs.take(i as int));
        assert(t.last() == caps@[i as int]@);
        let keys = get_lookup_keys(caps[i]);
        let ghost before = style_entry_views(out@);
        if let Some(v) = first_found_exec(styles, &keys) {
            out.push((String::from_str(caps[i]), v.copy_value()));
        }
        assert(style_entry_views(out@) =~= converted_from(cs.take(i + 1), sv));
        i = i + 1;
    }
    assert(cs.take(caps@.len() as int) == cs);
    let ghost base = style_entry_views(out@);
    if let Some(v) = styles_get(styles, "error") {
        out.push((String::from_str("command.invalid"), v.copy_value()));
    }
    let ghost mid = style_entry_views(out@);
    assert(mid =~= base + match lookup(sv, "error"@) {
        Some(v) => seq![("command.invalid"@, v)],
        None => Seq::empty(),
    });
    if let Some(v) = styles_get(styles, "ui.text.directory") {
        out.push((String::from_str("path.directory"), v.copy_value()));
    }
    assert(style_entry_views(out@) =~= spec_convert_styles(sv));
    out
}

// ---------------------------------------------------------------------------
// Writing a theme out: one entry per key, keys in ascending order
// ---------------------------------------------------------------------------

/// The entries of `s` with their keys taken by view.
pub open spec fn keyed<V>(s: Seq<(String, V)>) -> Seq<(Seq<char>, V)> {
    s.map_values(|e: (String, V)| (e.0@, e.1))
}

/// Whether the keys of `s` are in strictly ascending order.
pub open spec fn keys_ascending<V>(s: Seq<(String, V)>) -> bool {
    forall|i: int, j: int| 0 <= i < j < s.len() ==> str_lt(#[trigger] s[i].0@, #[trigger] s[j].0@)
}

proof fn lemma_str_lt_irreflexive(a: Seq<char>)
    ensures
        !str_lt(a, a),
    decreases a.len(),
{
    if a.len() > 0 {
        lemma_str_lt_irreflexive(a.drop_first());
    }
}

proof fn lemma_lookup_single<V>(x: (Seq<char>, V), k: Seq<char>)
    ensures
        lookup(seq![x], k) == (if x.0 == k { Some(x.1) } else { None }),
{
    assert(seq![x][0] == x);
    assert(seq![x].drop_first() =~= Seq::<(Seq<char>, V)>::empty());
    assert(lookup(Seq::<(Seq<char>, V)>::empty(), k) is None);
}

proof fn lemma_lookup_push<V>(s: Seq<(Seq<char>, V)>, x: (Seq<char>, V), k: Seq<char>)
    ensures
        lookup(s.push(x), k) == match lookup(s, k) {
            Some(v) => Some(v),
            None => if x.0 == k { Some(x.1) } else { None },
        },
{
    lemma_lookup_concat(s, seq![x], k);
    assert(s + seq![x] == s.push(x));
    lemma_lookup_single(x, k);
}

/// `entries` with one entry per key, the first one of that key, in ascending
/// order of keys (the order in which a converted theme is written out).
pub fn entries_by_key<V>(entries: Vec<(String, V)>) -> (r: Vec<(String, V)>)
    ensures
        keys_ascending(r@),
        forall|k: Seq<char>| #[trigger] lookup(keyed(r@), k) == lookup(keyed(entries@), k),
{
    let ghost orig = entries@;
    let total = entries.len();
    let mut rest = entries;
    let mut out: Vec<(String, V)> = Vec::new();
    let mut i: usize = 0;
    while rest.len() > 0
        invariant
            rest@ == orig.skip(i as int),
            0 <= i <= orig.len(),
            orig.len() == total,
            keys_ascending(out@),
            forall|k: Seq<char>| #[trigger] lookup(keyed(out@), k) == lookup(keyed(orig.take(i as int)), k),
        decreases rest@.len(),
    {
        let ghost before = out@;
        assert(i < orig.len());
        assert(orig.skip(i as int)[0] == orig[i as int]);
        let (key, value) = rest.remove(0);
        assert(rest@ =~= orig.skip(i + 1));
        proof {
            assert(keyed(orig.take(i + 1)) =~= keyed(orig.take(i as int)).push((key@, value)));
            assert forall|k: Seq<char>| #[trigger] lookup(keyed(orig.take(i + 1)), k) == match lookup(keyed(orig.take(i as int)), k) {
                Some(v) => Some(v),
                None => if key@ == k { Some(value) } else { None },
            } by {
                lemma_lookup_push(keyed(orig.take(i as int)), (key@, value), k);
            }
        }
        let mut pos: usize = 0;
        while pos < out.len() && string_lt(out[pos].0.as_str(), key.as_str())
            invariant
                out@ == before,
                0 <= pos <= out@.len(),
                forall|j: int| 0 <= j < pos ==> str_lt(#[trigger] out@[j].0@, key@),
            decreases out@.len() - pos,
        {
            pos = pos + 1;
        }
        proof {
            assert forall|j: int| 0 <= j < pos implies #[trigger] keyed(before)[j].0 != key@ by {
                lemma_str_lt_irreflexive(key@);
                assert(str_lt(before[j].0@, key@));
            }
            assert(keyed(before) =~= keyed(before).take(pos as int) + keyed(before).skip(pos as int));
            lemma_lookup_none(keyed(before).take(pos as int), key@);
        }
        if pos < out.len() && str_eq(out[pos].0.as_str(), key.as_str()) {
            proof {
                lemma_lookup_concat(keyed(before).take(pos as int), keyed(before).skip(pos as int), key@);
                assert(keyed(before).skip(pos as int)[0].0 == key@);
                assert(lookup(keyed(before), key@) is Some);
            }
        } else {
            proof {
                if pos < before.len() {
                    lemma_str_lt_total(key@, before[pos as int].0@);
                }
                assert forall|j: int| pos <= j < before.len() implies #[trigger] keyed(before)[j].0 != key@ by {
                    lemma_str_lt_irreflexive(key@);
                    if j > pos {
                        assert(str_lt(before[pos as int].0@, before[j].0@));
                        lemma_str_lt_trans(key@, before[pos as int].0@, before[j].0@);
                    }
                }
                assert forall|j: int| 0 <= j < before.len() implies #[trigger] keyed(before)[j].0 != key@ by {
                    if j < pos {
                        assert(keyed(before).take(pos as int)[j].0 == keyed(before)[j].0);
                    }
                }
                lemma_lookup_none(keyed(before), key@);
            }
            out.insert(pos, (key, value));
            proof {
                let kb = keyed(before);
                let front = kb.take(pos as int);
                let back = kb.skip(pos as int);
                assert(keyed(out@) =~= front + (seq![(key@, value)] + back));
                assert forall|k: Seq<char>| #[trigger] lookup(keyed(out@), k) == (if k == key@ { Some(value) } else { lookup(kb, k) }) by {
                    lemma_lookup_concat(front, seq![(key@, value)] + back, k);
                    lemma_lookup_concat(seq![(key@, value)], back, k);
                    lemma_lookup_concat(front, back, k);
                    lemma_lookup_single((key@, value), k);
                    if k == key@ {
                        lemma_lookup_none(front, key@);
                    }
                }
                assert forall|a: int, b: int| 0 <= a < b < out@.len() implies str_lt(#[trigger] out@[a].0@, #[trigger] out@[b].0@) by {
                    if a < pos && b == pos {
                    } else if a < pos && b > pos {
                        assert(out@[b] == before[b - 1]);
                    } else if a == pos && b > pos {
                        assert(out@[b] == before[b - 1]);
                        if b - 1 > pos {
                            lemma_str_lt_trans(key@, before[pos as int].0@, before[b - 1].0@);
                        }
                    } else if a > pos {
                        assert(out@[a] == before[a - 1]);
                        assert(out@[b] == before[b - 1]);
                    }
                }
            }
        }
        i = i + 1;
    }
    assert(orig.take(i as int) =~= orig);
    out
}

} // verus!
