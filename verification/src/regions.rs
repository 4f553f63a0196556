//! From spans over the whole edited text (the continuation lines already
//! accepted, then the line being edited) to zsh `region_highlight` entries
//! over the line being edited.
use vstd::prelude::*;

use crate::highlight::LanguageConfig;
use crate::spans::{sort_spans, sort_spans_by_position, span_views, Span, SpanView};
use crate::strmap::StrMap;
use crate::text::{concat, str_eq};

verus! {

/// The protocol version that the zsh integration and the daemon must share.
pub open spec fn protocol_version() -> Seq<char> {
    "2"@
}

/// Whether a client speaks this daemon's protocol version.
pub fn protocol_version_matches(version: &str) -> (r: bool)
    ensures
        r == (version@ == protocol_version()),
{
    str_eq(version, "2")
}

/// The language that a highlighter mode name selects: `markdown` and `md`
/// select markdown, anything else zsh.
pub open spec fn spec_language_for_mode(mode: Seq<char>) -> LanguageConfig {
    if mode == "markdown"@ || mode == "md"@ {
        LanguageConfig::Markdown
    } else {
        LanguageConfig::Zsh
    }
}

/// The language that a highlighter mode name selects.
pub fn language_for_mode(mode: &str) -> (r: LanguageConfig)
    ensures
        r == spec_language_for_mode(mode@),
{
    if str_eq(mode, "markdown") || str_eq(mode, "md") {
        LanguageConfig::Markdown
    } else {
        LanguageConfig::Zsh
    }
}

// ---------------------------------------------------------------------------
// Decimal numbers
// ---------------------------------------------------------------------------

/// The decimal digit of `d` (below ten).
pub open spec fn digit_char(d: nat) -> char {
    (d + 48) as char
}

/// The decimal representation of `n`, without leading zeros.
pub open spec fn decimal(n: nat) -> Seq<char>
    decreases n,
{
    if n < 10 {
        seq![digit_char(n)]
    } else {
        decimal(n / 10).push(digit_char(n % 10))
    }
}

/// The decimal representation of `n`.
pub fn to_decimal(n: usize) -> (r: String)
    ensures
        r@ == decimal(n as nat),
{
    let mut digits: Vec<char> = Vec::new();
    let mut m = n;
    // digits are collected least significant first
    loop
        invariant
            m <= n,
            decimal(n as nat) == decimal(m as nat) + digits@.reverse(),
            m > 0 || digits@.len() > 0 || n == 0,
            m == 0 ==> digits@.len() > 0 || n == 0,
            forall|j: int| 0 <= j < digits@.len() ==> 48 <= #[trigger] digits@[j] as u32 <= 57,
        decreases m,
    {
        let d = m % 10;
        let c = char_of_digit(d);
        if m < 10 {
            let ghost before = digits@;
            digits.push(c);
            assert(digits@.reverse() =~= seq![c] + before.reverse());
            assert(decimal(n as nat) =~= digits@.reverse());
            let mut out = String::new();
            let mut k = digits.len();
            while k > 0
                invariant
                    0 <= k <= digits@.len(),
                    out@ == digits@.reverse().take(digits@.len() - k),
                    forall|j: int| 0 <= j < digits@.len() ==> 48 <= #[trigger] digits@[j] as u32 <= 57,
                decreases k,
            {
                k = k - 1;
                out = concat(out.as_str(), char_str(digits[k]).as_str());
                assert(out@ =~= digits@.reverse().take(digits@.len() - k));
            }
            assert(digits@.reverse().take(digits@.len() as int) == digits@.reverse());
            return out;
        }
        let ghost before = digits@;
        digits.push(c);
        assert(digits@.reverse() =~= seq![c] + before.reverse());
        assert(decimal(m as nat) == decimal((m / 10) as nat).push(c));
        assert(decimal((m / 10) as nat).push(c) + before.reverse() =~= decimal((m / 10) as nat) + digits@.reverse());
        m = m / 10;
    }
}

fn char_of_digit(d: usize) -> (c: char)
    requires
        d < 10,
    ensures
        c == digit_char(d as nat),
{
    if d == 0 {
        '0'
    } else if d == 1 {
        '1'
    } else if d == 2 {
        '2'
    } else if d == 3 {
        '3'
    } else if d == 4 {
        '4'
    } else if d == 5 {
        '5'
    } else if d == 6 {
        '6'
    } else if d == 7 {
        '7'
    } else if d == 8 {
        '8'
    } else {
        '9'
    }
}

/// The one-character string of the decimal digit `c`.
fn char_str(c: char) -> (r: String)
    requires
        48 <= c as u32 <= 57,
    ensures
        r@ == seq![c],
{
    proof {
        reveal_strlit("0");
        reveal_strlit("1");
        reveal_strlit("2");
        reveal_strlit("3");
        reveal_strlit("4");
        reveal_strlit("5");
        reveal_strlit("6");
        reveal_strlit("7");
        reveal_strlit("8");
        reveal_strlit("9");
    }
    match c {
        '0' => String::from_str("0"),
        '1' => String::from_str("1"),
        '2' => String::from_str("2"),
        '3' => String::from_str("3"),
        '4' => String::from_str("4"),
        '5' => String::from_str("5"),
        '6' => String::from_str("6"),
        '7' => String::from_str("7"),
        '8' => String::from_str("8"),
        _ => String::from_str("9"),
    }
}

// ---------------------------------------------------------------------------
// Spans to regions
// ---------------------------------------------------------------------------

/// A span over the whole text, moved onto the edited line that starts at
/// character `pre`: none when it lies before that line or becomes empty;
/// a span that starts before the line is cut at its start.
pub open spec fn shift_span(s: SpanView, pre: nat) -> Option<(nat, nat)> {
    if s.end <= pre {
        None
    } else {
        let start: nat = if s.start < pre { 0 } else { (s.start - pre) as nat };
        let end: nat = (s.end - pre) as nat;
        if start >= end {
            None
        } else {
            Some((start, end))
        }
    }
}

/// A region entry: start, end and attributes, separated by spaces.
pub open spec fn region_line(start: nat, end: nat, attr: Seq<char>) -> Seq<char> {
    decimal(start) + " "@ + decimal(end) + " "@ + attr
}

/// The region entries of `spans` on the edited line starting at character
/// `pre`, each span's style given by `style_of` (a span whose style has none
/// is left out).
pub open spec fn regions_of(spans: Seq<SpanView>, pre: nat, style_of: spec_fn(Seq<char>) -> Option<Seq<char>>) -> Seq<Seq<char>>
    decreases spans.len(),
{
    if spans.len() == 0 {
        Seq::empty()
    } else {
        let rest = regions_of(spans.drop_last(), pre, style_of);
        let s = spans.last();
        match shift_span(s, pre) {
            Some((a, b)) => match style_of(s.style) {
                Some(attr) => rest.push(region_line(a, b, attr)),
                None => rest,
            },
            None => rest,
        }
    }
}

/// The region entry of one span on the edited line starting at character
/// `pre`: the span's start less `pre` (0 when it starts before the line), its
/// end less `pre`, and its attributes; none when the span ends within the
/// lines before, is empty on the line, or its style has no attributes.
pub open spec fn region_entry(
    s: SpanView,
    pre: nat,
    style_of: spec_fn(Seq<char>) -> Option<Seq<char>>,
) -> Option<Seq<char>> {
    let start: int = if s.start < pre { 0 } else { s.start - pre };
    let end: int = s.end - pre;
    if s.end > pre && start < end && style_of(s.style) is Some {
        Some(region_line(start as nat, end as nat, style_of(s.style)->Some_0))
    } else {
        None
    }
}

/// The region entries of spans are, in the spans' order, the entry of each
/// span that has one: the daemon's reply (each span's own style) and the
/// edited line's `region_highlight` (each span's theme attributes) both take
/// this form.
pub proof fn law_regions_are_span_entries(
    spans: Seq<SpanView>,
    pre: nat,
    style_of: spec_fn(Seq<char>) -> Option<Seq<char>>,
)
    ensures
        regions_of(spans, pre, style_of) == spans.filter_map(|s: SpanView| region_entry(s, pre, style_of)),
    decreases spans.len(),
{
    let f = |s: SpanView| region_entry(s, pre, style_of);
    if spans.len() > 0 {
        law_regions_are_span_entries(spans.drop_last(), pre, style_of);
        let rest = spans.drop_last().filter_map(f);
        match f(spans.last()) {
            Some(x) => {
                assert(rest.push(x) =~= rest + seq![x]);
            },
            None => {},
        }
    }
}

/// The style of a span: its own name.
pub open spec fn own_style() -> spec_fn(Seq<char>) -> Option<Seq<char>> {
    |name: Seq<char>| Some(name)
}

/// The style of a span: what `theme` maps its name to.
pub open spec fn theme_style(theme: Map<Seq<char>, Seq<char>>) -> spec_fn(Seq<char>) -> Option<Seq<char>> {
    |name: Seq<char>| if theme.dom().contains(name) { Some(theme[name]) } else { None }
}

fn region_text(start: usize, end: usize, attr: &str) -> (r: String)
    ensures
        r@ == region_line(start as nat, end as nat, attr@),
{
    let a = to_decimal(start);
    let b = to_decimal(end);
    let s1 = concat(a.as_str(), " ");
    let s2 = concat(s1.as_str(), b.as_str());
    let s3 = concat(s2.as_str(), " ");
    concat(s3.as_str(), attr)
}

/// The region entries for `spans` (over prebuffer and buffer together) on the
/// buffer, which starts at character `prebuffer_len`; each entry's attributes
/// are the span's style name when `theme` is absent, and what `theme` maps it
/// to otherwise (spans whose style the theme lacks are left out).
pub fn buffer_regions(spans: &Vec<Span>, prebuffer_len: usize, theme: Option<&StrMap>) -> (r: Vec<String>)
    ensures
        crate::text::views(r@) == regions_of(
            span_views(spans@),
            prebuffer_len as nat,
            match theme {
                Some(t) => theme_style(t@),
                None => own_style(),
            },
        ),
{
    let ghost sv = span_views(spans@);
    let ghost style_of = match theme {
        Some(t) => theme_style(t@),
        None => own_style(),
    };
    let mut out: Vec<String> = Vec::new();
    let mut i: usize = 0;
    while i < spans.len()
        invariant
            sv == span_views(spans@),
            style_of == match theme {
                Some(t) => theme_style(t@),
                None => own_style(),
            },
            0 <= i <= spans@.len(),
            crate::text::views(out@) == regions_of(sv.take(i as int), prebuffer_len as nat, style_of),
        decreases spans@.len() - i,
    {
        let span = &spans[i];
        proof {
            let t = sv.take(i + 1);
            assert(t.drop_last() == sv.take(i as int));
            assert(t.last() == span@);
        }
        let ghost prev = crate::text::views(out@);
        if span.end > prebuffer_len {
            let start = if span.start < prebuffer_len { 0 } else { span.start - prebuffer_len };
            let end = span.end - prebuffer_len;
            if start < end {
                match theme {
                    Some(t) => {
                        if let Some(attr) = t.get(span.style.as_str()) {
                            let line = region_text(start, end, attr.as_str());
                            out.push(line);
                            assert(crate::text::views(out@) =~= prev.push(line@));
                        }
                    },
                    None => {
                        let line = region_text(start, end, span.style.as_str());
                        out.push(line);
                        assert(crate::text::views(out@) =~= prev.push(line@));
                    },
                }
            }
        }
        i = i + 1;
    }
    assert(sv.take(spans@.len() as int) == sv);
    out
}

/// `lines` joined with `\n` between consecutive lines.
pub open spec fn join_lines(lines: Seq<Seq<char>>) -> Seq<char>
    decreases lines.len(),
{
    if lines.len() == 0 {
        Seq::empty()
    } else if lines.len() == 1 {
        lines[0]
    } else {
        join_lines(lines.drop_last()) + seq!['\n'] + lines.last()
    }
}

/// Joins `lines` with `\n` between consecutive lines.
pub fn join_with_newlines(lines: &Vec<String>) -> (r: String)
    ensures
        r@ == join_lines(crate::text::views(lines@)),
{
    let ghost lv = crate::text::views(lines@);
    let mut r = String::new();
    let mut i: usize = 0;
    while i < lines.len()
        invariant
            lv == crate::text::views(lines@),
            0 <= i <= lines@.len(),
            r@ == join_lines(lv.take(i as int)),
        decreases lines@.len() - i,
    {
        let ghost before = r@;
        proof {
            reveal_strlit("\n");
        }
        if i > 0 {
            r.append("\n");
            assert(r@ == before + seq!['\n']);
        }
        r.append(lines[i].as_str());
        proof {
            let t = lv.take(i + 1);
            assert(t.drop_last() == lv.take(i as int));
            assert(t.last() == lines@[i as int]@);
            if i == 0 {
                assert(r@ == t[0]);
            }
        }
        i = i + 1;
    }
    assert(lv.take(lines@.len() as int) == lv);
    r
}

/// The daemon's reply for a request: the region entries of the spans over
/// prebuffer and buffer, moved onto the buffer, one per line.
pub fn response_regions(spans: &Vec<Span>, prebuffer_len: usize) -> (r: String)
    ensures
        r@ == join_lines(regions_of(span_views(spans@), prebuffer_len as nat, own_style())),
{
    let lines = buffer_regions(spans, prebuffer_len, None);
    join_with_newlines(&lines)
}

// ---------------------------------------------------------------------------
// The zsh module's highlighting of the edited line
// ---------------------------------------------------------------------------

/// The spans that mark the commands found invalid: for each command whose
/// entry in `valid` is false, a `command.invalid` span over its name.
pub open spec fn invalid_command_spans(commands: Seq<(usize, usize, Seq<char>)>, valid: Seq<bool>) -> Seq<SpanView>
    decreases commands.len(),
{
    if commands.len() == 0 {
        Seq::empty()
    } else {
        let rest = invalid_command_spans(commands.drop_last(), valid);
        let c = commands.last();
        if valid.len() >= commands.len() && !valid[commands.len() - 1] {
            rest.push(SpanView { start: c.0, end: c.1, style: "command.invalid"@ })
        } else {
            rest
        }
    }
}

/// The entries of the edited line's `region_highlight`: the highlight spans
/// and the invalid-command spans, sorted, moved onto the buffer and styled
/// through `theme`.
pub open spec fn spec_line_regions(
    spans: Seq<SpanView>,
    commands: Seq<(usize, usize, Seq<char>)>,
    valid: Seq<bool>,
    prebuffer_len: nat,
    theme: Map<Seq<char>, Seq<char>>,
) -> Seq<Seq<char>> {
    regions_of(sort_spans(spans + invalid_command_spans(commands, valid)), prebuffer_len, theme_style(theme))
}

/// Computes the edited line's `region_highlight` entries from the highlight
/// spans, the command names with whether each is a known command, the length
/// of the prebuffer, and the theme.
pub fn line_regions(
    spans: &Vec<Span>,
    commands: &Vec<(usize, usize, String)>,
    valid: &Vec<bool>,
    prebuffer_len: usize,
    theme: &StrMap,
) -> (r: Vec<String>)
    ensures
        crate::text::views(r@) == spec_line_regions(
            span_views(spans@),
            crate::highlight::command_views(commands@),
            valid@,
            prebuffer_len as nat,
            theme@,
        ),
{
    let ghost cv = crate::highlight::command_views(commands@);
    let mut all: Vec<Span> = Vec::new();
    let mut i: usize = 0;
    while i < spans.len()
        invariant
            0 <= i <= spans@.len(),
            span_views(all@) == span_views(spans@).take(i as int),
        decreases spans@.len() - i,
    {
        let c = spans[i].copy();
        let ghost prev = span_views(all@);
        all.push(c);
        assert(span_views(all@) =~= prev.push(c@));
        assert(span_views(spans@).take(i + 1) =~= span_views(spans@).take(i as int).push(spans@[i as int]@));
        assert(span_views(all@) =~= span_views(spans@).take(i + 1));
        i = i + 1;
    }
    assert(span_views(spans@).take(spans@.len() as int) == span_views(spans@));
    let ghost base = span_views(all@);
    let mut j: usize = 0;
    while j < commands.len()
        invariant
            cv == crate::highlight::command_views(commands@),
            0 <= j <= commands@.len(),
            span_views(all@) == base + invalid_command_spans(cv.take(j as int), valid@),
        decreases commands@.len() - j,
    {
        let ghost prev = span_views(all@);
        proof {
            let t = cv.take(j + 1);
            assert(t.drop_last() == cv.take(j as int));
        }
        if j < valid.len() && !valid[j] {
            let (s, e, _) = &commands[j];
            all.push(Span::new(*s, *e, String::from_str("command.invalid")));
            assert(span_views(all@) =~= prev.push(SpanView { start: *s, end: *e, style: "command.invalid"@ }));
        }
        assert(span_views(all@) =~= base + invalid_command_spans(cv.take(j + 1), valid@));
        j = j + 1;
    }
    assert(cv.take(commands@.len() as int) == cv);
    let sorted = sort_spans_by_position(&all);
    buffer_regions(&sorted, prebuffer_len, Some(theme))
}

/// Whether the cached theme must be loaded again: no theme was loaded yet, or
/// another path is configured, or the cache is empty.
pub fn theme_needs_reload(cached_path: Option<&str>, theme_path: &str, cache_is_empty: bool) -> (r: bool)
    ensures
        r == match cached_path {
            Some(p) => p@ != theme_path@ || cache_is_empty,
            None => true,
        },
{
    match cached_path {
        Some(p) => !str_eq(p, theme_path) || cache_is_empty,
        None => true,
    }
}

} // verus!
