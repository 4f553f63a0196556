//! Highlight spans over character offsets: converting byte offsets to
//! character offsets, turning captures into spans, ordering and merging them.
use vstd::prelude::*;

use crate::text::str_eq;

verus! {

/// A highlighted span with character (not byte) offsets.
#[derive(Debug, Clone, PartialEq, Eq)]
pub struct Span {
    pub start: usize,
    pub end: usize,
    pub style: String,
}

/// What a `Span` denotes.
pub struct SpanView {
    pub start: usize,
    pub end: usize,
    pub style: Seq<char>,
}

impl View for Span {
    type V = SpanView;

    open spec fn view(&self) -> SpanView {
        SpanView { start: self.start, end: self.end, style: self.style@ }
    }
}

/// The views of a list of spans.
pub open spec fn span_views(s: Seq<Span>) -> Seq<SpanView> {
    s.map_values(|x: Span| x@)
}

impl Span {
    /// The span `start..end` with style `style`.
    pub fn new(start: usize, end: usize, style: String) -> (s: Span)
        ensures
            s@ == (SpanView { start, end, style: style@ }),
    {
        Span { start, end, style }
    }

    /// A copy of this span.
    pub fn copy(&self) -> (s: Span)
        ensures
            s@ == self@,
    {
        Span { start: self.start, end: self.end, style: self.style.clone() }
    }
}

// ---------------------------------------------------------------------------
// Byte offsets to character offsets
// ---------------------------------------------------------------------------

/// The number of bytes of `c` in UTF-8, as `char::len_utf8` gives it.
pub open spec fn utf8_width(c: char) -> nat {
    if (c as u32) < 0x80 {
        1
    } else if (c as u32) < 0x800 {
        2
    } else if (c as u32) < 0x10000 {
        3
    } else {
        4
    }
}

/// The number of bytes of `c` in UTF-8.
pub fn char_len_utf8(c: char) -> (n: usize)
    ensures
        n == utf8_width(c),
{
    let v = c as u32;
    if v < 0x80 {
        1
    } else if v < 0x800 {
        2
    } else if v < 0x10000 {
        3
    } else {
        4
    }
}

/// The number of bytes of `cs` in UTF-8.
pub open spec fn utf8_len(cs: Seq<char>) -> nat
    decreases cs.len(),
{
    if cs.len() == 0 {
        0
    } else {
        utf8_len(cs.drop_last()) + utf8_width(cs.last())
    }
}

/// For each byte of the UTF-8 encoding of `cs`, the index of the character it belongs to.
pub open spec fn byte_char_indices(cs: Seq<char>) -> Seq<usize>
    decreases cs.len(),
{
    if cs.len() == 0 {
        Seq::empty()
    } else {
        byte_char_indices(cs.drop_last()) + Seq::new(utf8_width(cs.last()), |j: int| (cs.len() - 1) as usize)
    }
}

/// The byte-offset to character-offset table of `cs`: one entry per byte, and
/// one more for the end, which holds the number of characters.
pub open spec fn byte_to_char(cs: Seq<char>) -> Seq<usize> {
    byte_char_indices(cs).push(cs.len() as usize)
}

proof fn lemma_utf8_len_prefix(cs: Seq<char>, i: int)
    requires
        0 <= i <= cs.len(),
    ensures
        utf8_len(cs.take(i)) + (cs.len() - i) <= utf8_len(cs),
    decreases cs.len(),
{
    if i < cs.len() {
        lemma_utf8_len_prefix(cs.drop_last(), i);
        assert(cs.drop_last().take(i) == cs.take(i));
    } else {
        assert(cs.take(i) == cs);
    }
}

/// The table maps byte offsets to character offsets: it has one entry per
/// byte of the UTF-8 encoding and one for the end; the offset where the
/// `i`-th character's encoding starts maps to `i` (the end to the number of
/// characters); and every byte maps to the character whose encoding holds it.
pub proof fn law_byte_to_char_maps_bytes_to_their_characters(cs: Seq<char>)
    requires
        cs.len() <= usize::MAX,
    ensures
        byte_to_char(cs).len() == utf8_len(cs) + 1,
        forall|i: int| 0 <= i <= cs.len() ==> #[trigger] byte_to_char(cs)[utf8_len(cs.take(i)) as int] == i,
        forall|b: int| 0 <= b < utf8_len(cs) ==> {
            let i = #[trigger] byte_to_char(cs)[b] as int;
            &&& 0 <= i < cs.len()
            &&& utf8_len(cs.take(i)) <= b < utf8_len(cs.take(i + 1))
        },
    decreases cs.len(),
{
    if cs.len() == 0 {
        assert(cs.take(0) =~= cs);
    } else {
        let d = cs.drop_last();
        let n = cs.len() as int;
        let w = utf8_width(cs.last());
        law_byte_to_char_maps_bytes_to_their_characters(d);
        let bd = byte_char_indices(d);
        let bc = byte_char_indices(cs);
        assert(bc == bd + Seq::new(w, |j: int| (n - 1) as usize));
        assert(bd.len() == utf8_len(d));
        assert(cs.take(n) =~= cs);
        assert(cs.take(n - 1) =~= d);
        assert forall|i: int| 0 <= i <= cs.len() implies #[trigger] byte_to_char(cs)[utf8_len(cs.take(i)) as int] == i by {
            if i < n - 1 {
                assert(cs.take(i) =~= d.take(i));
                lemma_utf8_len_prefix(d, i);
                assert(byte_to_char(d)[utf8_len(d.take(i)) as int] == i);
                assert(byte_to_char(cs)[utf8_len(d.take(i)) as int] == bd[utf8_len(d.take(i)) as int]);
            } else if i == n - 1 {
                assert(byte_to_char(cs)[utf8_len(d) as int] == bc[utf8_len(d) as int]);
            }
        }
        assert forall|b: int| 0 <= b < utf8_len(cs) implies {
            let i = #[trigger] byte_to_char(cs)[b] as int;
            &&& 0 <= i < cs.len()
            &&& utf8_len(cs.take(i)) <= b < utf8_len(cs.take(i + 1))
        } by {
            if b < utf8_len(d) {
                assert(byte_to_char(cs)[b] == bd[b]);
                assert(byte_to_char(d)[b] == bd[b]);
                let i = bd[b] as int;
                assert(cs.take(i) =~= d.take(i));
                assert(cs.take(i + 1) =~= d.take(i + 1));
            } else {
                assert(byte_to_char(cs)[b] == bc[b]);
                assert(bc[b] == (n - 1) as usize);
            }
        }
    }
}

/// Every character takes at least one byte: a prefix `j - i` characters
/// longer is at least `j - i` bytes longer.
pub proof fn lemma_utf8_len_prefixes_grow(cs: Seq<char>, i: int, j: int)
    requires
        0 <= i <= j <= cs.len(),
    ensures
        utf8_len(cs.take(i)) + (j - i) <= utf8_len(cs.take(j)),
{
    lemma_utf8_len_prefix(cs.take(j), i);
    assert(cs.take(j).take(i) =~= cs.take(i));
}

/// The UTF-8 length of two texts one after the other is the sum of theirs.
pub proof fn lemma_utf8_len_concat(s1: Seq<char>, s2: Seq<char>)
    ensures
        utf8_len(s1 + s2) == utf8_len(s1) + utf8_len(s2),
    decreases s2.len(),
{
    if s2.len() == 0 {
        assert(s1 + s2 =~= s1);
    } else {
        lemma_utf8_len_concat(s1, s2.drop_last());
        assert((s1 + s2).drop_last() =~= s1 + s2.drop_last());
        assert((s1 + s2).last() == s2.last());
    }
}

/// Within a piece `cs[a..b]` of a text whose encoding starts at byte `c0`,
/// the text's table is the piece's table shifted by `a` characters and `c0`
/// bytes.
pub proof fn lemma_byte_to_char_of_piece(cs: Seq<char>, a: int, b: int, x: int)
    requires
        cs.len() <= usize::MAX,
        0 <= a <= b <= cs.len(),
        0 <= x <= utf8_len(cs.subrange(a, b)),
    ensures
        utf8_len(cs.take(a)) + x <= utf8_len(cs),
        byte_to_char(cs)[utf8_len(cs.take(a)) + x] == a + byte_to_char(cs.subrange(a, b))[x],
{
    let code = cs.subrange(a, b);
    let c0 = utf8_len(cs.take(a)) as int;
    law_byte_to_char_maps_bytes_to_their_characters(cs);
    law_byte_to_char_maps_bytes_to_their_characters(code);
    assert(cs.take(b) =~= cs.take(a) + code);
    lemma_utf8_len_concat(cs.take(a), code);
    lemma_utf8_len_prefixes_grow(cs, b, cs.len() as int);
    assert(cs.take(cs.len() as int) =~= cs);
    if x == utf8_len(code) {
        assert(code.take(code.len() as int) =~= code);
        assert(byte_to_char(code)[utf8_len(code.take(code.len() as int)) as int] == code.len());
        assert(byte_to_char(cs)[utf8_len(cs.take(b)) as int] == b);
    } else {
        let j = byte_to_char(code)[x] as int;
        assert(utf8_len(code.take(j)) <= x < utf8_len(code.take(j + 1)));
        assert(cs.take(a + j) =~= cs.take(a) + code.take(j));
        assert(cs.take(a + j + 1) =~= cs.take(a) + code.take(j + 1));
        lemma_utf8_len_concat(cs.take(a), code.take(j));
        lemma_utf8_len_concat(cs.take(a), code.take(j + 1));
        let i = byte_to_char(cs)[c0 + x] as int;
        assert(utf8_len(cs.take(i)) <= c0 + x < utf8_len(cs.take(i + 1)));
        if i < a + j {
            lemma_utf8_len_prefixes_grow(cs, i + 1, a + j);
        } else if i > a + j {
            lemma_utf8_len_prefixes_grow(cs, a + j + 1, i);
        }
    }
}

/// Each entry of the table counts the characters that start at or before its
/// byte: entry `b` is the number `i` of characters whose encoding ends at or
/// before `b` (so 0 at the start and the number of characters at the end),
/// and the table never decreases.
pub proof fn law_byte_to_char_counts_characters(cs: Seq<char>)
    requires
        cs.len() <= usize::MAX,
    ensures
        byte_to_char(cs).len() == utf8_len(cs) + 1,
        byte_to_char(cs)[0] == 0,
        byte_to_char(cs)[utf8_len(cs) as int] == cs.len(),
        forall|b: int| 0 <= b <= utf8_len(cs) ==> {
            let i = #[trigger] byte_to_char(cs)[b] as int;
            &&& 0 <= i <= cs.len()
            &&& utf8_len(cs.take(i)) <= b
            &&& (i < cs.len() ==> b < utf8_len(cs.take(i + 1)))
        },
        forall|b1: int, b2: int| 0 <= b1 <= b2 <= utf8_len(cs) ==> #[trigger] byte_to_char(cs)[b1] <= #[trigger] byte_to_char(cs)[b2],
{
    law_byte_to_char_maps_bytes_to_their_characters(cs);
    let t = byte_to_char(cs);
    let u = utf8_len(cs);
    assert(cs.take(0) =~= Seq::<char>::empty());
    assert(utf8_len(cs.take(0)) == 0);
    assert(t[utf8_len(cs.take(0)) as int] == 0);
    assert(cs.take(cs.len() as int) =~= cs);
    assert(t[utf8_len(cs.take(cs.len() as int)) as int] == cs.len());
    assert forall|b: int| 0 <= b <= u implies {
        let i = #[trigger] t[b] as int;
        &&& 0 <= i <= cs.len()
        &&& utf8_len(cs.take(i)) <= b
        &&& (i < cs.len() ==> b < utf8_len(cs.take(i + 1)))
    } by {
        if b == u {
            assert(t[b] == cs.len());
        }
    }
    assert forall|b1: int, b2: int| 0 <= b1 <= b2 <= u implies #[trigger] t[b1] <= #[trigger] t[b2] by {
        let i1 = t[b1] as int;
        let i2 = t[b2] as int;
        assert(utf8_len(cs.take(i1)) <= b1);
        if b2 < u {
            assert(b2 < utf8_len(cs.take(i2 + 1)));
        } else {
            assert(i2 == cs.len());
        }
        if i1 > i2 {
            lemma_utf8_len_prefixes_grow(cs, i2 + 1, i1);
        }
    }
}

/// Builds the byte-offset to character-offset table of `source`.
pub fn build_byte_to_char_table(source: &str) -> (table: Vec<usize>)
    ensures
        table@ == byte_to_char(source@),
{
    let chars = crate::text::chars_of(source);
    let mut table: Vec<usize> = Vec::new();
    let mut i: usize = 0;
    while i < chars.len()
        invariant
            chars@ == source@,
            0 <= i <= chars@.len(),
            table@ == byte_char_indices(chars@.take(i as int)),
        decreases chars@.len() - i,
    {
        let w = char_len_utf8(chars[i]);
        let ghost pre = table@;
        let ghost t = chars@.take(i + 1);
        assert(t.drop_last() == chars@.take(i as int));
        assert(t.last() == chars@[i as int]);
        let mut j: usize = 0;
        while j < w
            invariant
                0 <= j <= w,
                w == utf8_width(chars@[i as int]),
                table@ == pre + Seq::new(j as nat, |k: int| i),
            decreases w - j,
        {
            table.push(i);
            assert(table@ =~= pre + Seq::new((j + 1) as nat, |k: int| i));
            j = j + 1;
        }
        assert(table@ =~= byte_char_indices(t));
        i = i + 1;
    }
    assert(chars@.take(chars@.len() as int) == chars@);
    table.push(chars.len());
    table
}

// ---------------------------------------------------------------------------
// Captures to spans
// ---------------------------------------------------------------------------

/// Whether a capture name is one of the meta captures used for injections.
pub open spec fn is_meta_capture(name: Seq<char>) -> bool {
    name == "none"@ || name == "injection.content"@ || name == "injection.language"@
}

/// The smaller of `a` and `b`.
pub open spec fn min(a: int, b: int) -> int {
    if a <= b {
        a
    } else {
        b
    }
}

/// The character range of the byte range `start..end`, clamped to the text,
/// through the table `table` of a text of `char_len` characters.
pub open spec fn char_range(table: Seq<usize>, start: int, end: int, char_len: int) -> (int, int) {
    let source_len = if table.len() == 0 { 0 } else { table.len() - 1 };
    let s = min(start, source_len);
    let e = min(end, source_len);
    (min(table[s] as int, char_len), min(table[e] as int, char_len))
}

/// The span of a capture named `name` over bytes `start..end`: none for a
/// meta capture or an empty character range.
pub open spec fn spec_capture_to_span(
    name: Seq<char>,
    start: int,
    end: int,
    table: Seq<usize>,
    char_len: int,
) -> Option<SpanView> {
    let (cs, ce) = char_range(table, start, end, char_len);
    if is_meta_capture(name) || cs >= ce {
        None
    } else {
        Some(SpanView { start: cs as usize, end: ce as usize, style: name })
    }
}

/// Whether `name` is one of the meta captures used for injections.
pub fn is_meta_capture_name(name: &str) -> (r: bool)
    ensures
        r == is_meta_capture(name@),
{
    str_eq(name, "none") || str_eq(name, "injection.content") || str_eq(name, "injection.language")
}

/// The character range of the byte range `start..end`, clamped to the text.
pub fn char_range_of(table: &Vec<usize>, start: usize, end: usize, char_len: usize) -> (r: (usize, usize))
    requires
        table@.len() > 0,
    ensures
        r.0 as int == char_range(table@, start as int, end as int, char_len as int).0,
        r.1 as int == char_range(table@, start as int, end as int, char_len as int).1,
{
    let source_len = table.len() - 1;
    let s = if start < source_len { start } else { source_len };
    let e = if end < source_len { end } else { source_len };
    let cs = if table[s] < char_len { table[s] } else { char_len };
    let ce = if table[e] < char_len { table[e] } else { char_len };
    (cs, ce)
}

/// Turns a capture into a span over character offsets.
pub fn capture_to_span(name: &str, start: usize, end: usize, table: &Vec<usize>, char_len: usize) -> (r: Option<Span>)
    requires
        table@.len() > 0,
    ensures
        match r {
            Some(s) => spec_capture_to_span(name@, start as int, end as int, table@, char_len as int) == Some(s@),
            None => spec_capture_to_span(name@, start as int, end as int, table@, char_len as int) is None,
        },
{
    if is_meta_capture_name(name) {
        return None;
    }
    let (cs, ce) = char_range_of(table, start, end, char_len);
    if cs >= ce {
        return None;
    }
    Some(Span::new(cs, ce, String::from_str(name)))
}

// ---------------------------------------------------------------------------
// Ordering: by start, and for equal starts the longer span first
// ---------------------------------------------------------------------------

/// Whether `a` may stay before `b`: it starts earlier, or at the same place
/// and ends no earlier.
pub open spec fn span_le(a: SpanView, b: SpanView) -> bool {
    a.start < b.start || (a.start == b.start && a.end >= b.end)
}

/// `x` inserted into `s` after every span that may stay before it.
pub open spec fn insert_sorted(s: Seq<SpanView>, x: SpanView) -> Seq<SpanView>
    decreases s.len(),
{
    if s.len() == 0 {
        seq![x]
    } else if span_le(s.last(), x) {
        s.push(x)
    } else {
        insert_sorted(s.drop_last(), x).push(s.last())
    }
}

/// The spans of `s` in order (start ascending, then end descending), equal
/// spans keeping their relative order: what a stable sort gives.
pub open spec fn sort_spans(s: Seq<SpanView>) -> Seq<SpanView>
    decreases s.len(),
{
    if s.len() == 0 {
        Seq::empty()
    } else {
        insert_sorted(sort_spans(s.drop_last()), s.last())
    }
}

/// Whether `s` is ordered by start, and for equal starts by end descending.
pub open spec fn spans_sorted(s: Seq<SpanView>) -> bool {
    forall|i: int, j: int| 0 <= i < j < s.len() ==> span_le(#[trigger] s[i], #[trigger] s[j])
}

proof fn lemma_insert_sorted_len(s: Seq<SpanView>, x: SpanView)
    ensures
        insert_sorted(s, x).len() == s.len() + 1,
    decreases s.len(),
{
    if s.len() > 0 && !span_le(s.last(), x) {
        lemma_insert_sorted_len(s.drop_last(), x);
    }
}

proof fn lemma_insert_sorted_index(s: Seq<SpanView>, x: SpanView, k: int)
    requires
        0 <= k <= s.len(),
        forall|i: int| k <= i < s.len() ==> !span_le(#[trigger] s[i], x),
        k == 0 || span_le(s[k - 1], x),
    ensures
        insert_sorted(s, x) == s.take(k).push(x) + s.skip(k),
    decreases s.len(),
{
    if s.len() == 0 {
        assert(s.take(k).push(x) + s.skip(k) =~= seq![x]);
    } else if k == s.len() {
        assert(s.take(k) == s);
        assert(s.skip(k).len() == 0);
        assert(s.take(k).push(x) + s.skip(k) =~= s.push(x));
    } else {
        assert(!span_le(s.last(), x));
        lemma_insert_sorted_index(s.drop_last(), x, k);
        assert(s.drop_last().take(k) == s.take(k));
        assert(s.take(k).push(x) + s.skip(k) =~= (s.drop_last().take(k).push(x) + s.drop_last().skip(k)).push(s.last()));
    }
}

proof fn lemma_insert_sorted_contains(s: Seq<SpanView>, x: SpanView, y: SpanView)
    ensures
        insert_sorted(s, x).contains(y) <==> (y == x || s.contains(y)),
    decreases s.len(),
{
    if s.len() == 0 {
        assert(seq![x][0] == x);
    } else if span_le(s.last(), x) {
        if s.contains(y) {
            let k = choose|k: int| 0 <= k < s.len() && s[k] == y;
            assert(s.push(x)[k] == y);
        }
        if y == x {
            assert(s.push(x)[s.len() as int] == x);
        }
        if s.push(x).contains(y) {
            let k = choose|k: int| 0 <= k < s.len() + 1 && s.push(x)[k] == y;
            if k < s.len() {
                assert(s[k] == y);
            }
        }
    } else {
        let d = s.drop_last();
        lemma_insert_sorted_contains(d, x, y);
        lemma_insert_sorted_len(d, x);
        let r = insert_sorted(d, x);
        let t = r.push(s.last());
        if t.contains(y) {
            let k = choose|k: int| 0 <= k < t.len() && t[k] == y;
            if k < r.len() {
                assert(r[k] == y);
                assert(r.contains(y));
                if d.contains(y) {
                    let m = choose|m: int| 0 <= m < d.len() && d[m] == y;
                    assert(s[m] == y);
                }
            } else {
                assert(s[s.len() - 1] == y);
            }
        }
        if y == x || d.contains(y) {
            assert(r.contains(y));
            let k = choose|k: int| 0 <= k < r.len() && r[k] == y;
            assert(t[k] == y);
        }
        if s.contains(y) && y != x {
            let k = choose|k: int| 0 <= k < s.len() && s[k] == y;
            if k < s.len() - 1 {
                assert(d[k] == y);
                assert(r.contains(y));
                let m = choose|m: int| 0 <= m < r.len() && r[m] == y;
                assert(t[m] == y);
            } else {
                assert(t[r.len() as int] == y);
            }
        }
    }
}

proof fn lemma_insert_sorted_sorted(s: Seq<SpanView>, x: SpanView)
    requires
        spans_sorted(s),
    ensures
        spans_sorted(insert_sorted(s, x)),
    decreases s.len(),
{
    lemma_insert_sorted_len(s, x);
    if s.len() == 0 {
    } else if span_le(s.last(), x) {
        let t = s.push(x);
        assert forall|i: int, j: int| 0 <= i < j < t.len() implies span_le(#[trigger] t[i], #[trigger] t[j]) by {
            if j == s.len() && i < s.len() - 1 {
                assert(span_le(s[i], s[s.len() - 1]));
            }
        }
    } else {
        let d = s.drop_last();
        assert(spans_sorted(d));
        lemma_insert_sorted_sorted(d, x);
        lemma_insert_sorted_len(d, x);
        let r = insert_sorted(d, x);
        let t = r.push(s.last());
        assert forall|i: int, j: int| 0 <= i < j < t.len() implies span_le(#[trigger] t[i], #[trigger] t[j]) by {
            if j == r.len() {
                let y = r[i];
                assert(r.contains(y));
                lemma_insert_sorted_contains(d, x, y);
                if y != x {
                    let k = choose|k: int| 0 <= k < d.len() && d[k] == y;
                    assert(span_le(s[k], s[s.len() - 1]));
                }
            }
        }
    }
}

/// Sorting leaves spans in order (by start, and for equal starts the longer
/// first), keeps their number, and neither adds nor loses a span.
pub proof fn law_sort_spans_sorted(s: Seq<SpanView>)
    ensures
        spans_sorted(sort_spans(s)),
        sort_spans(s).len() == s.len(),
        forall|y: SpanView| sort_spans(s).contains(y) <==> s.contains(y),
    decreases s.len(),
{
    if s.len() > 0 {
        let d = s.drop_last();
        law_sort_spans_sorted(d);
        lemma_insert_sorted_sorted(sort_spans(d), s.last());
        lemma_insert_sorted_len(sort_spans(d), s.last());
        assert forall|y: SpanView| sort_spans(s).contains(y) <==> s.contains(y) by {
            lemma_insert_sorted_contains(sort_spans(d), s.last(), y);
            if s.contains(y) && y != s.last() {
                let k = choose|k: int| 0 <= k < s.len() && s[k] == y;
                assert(d[k] == y);
            }
            if d.contains(y) {
                let k = choose|k: int| 0 <= k < d.len() && d[k] == y;
                assert(s[k] == y);
            }
            if y == s.last() {
                assert(s[s.len() - 1] == y);
            }
        }
    }
}

/// Whether span `a` may stay before span `b`.
pub fn span_precedes(a: &Span, b: &Span) -> (r: bool)
    ensures
        r == span_le(a@, b@),
{
    a.start < b.start || (a.start == b.start && a.end >= b.end)
}

/// Sorts spans by start, and for equal starts the longer first; spans that
/// compare equal keep their order.
pub fn sort_spans_by_position(spans: &Vec<Span>) -> (r: Vec<Span>)
    ensures
        span_views(r@) == sort_spans(span_views(spans@)),
{
    let ghost all = span_views(spans@);
    let mut out: Vec<Span> = Vec::new();
    let mut i: usize = 0;
    while i < spans.len()
        invariant
            all == span_views(spans@),
            0 <= i <= spans@.len(),
            span_views(out@) == sort_spans(all.take(i as int)),
        decreases spans@.len() - i,
    {
        let x = spans[i].copy();
        let ghost sorted = span_views(out@);
        let mut k = out.len();
        while k > 0 && !span_precedes(&out[k - 1], &x)
            invariant
                0 <= k <= out@.len(),
                sorted == span_views(out@),
                forall|j: int| k <= j < out@.len() ==> !span_le(#[trigger] sorted[j], x@),
            decreases k,
        {
            k = k - 1;
        }
        proof {
            lemma_insert_sorted_index(sorted, x@, k as int);
            let t = all.take(i + 1);
            assert(t.drop_last() == all.take(i as int));
            assert(t.last() == x@);
        }
        out.insert(k, x);
        assert(span_views(out@) =~= sorted.take(k as int).push(x@) + sorted.skip(k as int));
        i = i + 1;
    }
    assert(all.take(spans@.len() as int) == all);
    out
}

// ---------------------------------------------------------------------------
// Merging adjacent spans of one style
// ---------------------------------------------------------------------------

/// `s` with each span that starts where the previous (merged) span ends, in
/// the same style, folded into that span.
pub open spec fn merge_spans_spec(s: Seq<SpanView>) -> Seq<SpanView>
    decreases s.len(),
{
    if s.len() == 0 {
        Seq::empty()
    } else {
        let m = merge_spans_spec(s.drop_last());
        let x = s.last();
        if m.len() > 0 && m.last().end == x.start && m.last().style == x.style {
            m.update(m.len() - 1, SpanView { end: x.end, ..m.last() })
        } else {
            m.push(x)
        }
    }
}

/// Merges adjacent spans with identical styles.
pub fn merge_spans(spans: Vec<Span>) -> (r: Vec<Span>)
    ensures
        span_views(r@) == merge_spans_spec(span_views(spans@)),
{
    let ghost all = span_views(spans@);
    let mut merged: Vec<Span> = Vec::new();
    let mut i: usize = 0;
    while i < spans.len()
        invariant
            all == span_views(spans@),
            0 <= i <= spans@.len(),
            span_views(merged@) == merge_spans_spec(all.take(i as int)),
        decreases spans@.len() - i,
    {
        let span = spans[i].copy();
        let ghost m = span_views(merged@);
        proof {
            let t = all.take(i + 1);
            assert(t.drop_last() == all.take(i as int));
            assert(t.last() == span@);
        }
        let n = merged.len();
        if n > 0 && merged[n - 1].end == span.start && str_eq(merged[n - 1].style.as_str(), span.style.as_str()) {
            let last = merged[n - 1].copy();
            merged.set(n - 1, Span { start: last.start, end: span.end, style: last.style });
            assert(span_views(merged@) =~= m.update(m.len() - 1, SpanView { end: span@.end, ..m.last() }));
        } else {
            merged.push(span);
            assert(span_views(merged@) =~= m.push(span@));
        }
        i = i + 1;
    }
    assert(all.take(spans@.len() as int) == all);
    merged
}

/// Whether `a` ends where `b` starts and both have one style, so that the
/// two could be one span.
pub open spec fn mergeable(a: SpanView, b: SpanView) -> bool {
    a.end == b.start && a.style == b.style
}

/// After merging, no span ends where the next one starts in the same style,
/// and there are no more spans than before.
pub proof fn law_merge_spans_leaves_no_mergeable_neighbours(s: Seq<SpanView>)
    ensures
        merge_spans_spec(s).len() <= s.len(),
        forall|i: int| 0 <= i < merge_spans_spec(s).len() - 1
            ==> !mergeable(#[trigger] merge_spans_spec(s)[i], merge_spans_spec(s)[i + 1]),
    decreases s.len(),
{
    if s.len() > 0 {
        let d = s.drop_last();
        law_merge_spans_leaves_no_mergeable_neighbours(d);
        let m = merge_spans_spec(d);
        let x = s.last();
        let r = merge_spans_spec(s);
        if m.len() > 0 && m.last().end == x.start && m.last().style == x.style {
            assert forall|i: int| 0 <= i < r.len() - 1 implies !mergeable(#[trigger] r[i], r[i + 1]) by {
                assert(r[i] == m[i]);
                if i + 1 < m.len() - 1 {
                    assert(r[i + 1] == m[i + 1]);
                } else {
                    assert(!mergeable(m[i], m[i + 1]));
                }
            }
        } else {
            assert forall|i: int| 0 <= i < r.len() - 1 implies !mergeable(#[trigger] r[i], r[i + 1]) by {
                assert(r[i] == m[i]);
                if i + 1 < m.len() {
                    assert(r[i + 1] == m[i + 1]);
                    assert(!mergeable(m[i], m[i + 1]));
                }
            }
        }
    }
}

/// Whether `s` ends no earlier than it starts and no later than `n`, in a
/// style other than `none`.
pub open spec fn span_within(s: SpanView, n: int) -> bool {
    s.start <= s.end <= n && s.style != "none"@
}

/// Merging spans that each lie within `n`, ordered by start, gives spans
/// that lie within `n`, ordered by start.
pub proof fn lemma_merge_spans_within(s: Seq<SpanView>, n: int)
    requires
        forall|i: int| 0 <= i < s.len() ==> span_within(#[trigger] s[i], n),
        forall|i: int, j: int| 0 <= i < j < s.len() ==> #[trigger] s[i].start <= #[trigger] s[j].start,
    ensures
        forall|i: int| 0 <= i < merge_spans_spec(s).len() ==> span_within(#[trigger] merge_spans_spec(s)[i], n),
        forall|i: int| 0 <= i < merge_spans_spec(s).len() - 1
            ==> #[trigger] merge_spans_spec(s)[i].start <= merge_spans_spec(s)[i + 1].start,
        s.len() > 0 ==> merge_spans_spec(s).len() > 0 && merge_spans_spec(s).last().start <= s.last().start,
    decreases s.len(),
{
    if s.len() > 0 {
        let d = s.drop_last();
        assert forall|i: int, j: int| 0 <= i < j < d.len() implies #[trigger] d[i].start <= #[trigger] d[j].start by {
            assert(s[i].start <= s[j].start);
        }
        lemma_merge_spans_within(d, n);
        let m = merge_spans_spec(d);
        let x = s.last();
        let r = merge_spans_spec(s);
        assert(span_within(x, n)) by {
            assert(span_within(s[s.len() - 1], n));
        }
        if d.len() > 0 {
            assert(d.last().start <= x.start) by {
                assert(s[s.len() - 2].start <= s[s.len() - 1].start);
            }
        }
        if m.len() > 0 && m.last().end == x.start && m.last().style == x.style {
            assert(span_within(m[m.len() - 1], n));
            assert forall|i: int| 0 <= i < r.len() implies span_within(#[trigger] r[i], n) by {
                if i < m.len() - 1 {
                    assert(r[i] == m[i]);
                }
            }
            assert forall|i: int| 0 <= i < r.len() - 1 implies #[trigger] r[i].start <= r[i + 1].start by {
                assert(r[i] == m[i]);
                assert(m[i].start <= m[i + 1].start);
            }
        } else {
            assert forall|i: int| 0 <= i < r.len() implies span_within(#[trigger] r[i], n) by {
                if i < m.len() {
                    assert(r[i] == m[i]);
                }
            }
            assert forall|i: int| 0 <= i < r.len() - 1 implies #[trigger] r[i].start <= r[i + 1].start by {
                assert(r[i] == m[i]);
                if i + 1 < m.len() {
                    assert(m[i].start <= m[i + 1].start);
                }
            }
        }
    }
}

/// Merging spans that each start before they end gives such spans.
pub proof fn lemma_merge_spans_nonempty(s: Seq<SpanView>)
    requires
        forall|i: int| 0 <= i < s.len() ==> #[trigger] s[i].start < s[i].end,
    ensures
        forall|i: int| 0 <= i < merge_spans_spec(s).len() ==> #[trigger] merge_spans_spec(s)[i].start
            < merge_spans_spec(s)[i].end,
    decreases s.len(),
{
    if s.len() > 0 {
        let d = s.drop_last();
        assert forall|i: int| 0 <= i < d.len() implies #[trigger] d[i].start < d[i].end by {
            assert(d[i] == s[i]);
        }
        lemma_merge_spans_nonempty(d);
        let m = merge_spans_spec(d);
        let x = s.last();
        let r = merge_spans_spec(s);
        assert(x.start < x.end) by {
            assert(s[s.len() - 1] == x);
        }
        if m.len() > 0 && m.last().end == x.start && m.last().style == x.style {
            assert(m[m.len() - 1].start < m[m.len() - 1].end);
            assert forall|i: int| 0 <= i < r.len() implies #[trigger] r[i].start < r[i].end by {
                if i < m.len() - 1 {
                    assert(r[i] == m[i]);
                }
            }
        } else {
            assert forall|i: int| 0 <= i < r.len() implies #[trigger] r[i].start < r[i].end by {
                if i < m.len() {
                    assert(r[i] == m[i]);
                }
            }
        }
    }
}

/// Whether `outer` covers `inner`: same style, and `inner`'s range lies
/// within `outer`'s.
pub open spec fn covers(outer: SpanView, inner: SpanView) -> bool {
    outer.style == inner.style && outer.start <= inner.start && inner.end <= outer.end
}

/// Merging spans that each end no earlier than they start keeps every span
/// covered: some merged span has its style and holds its range.
pub proof fn lemma_merge_spans_covers(s: Seq<SpanView>)
    requires
        forall|i: int| 0 <= i < s.len() ==> #[trigger] s[i].start <= s[i].end,
    ensures
        forall|j: int| 0 <= j < merge_spans_spec(s).len() ==> #[trigger] merge_spans_spec(s)[j].start
            <= merge_spans_spec(s)[j].end,
        forall|i: int| #![trigger s[i]] 0 <= i < s.len() ==> exists|j: int|
            0 <= j < merge_spans_spec(s).len() && covers(#[trigger] merge_spans_spec(s)[j], s[i]),
    decreases s.len(),
{
    if s.len() > 0 {
        let d = s.drop_last();
        assert forall|i: int| 0 <= i < d.len() implies #[trigger] d[i].start <= d[i].end by {
            assert(d[i] == s[i]);
        }
        lemma_merge_spans_covers(d);
        let m = merge_spans_spec(d);
        let x = s.last();
        let r = merge_spans_spec(s);
        assert(x.start <= x.end) by {
            assert(s[s.len() - 1] == x);
        }
        if m.len() > 0 && m.last().end == x.start && m.last().style == x.style {
            let l = m.len() - 1;
            assert(m[l].start <= m[l].end);
            assert(r[l] == SpanView { end: x.end, ..m[l] });
            assert forall|j: int| 0 <= j < r.len() implies #[trigger] r[j].start <= r[j].end by {
                if j < l {
                    assert(r[j] == m[j]);
                }
            }
            assert forall|i: int| #![trigger s[i]] 0 <= i < s.len() implies exists|j: int| 0 <= j < r.len() && covers(#[trigger] r[j], s[i]) by {
                if i < d.len() {
                    assert(s[i] == d[i]);
                    let j = choose|j: int| 0 <= j < m.len() && covers(#[trigger] m[j], d[i]);
                    if j < l {
                        assert(r[j] == m[j]);
                        assert(covers(r[j], s[i]));
                    } else {
                        assert(covers(r[l], s[i]));
                    }
                } else {
                    assert(s[i] == x);
                    assert(covers(r[l], s[i]));
                }
            }
        } else {
            let l = m.len() as int;
            assert(r == m.push(x));
            assert forall|j: int| 0 <= j < r.len() implies #[trigger] r[j].start <= r[j].end by {
                if j < l {
                    assert(r[j] == m[j]);
                }
            }
            assert forall|i: int| #![trigger s[i]] 0 <= i < s.len() implies exists|j: int| 0 <= j < r.len() && covers(#[trigger] r[j], s[i]) by {
                if i < d.len() {
                    assert(s[i] == d[i]);
                    let j = choose|j: int| 0 <= j < m.len() && covers(#[trigger] m[j], d[i]);
                    assert(r[j] == m[j]);
                    assert(covers(r[j], s[i]));
                } else {
                    assert(s[i] == x);
                    assert(r[l] == x);
                    assert(covers(r[l], s[i]));
                }
            }
        }
    }
}

/// Whether no span of `v` is in a meta style (`none`, `injection.content`,
/// `injection.language`).
pub open spec fn no_meta_styles(v: Seq<SpanView>) -> bool {
    forall|i: int| 0 <= i < v.len() ==> !is_meta_capture(#[trigger] v[i].style)
}

/// Merging keeps each span's style from the spans merged: no meta style
/// appears that was not there.
pub proof fn lemma_merge_spans_styles(s: Seq<SpanView>)
    requires
        no_meta_styles(s),
    ensures
        no_meta_styles(merge_spans_spec(s)),
    decreases s.len(),
{
    if s.len() > 0 {
        let d = s.drop_last();
        assert forall|i: int| 0 <= i < d.len() implies !is_meta_capture(#[trigger] d[i].style) by {
            assert(d[i] == s[i]);
        }
        lemma_merge_spans_styles(d);
        let m = merge_spans_spec(d);
        let x = s.last();
        let r = merge_spans_spec(s);
        assert(!is_meta_capture(x.style)) by {
            assert(s[s.len() - 1] == x);
        }
        assert forall|i: int| 0 <= i < r.len() implies !is_meta_capture(#[trigger] r[i].style) by {
            if i < m.len() {
                assert(r[i].style == m[i].style);
            }
        }
    }
}

/// Sorting keeps the spans, so it keeps their styles.
pub proof fn lemma_sort_spans_styles(s: Seq<SpanView>)
    requires
        no_meta_styles(s),
    ensures
        no_meta_styles(sort_spans(s)),
{
    law_sort_spans_sorted(s);
    let t = sort_spans(s);
    assert forall|i: int| 0 <= i < t.len() implies !is_meta_capture(#[trigger] t[i].style) by {
        let y = t[i];
        assert(t.contains(y));
        assert(s.contains(y));
        let k = choose|k: int| 0 <= k < s.len() && s[k] == y;
        assert(!is_meta_capture(s[k].style));
    }
}

proof fn lemma_merge_keeps_unmergeable(s: Seq<SpanView>)
    requires
        forall|i: int| 0 <= i < s.len() - 1 ==> !mergeable(#[trigger] s[i], s[i + 1]),
    ensures
        merge_spans_spec(s) == s,
    decreases s.len(),
{
    if s.len() > 0 {
        let d = s.drop_last();
        assert forall|i: int| 0 <= i < d.len() - 1 implies !mergeable(#[trigger] d[i], d[i + 1]) by {
            assert(d[i] == s[i] && d[i + 1] == s[i + 1]);
        }
        lemma_merge_keeps_unmergeable(d);
        if d.len() > 0 {
            assert(!mergeable(s[s.len() - 2], s[s.len() - 1]));
            assert(d.last() == s[s.len() - 2]);
        }
        assert(d.push(s.last()) =~= s);
    }
}

/// Merging is idempotent: merging merged spans changes nothing.
pub proof fn law_merge_spans_idempotent(s: Seq<SpanView>)
    ensures
        merge_spans_spec(merge_spans_spec(s)) == merge_spans_spec(s),
{
    law_merge_spans_leaves_no_mergeable_neighbours(s);
    lemma_merge_keeps_unmergeable(merge_spans_spec(s));
}

/// Where the run covered by the merged span at position `j` ends: just
/// before the next run starts, or at the last span.
pub open spec fn run_end(starts: Seq<int>, j: int, n: int) -> int {
    if j + 1 < starts.len() {
        starts[j + 1] - 1
    } else {
        n - 1
    }
}

/// Whether every span of `s` from position `a` up to `b` ends where the
/// next starts, in the same style.
pub open spec fn touching_run(s: Seq<SpanView>, a: int, b: int) -> bool {
    forall|k: int| a <= k < b ==> #[trigger] mergeable(s[k], s[k + 1])
}

/// Whether the merged span `m[j]` stands for the run of `s` from `starts[j]`
/// to `run_end(starts, j, s.len())`: a maximal touching run in one style,
/// with the first span's start and style and the last span's end.
pub open spec fn merged_run(s: Seq<SpanView>, m: Seq<SpanView>, starts: Seq<int>, j: int) -> bool {
    let a = starts[j];
    let b = run_end(starts, j, s.len() as int);
    &&& 0 <= a <= b < s.len()
    &&& m[j] == (SpanView { start: s[a].start, end: s[b].end, style: s[a].style })
    &&& touching_run(s, a, b)
    &&& (j > 0 ==> !mergeable(s[a - 1], s[a]))
}

/// Whether `starts` cuts `s` into maximal runs of spans that each end where
/// the next starts, in one style, and `m` holds one span per run, in order:
/// from the run's first span's start, in its style, to its last span's end.
pub open spec fn merged_runs(s: Seq<SpanView>, m: Seq<SpanView>, starts: Seq<int>) -> bool {
    &&& starts.len() == m.len()
    &&& (s.len() > 0 <==> m.len() > 0)
    &&& (m.len() > 0 ==> starts[0] == 0)
    &&& forall|j: int| 0 <= j < starts.len() ==> #[trigger] merged_run(s, m, starts, j)
}

proof fn lemma_run_style(s: Seq<SpanView>, a: int, b: int)
    requires
        0 <= a <= b < s.len(),
        touching_run(s, a, b),
    ensures
        s[b].style == s[a].style,
    decreases b - a,
{
    if a < b {
        assert(mergeable(s[a], s[a + 1]));
        lemma_run_style(s, a + 1, b);
    }
}

proof fn lemma_touching_run_push(d: Seq<SpanView>, x: SpanView, a: int, b: int)
    requires
        0 <= a <= b < d.len(),
        touching_run(d, a, b),
    ensures
        touching_run(d.push(x), a, b),
{
    let s = d.push(x);
    assert forall|k: int| a <= k < b implies #[trigger] mergeable(s[k], s[k + 1]) by {
        assert(mergeable(d[k], d[k + 1]));
    }
}

proof fn lemma_runs_extend(d: Seq<SpanView>, x: SpanView, sd: Seq<int>)
    requires
        merged_runs(d, merge_spans_spec(d), sd),
        merge_spans_spec(d).len() > 0,
        merge_spans_spec(d).last().end == x.start,
        merge_spans_spec(d).last().style == x.style,
    ensures
        merged_runs(d.push(x), merge_spans_spec(d.push(x)), sd),
{
    let s = d.push(x);
    let m = merge_spans_spec(d);
    let r = merge_spans_spec(s);
    let n = s.len() as int;
    assert(s.drop_last() =~= d);
    let l = m.len() - 1;
    assert(merged_run(d, m, sd, l));
    let al = sd[l];
    lemma_run_style(d, al, n - 2);
    assert forall|j: int| 0 <= j < sd.len() implies #[trigger] merged_run(s, r, sd, j) by {
        assert(merged_run(d, m, sd, j));
        let a = sd[j];
        if j < l {
            let b = run_end(sd, j, d.len() as int);
            assert(run_end(sd, j, n) == b);
            assert(r[j] == m[j]);
            assert(s[a] == d[a] && s[b] == d[b]);
            if j > 0 {
                assert(merged_run(d, m, sd, j - 1));
                assert(s[a - 1] == d[a - 1]);
            }
            lemma_touching_run_push(d, x, a, b);
        } else {
            assert(run_end(sd, j, n) == n - 1);
            assert(run_end(sd, j, d.len() as int) == n - 2);
            assert(r[j] == (SpanView { end: x.end, ..m[j] }));
            assert(s[a] == d[a]);
            assert(s[n - 1] == x);
            if j > 0 {
                assert(merged_run(d, m, sd, j - 1));
                assert(s[a - 1] == d[a - 1]);
            }
            lemma_touching_run_push(d, x, a, n - 2);
            assert(s[n - 2] == d[n - 2]);
            assert(mergeable(s[n - 2], s[n - 1]));
            assert forall|k: int| a <= k < n - 1 implies #[trigger] mergeable(s[k], s[k + 1]) by {
                if k < n - 2 {
                    assert(touching_run(s, a, n - 2));
                }
            }
        }
    }
}

proof fn lemma_runs_new(d: Seq<SpanView>, x: SpanView, sd: Seq<int>)
    requires
        merged_runs(d, merge_spans_spec(d), sd),
        !(merge_spans_spec(d).len() > 0 && merge_spans_spec(d).last().end == x.start
            && merge_spans_spec(d).last().style == x.style),
    ensures
        merged_runs(d.push(x), merge_spans_spec(d.push(x)), sd.push(d.len() as int)),
{
    let s = d.push(x);
    let m = merge_spans_spec(d);
    let r = merge_spans_spec(s);
    let n = s.len() as int;
    let st = sd.push(d.len() as int);
    assert(s.drop_last() =~= d);
    if m.len() > 0 {
        let l = m.len() - 1;
        assert(merged_run(d, m, sd, l));
        lemma_run_style(d, sd[l], n - 2);
    }
    assert forall|j: int| 0 <= j < st.len() implies #[trigger] merged_run(s, r, st, j) by {
        if j < sd.len() {
            assert(merged_run(d, m, sd, j));
            let a = sd[j];
            let b = run_end(sd, j, d.len() as int);
            assert(st[j] == a);
            if j + 1 < sd.len() {
                assert(st[j + 1] == sd[j + 1]);
            } else {
                assert(st[j + 1] == d.len());
            }
            assert(run_end(st, j, n) == b);
            assert(r[j] == m[j]);
            assert(s[a] == d[a] && s[b] == d[b]);
            if j > 0 {
                assert(merged_run(d, m, sd, j - 1));
                assert(s[a - 1] == d[a - 1]);
            }
            lemma_touching_run_push(d, x, a, b);
        } else {
            assert(st[j] == n - 1);
            assert(run_end(st, j, n) == n - 1);
            assert(r[j] == x);
            assert(s[n - 1] == x);
            if j > 0 {
                let l = m.len() - 1;
                assert(merged_run(d, m, sd, l));
                assert(s[n - 2] == d[n - 2]);
                assert(m[l].end == d[n - 2].end);
                assert(!mergeable(s[n - 2], s[n - 1]));
            }
        }
    }
}

proof fn lemma_merge_runs(s: Seq<SpanView>) -> (starts: Seq<int>)
    ensures
        merged_runs(s, merge_spans_spec(s), starts),
    decreases s.len(),
{
    if s.len() == 0 {
        Seq::empty()
    } else {
        let d = s.drop_last();
        let x = s.last();
        let sd = lemma_merge_runs(d);
        let m = merge_spans_spec(d);
        assert(d.push(x) =~= s);
        if m.len() > 0 && m.last().end == x.start && m.last().style == x.style {
            lemma_runs_extend(d, x, sd);
            sd
        } else {
            lemma_runs_new(d, x, sd);
            sd.push(d.len() as int)
        }
    }
}

/// Each merged span stands for a maximal run of input spans, taken in order,
/// in which every span ends where the next one starts, in one style: it runs
/// from the first span's start to the last span's end, in that style; the
/// runs cover the input from its first span to its last.
pub proof fn law_merge_spans_merges_maximal_runs(s: Seq<SpanView>)
    ensures
        exists|starts: Seq<int>| #[trigger] merged_runs(s, merge_spans_spec(s), starts),
{
    let starts = lemma_merge_runs(s);
    assert(merged_runs(s, merge_spans_spec(s), starts));
}

} // verus!
