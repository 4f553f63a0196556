//! The `key=length:value` request format that the zsh integration emits.
//!
//! Each record is printed by zsh as `print -r -- "$k=${#v}:${v}"`: a key, an
//! `=`, the value's length in characters, a `:`, and then exactly that many
//! characters of value, which may span several lines.
use vstd::prelude::*;

use crate::regions::{decimal, digit_char};
use crate::strmap::StrMap;
use crate::text::{chars_of, views};

verus! {

// ---------------------------------------------------------------------------
// Errors
// ---------------------------------------------------------------------------

/// Why a request could not be parsed.
#[derive(Debug, Clone, Copy, PartialEq, Eq, Structural)]
pub enum ParseError {
    ExpectedEquals,
    ExpectedColon,
    InvalidLength,
    UnexpectedEof,
}

impl ParseError {
    /// The human-readable description of the error.
    pub fn message(&self) -> (s: String)
        ensures
            s@ == self.spec_message(),
    {
        match self {
            ParseError::ExpectedEquals => String::from_str("expected '=' in request"),
            ParseError::ExpectedColon => String::from_str("expected ':' in request"),
            ParseError::InvalidLength => String::from_str("invalid length in request"),
            ParseError::UnexpectedEof => String::from_str("unexpected end of input"),
        }
    }

    /// The human-readable description of the error.
    pub open spec fn spec_message(&self) -> Seq<char> {
        match self {
            ParseError::ExpectedEquals => "expected '=' in request"@,
            ParseError::ExpectedColon => "expected ':' in request"@,
            ParseError::InvalidLength => "invalid length in request"@,
            ParseError::UnexpectedEof => "unexpected end of input"@,
        }
    }
}

/// `std::io::Error`, carried through as it is.
#[verifier::external_type_specification]
#[verifier::external_body]
pub struct ExIoError(std::io::Error);

/// Why reading a request from a stream failed.
#[derive(Debug)]
pub enum ReadError {
    Io(std::io::Error),
    Parse(ParseError),
}

/// The text of an I/O error (its `Display` form).
#[verifier::external_body]
fn io_error_text(e: &std::io::Error) -> String {
    format!("{e}")
}

impl ReadError {
    /// The human-readable description of the error.
    pub fn message(&self) -> (s: String)
        ensures
            self matches ReadError::Parse(p) ==> s@ == "parse error: "@ + p.spec_message(),
            self is Io ==> "I/O error: "@.is_prefix_of(s@),
    {
        match self {
            ReadError::Io(e) => {
                let head = String::from_str("I/O error: ");
                let r = head.concat(io_error_text(e).as_str());
                assert(head@.is_prefix_of(r@)) by {
                    assert(r@.subrange(0, head@.len() as int) =~= head@);
                }
                r
            },
            ReadError::Parse(p) => {
                let head = String::from_str("parse error: ");
                head.concat(p.message().as_str())
            },
        }
    }
}

// ---------------------------------------------------------------------------
// Decimal lengths
// ---------------------------------------------------------------------------

/// Whether `c` is an ASCII decimal digit.
pub open spec fn is_digit(c: char) -> bool {
    48 <= c as u32 && c as u32 <= 57
}

/// The value of the decimal digit `c`.
pub open spec fn digit_value(c: char) -> nat {
    (c as u32 - 48) as nat
}

/// Whether every character of `d` is a decimal digit.
pub open spec fn all_digits(d: Seq<char>) -> bool {
    forall|i: int| 0 <= i < d.len() ==> #[trigger] is_digit(d[i])
}

/// The number that a string of decimal digits denotes.
pub open spec fn digits_value(d: Seq<char>) -> nat
    decreases d.len(),
{
    if d.len() == 0 {
        0
    } else {
        digits_value(d.drop_last()) * 10 + digit_value(d.last())
    }
}

/// The digits of a length field: an optional leading `+` is dropped.
pub open spec fn unsigned_digits(s: Seq<char>) -> Seq<char> {
    if s.len() > 0 && s[0] == '+' {
        s.drop_first()
    } else {
        s
    }
}

/// What `str::parse::<usize>` gives for `s`: a `+`-optional, non-empty run of
/// ASCII digits whose value fits in a `usize`.
pub open spec fn spec_parse_usize(s: Seq<char>) -> Option<usize> {
    let d = unsigned_digits(s);
    if d.len() > 0 && all_digits(d) && digits_value(d) <= usize::MAX {
        Some(digits_value(d) as usize)
    } else {
        None
    }
}

proof fn lemma_digits_value_prefix(d: Seq<char>, k: int)
    requires
        0 <= k <= d.len(),
    ensures
        digits_value(d.take(k)) <= digits_value(d),
    decreases d.len(),
{
    if k < d.len() {
        lemma_digits_value_prefix(d.drop_last(), k);
        assert(d.drop_last().take(k) == d.take(k));
    } else {
        assert(d.take(k) == d);
    }
}

/// Parses `v[from..to]` as a `usize` length, as `str::parse` does.
pub fn parse_usize(v: &Vec<char>, from: usize, to: usize) -> (r: Option<usize>)
    requires
        from <= to <= v@.len(),
    ensures
        r == spec_parse_usize(v@.subrange(from as int, to as int)),
{
    let ghost s = v@.subrange(from as int, to as int);
    let mut start = from;
    if from < to && v[from] == '+' {
        start = from + 1;
    }
    let ghost d = v@.subrange(start as int, to as int);
    assert(d == unsigned_digits(s));
    if start == to {
        return None;
    }
    let mut value: usize = 0;
    let mut i = start;
    while i < to
        invariant
            from <= start <= i <= to <= v@.len(),
            start < to,
            s == v@.subrange(from as int, to as int),
            d == v@.subrange(start as int, to as int),
            d == unsigned_digits(s),
            all_digits(d.take(i - start)),
            value == digits_value(d.take(i - start)),
        decreases to - i,
    {
        let c = v[i];
        let ghost pre = d.take(i - start);
        let ghost next = d.take(i - start + 1);
        assert(next.drop_last() == pre);
        assert(next.last() == c);
        if !((c as u32) >= 48 && (c as u32) <= 57) {
            assert(!all_digits(d)) by {
                assert(!is_digit(d[i - start]));
            }
            return None;
        }
        let dv = ((c as u32) - 48) as usize;
        match value.checked_mul(10) {
            None => {
                proof {
                    if all_digits(d) {
                        lemma_digits_value_prefix(d, i - start + 1);
                    }
                }
                return None;
            },
            Some(m) => match m.checked_add(dv) {
                None => {
                    proof {
                        if all_digits(d) {
                            lemma_digits_value_prefix(d, i - start + 1);
                        }
                    }
                    return None;
                },
                Some(n) => {
                    value = n;
                },
            },
        }
        i = i + 1;
        assert(all_digits(d.take(i - start))) by {
            assert forall|j: int| 0 <= j < i - start implies #[trigger] is_digit(d.take(i - start)[j]) by {
                if j < i - start - 1 {
                    assert(d.take(i - start)[j] == pre[j]);
                }
            }
        }
    }
    assert(d.take(to - start) == d);
    Some(value)
}

// ---------------------------------------------------------------------------
// Parsing a whole request
// ---------------------------------------------------------------------------

/// Whether `c` is one of the separator characters skipped between records.
pub open spec fn spec_is_ws(c: char) -> bool {
    c == ' ' || c == '\t' || c == '\n' || c == '\r'
}

/// Whether `c` is one of the separator characters skipped between records.
pub fn is_ws(c: char) -> (r: bool)
    ensures
        r == spec_is_ws(c),
{
    c == ' ' || c == '\t' || c == '\n' || c == '\r'
}

/// The first index at or after `i` that is not a separator (or the end).
pub open spec fn skip_ws_from(s: Seq<char>, i: int) -> int
    decreases s.len() - i,
{
    if 0 <= i < s.len() && spec_is_ws(s[i]) {
        skip_ws_from(s, i + 1)
    } else {
        i
    }
}

/// The first index at or after `i` holding `c`, or `s.len()` when there is none.
pub open spec fn index_of_from(s: Seq<char>, i: int, c: char) -> int
    decreases s.len() - i,
{
    if i >= s.len() {
        s.len() as int
    } else if i >= 0 && s[i] == c {
        i
    } else {
        index_of_from(s, i + 1, c)
    }
}

/// Skipping separators stays within `s` and stops at a non-separator.
pub proof fn lemma_skip_ws_bounds(s: Seq<char>, i: int)
    requires
        0 <= i <= s.len(),
    ensures
        i <= skip_ws_from(s, i) <= s.len(),
        skip_ws_from(s, i) < s.len() ==> !spec_is_ws(s[skip_ws_from(s, i)]),
    decreases s.len() - i,
{
    if i < s.len() && spec_is_ws(s[i]) {
        lemma_skip_ws_bounds(s, i + 1);
    }
}

/// The search for `c` stays within `s`, passes over no `c`, and stops at one.
pub proof fn lemma_index_of_bounds(s: Seq<char>, i: int, c: char)
    requires
        0 <= i,
    ensures
        i <= s.len() ==> i <= index_of_from(s, i, c),
        index_of_from(s, i, c) <= s.len(),
        index_of_from(s, i, c) < s.len() ==> s[index_of_from(s, i, c)] == c,
        forall|j: int| i <= j < index_of_from(s, i, c) ==> s[j] != c,
    decreases s.len() - i,
{
    if i < s.len() && s[i] != c {
        lemma_index_of_bounds(s, i + 1, c);
    }
}

/// The result of decoding the records of `s` from position `pos` on, on top of `acc`.
pub open spec fn parse_records_from(
    s: Seq<char>,
    pos: int,
    acc: Map<Seq<char>, Seq<char>>,
) -> Result<Map<Seq<char>, Seq<char>>, ParseError>
    decreases s.len() - pos,
{
    if pos < 0 || pos > s.len() {
        Ok(acc)
    } else {
        let start = skip_ws_from(s, pos);
        if start >= s.len() {
            Ok(acc)
        } else {
            let eq = index_of_from(s, start, '=');
            if eq >= s.len() {
                Err(ParseError::ExpectedEquals)
            } else {
                let colon = index_of_from(s, eq + 1, ':');
                if colon >= s.len() {
                    Err(ParseError::ExpectedColon)
                } else {
                    match spec_parse_usize(s.subrange(eq + 1, colon)) {
                        None => Err(ParseError::InvalidLength),
                        Some(n) => {
                            if colon + 1 + n > s.len() {
                                Err(ParseError::UnexpectedEof)
                            } else {
                                proof {
                                    lemma_skip_ws_bounds(s, pos);
                                    lemma_index_of_bounds(s, start, '=');
                                    lemma_index_of_bounds(s, eq + 1, ':');
                                }
                                parse_records_from(
                                    s,
                                    colon + 1 + n,
                                    acc.insert(s.subrange(start, eq), s.subrange(colon + 1, colon + 1 + n)),
                                )
                            }
                        },
                    }
                }
            }
        }
    }
}

/// What a whole request decodes to.
pub open spec fn spec_parse_request(s: Seq<char>) -> Result<Map<Seq<char>, Seq<char>>, ParseError> {
    parse_records_from(s, 0, Map::empty())
}

/// Parses a complete `key=length:value` request.
///
/// Whitespace between records is skipped; each record's value is exactly
/// `length` characters and may contain newlines. Later records override
/// earlier ones with the same key.
pub fn parse_request(input: &str) -> (r: Result<StrMap, ParseError>)
    ensures
        match r {
            Ok(m) => spec_parse_request(input@) == Ok::<Map<Seq<char>, Seq<char>>, ParseError>(m@),
            Err(e) => spec_parse_request(input@) == Err::<Map<Seq<char>, Seq<char>>, ParseError>(e),
        },
{
    let mut map = StrMap::new();
    let chars = chars_of(input);
    let ghost s = chars@;
    let total = chars.len();
    let mut pos: usize = 0;
    while pos < total
        invariant
            s == chars@,
            s == input@,
            total == s.len(),
            0 <= pos <= total,
            spec_parse_request(s) == parse_records_from(s, pos as int, map@),
        decreases total - pos,
    {
        let ghost pos0 = pos as int;
        proof {
            lemma_skip_ws_bounds(s, pos0);
        }
        while pos < total && is_ws(chars[pos])
            invariant
                s == chars@,
                total == s.len(),
                pos0 <= pos <= total,
                skip_ws_from(s, pos0) == skip_ws_from(s, pos as int),
            decreases total - pos,
        {
            pos = pos + 1;
        }
        let start = pos;
        if pos >= total {
            return Ok(map);
        }
        proof {
            lemma_index_of_bounds(s, start as int, '=');
        }
        while pos < total && chars[pos] != '='
            invariant
                s == chars@,
                total == s.len(),
                start <= pos <= total,
                index_of_from(s, start as int, '=') == index_of_from(s, pos as int, '='),
            decreases total - pos,
        {
            pos = pos + 1;
        }
        if pos >= total {
            return Err(ParseError::ExpectedEquals);
        }
        let eq = pos;
        pos = pos + 1;
        proof {
            lemma_index_of_bounds(s, pos as int, ':');
        }
        while pos < total && chars[pos] != ':'
            invariant
                s == chars@,
                total == s.len(),
                eq < pos <= total,
                index_of_from(s, eq + 1, ':') == index_of_from(s, pos as int, ':'),
            decreases total - pos,
        {
            pos = pos + 1;
        }
        if pos >= total {
            return Err(ParseError::ExpectedColon);
        }
        let colon = pos;
        let length = match parse_usize(&chars, eq + 1, colon) {
            None => {
                return Err(ParseError::InvalidLength);
            },
            Some(n) => n,
        };
        pos = pos + 1;
        if length > total - pos {
            return Err(ParseError::UnexpectedEof);
        }
        let key = String::from_str(input.substring_char(start, eq));
        let value = String::from_str(input.substring_char(pos, pos + length));
        pos = pos + length;
        map.insert(key, value);
    }
    Ok(map)
}

// ---------------------------------------------------------------------------
// Reading a request line by line, as it arrives on a stream
// ---------------------------------------------------------------------------

/// A line as the stream reader delivers it, with its line ending (`\n`, then
/// one `\r`) removed.
pub open spec fn trim_line(l: Seq<char>) -> Seq<char> {
    let a = if l.len() > 0 && l.last() == '\n' { l.drop_last() } else { l };
    if a.len() > 0 && a.last() == '\r' {
        a.drop_last()
    } else {
        a
    }
}

/// A value that spans several lines and is still being read.
pub struct PendingSpec {
    pub key: Seq<char>,
    pub value: Seq<char>,
    pub length: nat,
}

/// The state of a request being read: the records decoded so far and the
/// value still being read, if any.
pub struct ReaderSpec {
    pub map: Map<Seq<char>, Seq<char>>,
    pub pending: Option<PendingSpec>,
}

/// What the reader needs after it has been given a line.
#[derive(Debug, Clone, Copy, PartialEq, Eq, Structural)]
pub enum FeedOutcome {
    /// Another line is needed.
    NeedLine,
    /// The request is complete: the end-of-message record, or the end of the stream.
    Finished,
    /// The request is malformed.
    Failed(ParseError),
}

/// Records `value` (cut to `length`) once it is complete; otherwise keeps reading it.
pub open spec fn settle(
    map: Map<Seq<char>, Seq<char>>,
    key: Seq<char>,
    value: Seq<char>,
    length: nat,
) -> (ReaderSpec, FeedOutcome) {
    if value.len() >= length {
        (ReaderSpec { map: map.insert(key, value.take(length as int)), pending: None }, FeedOutcome::NeedLine)
    } else {
        (ReaderSpec { map, pending: Some(PendingSpec { key, value, length }) }, FeedOutcome::NeedLine)
    }
}

/// A new record begins on `line` (not yet trimmed); an empty `line` is the end of the stream.
pub open spec fn feed_record_start(map: Map<Seq<char>, Seq<char>>, line: Seq<char>) -> (ReaderSpec, FeedOutcome) {
    let idle = ReaderSpec { map, pending: None };
    let t = trim_line(line);
    if line.len() == 0 {
        (idle, FeedOutcome::Finished)
    } else if t.len() == 0 {
        (idle, FeedOutcome::NeedLine)
    } else {
        let eq = index_of_from(t, 0, '=');
        if eq >= t.len() {
            (idle, FeedOutcome::Failed(ParseError::ExpectedEquals))
        } else {
            let colon = index_of_from(t, eq + 1, ':');
            if colon >= t.len() {
                (idle, FeedOutcome::Failed(ParseError::ExpectedColon))
            } else {
                match spec_parse_usize(t.subrange(eq + 1, colon)) {
                    None => (idle, FeedOutcome::Failed(ParseError::InvalidLength)),
                    Some(n) => {
                        let key = t.subrange(0, eq);
                        let start = t.subrange(colon + 1, t.len() as int);
                        if key == "EOM"@ {
                            (idle, FeedOutcome::Finished)
                        } else if start.len() >= n {
                            (ReaderSpec { map: map.insert(key, start.take(n as int)), pending: None }, FeedOutcome::NeedLine)
                        } else {
                            settle(map, key, start.push('\n'), n as nat)
                        }
                    },
                }
            }
        }
    }
}

/// `line` continues the value `p`; an empty `line` is the end of the stream.
pub open spec fn feed_continuation(map: Map<Seq<char>, Seq<char>>, p: PendingSpec, line: Seq<char>) -> (ReaderSpec, FeedOutcome) {
    if line.len() == 0 {
        (ReaderSpec { map, pending: Some(p) }, FeedOutcome::Failed(ParseError::UnexpectedEof))
    } else {
        let t = trim_line(line);
        let need = p.length - p.value.len();
        let value = if t.len() <= need {
            let w = p.value + t;
            if w.len() < p.length { w.push('\n') } else { w }
        } else {
            p.value + t.take(need)
        };
        settle(map, p.key, value, p.length)
    }
}

/// One step of the reader: the state after `line` and what the reader needs next.
pub open spec fn spec_feed(st: ReaderSpec, line: Seq<char>) -> (ReaderSpec, FeedOutcome) {
    match st.pending {
        None => feed_record_start(st.map, line),
        Some(p) => feed_continuation(st.map, p, line),
    }
}

/// The reader's result on a stream that delivers `lines` and then ends.
pub open spec fn run_lines(st: ReaderSpec, lines: Seq<Seq<char>>) -> Result<Map<Seq<char>, Seq<char>>, ParseError>
    decreases lines.len(),
{
    let line = if lines.len() == 0 { Seq::<char>::empty() } else { lines[0] };
    let (next, outcome) = spec_feed(st, line);
    match outcome {
        FeedOutcome::Finished => Ok(next.map),
        FeedOutcome::Failed(e) => Err(e),
        FeedOutcome::NeedLine => {
            if lines.len() == 0 {
                Ok(next.map)
            } else {
                run_lines(next, lines.drop_first())
            }
        },
    }
}

/// The state a reader starts in.
pub open spec fn reader_start() -> ReaderSpec {
    ReaderSpec { map: Map::empty(), pending: None }
}

/// What reading a request from a stream that delivers `lines` and then ends gives.
pub open spec fn spec_read_lines(lines: Seq<Seq<char>>) -> Result<Map<Seq<char>, Seq<char>>, ParseError> {
    run_lines(reader_start(), lines)
}

struct Pending {
    key: String,
    value: String,
    have: usize,
    length: usize,
}

/// Decodes a request from the lines of a stream, one line at a time, so that
/// the stream can stay open for the reply once the `EOM` record has been read.
pub struct RequestReader {
    map: StrMap,
    pending: Option<Pending>,
}

impl View for RequestReader {
    type V = ReaderSpec;

    closed spec fn view(&self) -> ReaderSpec {
        ReaderSpec {
            map: self.map@,
            pending: match self.pending {
                None => None,
                Some(p) => Some(PendingSpec { key: p.key@, value: p.value@, length: p.length as nat }),
            },
        }
    }
}

/// The first index at or after `from` where `v` holds `c`, or `v.len()`.
pub fn find_char(v: &Vec<char>, from: usize, c: char) -> (r: usize)
    requires
        from <= v@.len(),
    ensures
        r == index_of_from(v@, from as int, c),
        from <= r <= v@.len(),
{
    proof {
        lemma_index_of_bounds(v@, from as int, c);
    }
    let mut i = from;
    while i < v.len() && v[i] != c
        invariant
            from <= i <= v@.len(),
            index_of_from(v@, from as int, c) == index_of_from(v@, i as int, c),
        decreases v@.len() - i,
    {
        i = i + 1;
    }
    i
}

impl RequestReader {
    #[verifier::type_invariant]
    spec fn inv(&self) -> bool {
        match self.pending {
            None => true,
            Some(p) => p.have == p.value@.len() && p.have < p.length,
        }
    }

    /// A reader that has seen no line yet.
    pub fn new() -> (r: RequestReader)
        ensures
            r@ == reader_start(),
    {
        RequestReader { map: StrMap::new(), pending: None }
    }

    /// The records decoded so far.
    pub fn into_map(self) -> (m: StrMap)
        ensures
            m@ == self@.map,
    {
        self.map
    }

    fn insert_record(&mut self, key: String, value: String)
        ensures
            final(self)@ == (ReaderSpec { map: old(self)@.map.insert(key@, value@), pending: old(self)@.pending }),
    {
        proof {
            use_type_invariant(&*self);
        }
        let mut m = StrMap::new();
        std::mem::swap(&mut m, &mut self.map);
        m.insert(key, value);
        self.map = m;
    }

    fn settle(&mut self, key: String, value: String, have: usize, length: usize)
        requires
            old(self)@.pending is None,
            have == value@.len(),
            have <= length,
        ensures
            (final(self)@, FeedOutcome::NeedLine) == settle(old(self)@.map, key@, value@, length as nat),
    {
        if have >= length {
            assert(value@.take(length as int) == value@);
            self.insert_record(key, value);
        } else {
            self.pending = Some(Pending { key, value, have, length });
        }
    }

    /// Gives the reader the next line of the stream, as read (with its line
    /// ending); the empty string stands for the end of the stream.
    pub fn feed(&mut self, line: &str) -> (o: FeedOutcome)
        ensures
            (final(self)@, o) == spec_feed(old(self)@, line@),
    {
        proof {
            use_type_invariant(&*self);
        }
        let chars = chars_of(line);
        let n = chars.len();
        let mut end = n;
        if end > 0 && chars[end - 1] == '\n' {
            end = end - 1;
        }
        if end > 0 && chars[end - 1] == '\r' {
            end = end - 1;
        }
        assert(chars@.subrange(0, end as int) == trim_line(line@)) by {
            let a = if n > 0 && chars@.last() == '\n' { chars@.drop_last() } else { chars@ };
            assert(a == chars@.subrange(0, a.len() as int));
        }
        let t_str = line.substring_char(0, end);
        let mut pend: Option<Pending> = None;
        std::mem::swap(&mut pend, &mut self.pending);
        match pend {
            Some(p) => {
                let ghost ps = PendingSpec { key: p.key@, value: p.value@, length: p.length as nat };
                assert(old(self)@.pending == Some(ps));
                assert(t_str@ == trim_line(line@));
                assert(line@.len() == n);
                assert(self@.map == old(self)@.map);
                let o = self.continue_value(p, t_str, n);
                assert((self@, o) == feed_continuation(old(self)@.map, ps, line@));
                o
            },
            None => self.start_record(t_str, n),
        }
    }

    fn continue_value(&mut self, p: Pending, t_str: &str, n: usize) -> (o: FeedOutcome)
        requires
            old(self)@.pending is None,
            p.have == p.value@.len(),
            p.have < p.length,
        ensures
            forall|line: Seq<char>|
                line.len() == n && trim_line(line) == t_str@ ==> (final(self)@, o) == #[trigger] feed_continuation(
                    old(self)@.map,
                    PendingSpec { key: p.key@, value: p.value@, length: p.length as nat },
                    line,
                ),
    {
        proof {
            reveal_strlit("\n");
        }
        if n == 0 {
            self.pending = Some(p);
            return FeedOutcome::Failed(ParseError::UnexpectedEof);
        }
        let end = t_str.unicode_len();
        let Pending { key, mut value, mut have, length } = p;
        let need = length - have;
        if end <= need {
            value.append(t_str);
            have = have + end;
            if have < length {
                let ghost w = value@;
                value.append("\n");
                assert(value@ == w.push('\n'));
                have = have + 1;
            }
        } else {
            value.append(t_str.substring_char(0, need));
            have = length;
        }
        self.settle(key, value, have, length);
        FeedOutcome::NeedLine
    }

    fn start_record(&mut self, t_str: &str, n: usize) -> (o: FeedOutcome)
        requires
            old(self)@.pending is None,
        ensures
            forall|line: Seq<char>|
                line.len() == n && trim_line(line) == t_str@ ==> (final(self)@, o) == #[trigger] feed_record_start(
                    old(self)@.map,
                    line,
                ),
    {
        proof {
            reveal_strlit("\n");
        }
        if n == 0 {
            return FeedOutcome::Finished;
        }
        let t = chars_of(t_str);
        let tl = t.len();
        if tl == 0 {
            return FeedOutcome::NeedLine;
        }
        let eq = find_char(&t, 0, '=');
        if eq >= tl {
            return FeedOutcome::Failed(ParseError::ExpectedEquals);
        }
        let colon = find_char(&t, eq + 1, ':');
        if colon >= tl {
            return FeedOutcome::Failed(ParseError::ExpectedColon);
        }
        let length = match parse_usize(&t, eq + 1, colon) {
            None => {
                return FeedOutcome::Failed(ParseError::InvalidLength);
            },
            Some(m) => m,
        };
        let key = String::from_str(t_str.substring_char(0, eq));
        let eom = String::from_str("EOM");
        if key.eq(&eom) {
            return FeedOutcome::Finished;
        }
        let start_len = tl - (colon + 1);
        if start_len >= length {
            let value = String::from_str(t_str.substring_char(colon + 1, colon + 1 + length));
            assert(t@.subrange(colon + 1, colon + 1 + length) == t@.subrange(colon + 1, tl as int).take(length as int));
            self.insert_record(key, value);
            FeedOutcome::NeedLine
        } else {
            let mut value = String::from_str(t_str.substring_char(colon + 1, tl));
            let ghost w = value@;
            value.append("\n");
            assert(value@ == w.push('\n'));
            self.settle(key, value, start_len + 1, length);
            FeedOutcome::NeedLine
        }
    }
}

/// Decodes a request from the successive lines of a stream that then ends;
/// reading stops at the `EOM` record, ignoring the lines after it.
pub fn read_request_lines(lines: &Vec<String>) -> (r: Result<StrMap, ParseError>)
    ensures
        match r {
            Ok(m) => spec_read_lines(views(lines@)) == Ok::<Map<Seq<char>, Seq<char>>, ParseError>(m@),
            Err(e) => spec_read_lines(views(lines@)) == Err::<Map<Seq<char>, Seq<char>>, ParseError>(e),
        },
{
    let ghost ls = views(lines@);
    let mut reader = RequestReader::new();
    let mut i: usize = 0;
    assert(ls.skip(0) == ls);
    while i < lines.len()
        invariant
            ls == views(lines@),
            0 <= i <= lines@.len(),
            spec_read_lines(ls) == run_lines(reader@, ls.skip(i as int)),
        decreases lines@.len() - i,
    {
        let ghost st = reader@;
        let o = reader.feed(lines[i].as_str());
        assert(ls.skip(i as int)[0] == lines@[i as int]@);
        assert(ls.skip(i as int).drop_first() == ls.skip(i + 1));
        match o {
            FeedOutcome::Finished => {
                return Ok(reader.into_map());
            },
            FeedOutcome::Failed(e) => {
                return Err(e);
            },
            FeedOutcome::NeedLine => {},
        }
        i = i + 1;
    }
    assert(ls.skip(i as int).len() == 0);
    let o = reader.feed("");
    proof {
        reveal_strlit("");
    }
    match o {
        FeedOutcome::Failed(e) => Err(e),
        _ => Ok(reader.into_map()),
    }
}

/// The lines that a stream holding `s` delivers from position `pos` on: each
/// ends just after a `\n`, and the last may have no `\n`.
pub open spec fn lines_from(s: Seq<char>, pos: int) -> Seq<Seq<char>>
    decreases s.len() - pos,
{
    if pos < 0 || pos >= s.len() {
        Seq::empty()
    } else {
        let i = index_of_from(s, pos, '\n');
        let e = if i < s.len() { i + 1 } else { s.len() as int };
        proof {
            lemma_index_of_bounds(s, pos, '\n');
        }
        seq![s.subrange(pos, e)] + lines_from(s, e)
    }
}

/// The lines that a stream holding `s` delivers.
pub open spec fn spec_lines(s: Seq<char>) -> Seq<Seq<char>> {
    lines_from(s, 0)
}

/// Cuts `input` into lines the way a buffered stream reader does: each line
/// keeps its `\n`, and a final line without one is kept as it is.
pub fn split_lines(input: &str) -> (v: Vec<String>)
    ensures
        views(v@) == spec_lines(input@),
{
    let chars = chars_of(input);
    let total = chars.len();
    let mut out: Vec<String> = Vec::new();
    let mut pos: usize = 0;
    while pos < total
        invariant
            chars@ == input@,
            total == chars@.len(),
            0 <= pos <= total,
            spec_lines(input@) == views(out@) + lines_from(input@, pos as int),
        decreases total - pos,
    {
        let i = find_char(&chars, pos, '\n');
        let e = if i < total { i + 1 } else { total };
        let line = String::from_str(input.substring_char(pos, e));
        let ghost before = views(out@);
        out.push(line);
        assert(views(out@) == before.push(line@));
        assert(before + lines_from(input@, pos as int) == views(out@) + lines_from(input@, e as int));
        pos = e;
    }
    assert(views(out@) + lines_from(input@, pos as int) == views(out@));
    out
}


// ---------------------------------------------------------------------------
// What the zsh integration writes, and what reading it gives back
// ---------------------------------------------------------------------------

/// The record that the zsh integration writes for `key` and `value`:
/// `key=length:value` and a newline, the length counted in characters.
pub open spec fn encode_record(key: Seq<char>, value: Seq<char>) -> Seq<char> {
    key + seq!['='] + decimal(value.len()) + seq![':'] + value + seq!['\n']
}

/// The records `rs`, written one after another.
pub open spec fn encode_records(rs: Seq<(Seq<char>, Seq<char>)>) -> Seq<char>
    decreases rs.len(),
{
    if rs.len() == 0 {
        Seq::empty()
    } else {
        encode_record(rs[0].0, rs[0].1) + encode_records(rs.drop_first())
    }
}

/// `acc` with the records `rs` inserted in order, so that a later record
/// overrides an earlier one with the same key.
pub open spec fn insert_records(
    acc: Map<Seq<char>, Seq<char>>,
    rs: Seq<(Seq<char>, Seq<char>)>,
) -> Map<Seq<char>, Seq<char>>
    decreases rs.len(),
{
    if rs.len() == 0 {
        acc
    } else {
        insert_records(acc.insert(rs[0].0, rs[0].1), rs.drop_first())
    }
}

/// A record that a whole-request parse reads back as written: its key holds
/// no `=` and does not begin with a separator, and its length fits a `usize`.
pub open spec fn parsable_record(key: Seq<char>, value: Seq<char>) -> bool {
    &&& !key.contains('=')
    &&& (key.len() > 0 ==> !spec_is_ws(key[0]))
    &&& value.len() <= usize::MAX
}

proof fn lemma_digit_char(d: nat)
    requires
        d < 10,
    ensures
        is_digit(digit_char(d)),
        digit_value(digit_char(d)) == d,
{
}

proof fn lemma_decimal_digits(n: nat)
    ensures
        decimal(n).len() > 0,
        all_digits(decimal(n)),
        digits_value(decimal(n)) == n,
    decreases n,
{
    if n < 10 {
        lemma_digit_char(n);
        assert(decimal(n).drop_last() == Seq::<char>::empty());
        assert(digits_value(Seq::<char>::empty()) == 0);
    } else {
        lemma_decimal_digits(n / 10);
        lemma_digit_char(n % 10);
        let d = decimal(n);
        assert(d == decimal(n / 10).push(digit_char(n % 10)));
        assert(d.drop_last() == decimal(n / 10));
        assert(d.last() == digit_char(n % 10));
        assert(digits_value(d) == (n / 10) * 10 + n % 10);
        assert forall|i: int| 0 <= i < d.len() implies #[trigger] is_digit(d[i]) by {
            if i < d.len() - 1 {
                assert(d[i] == decimal(n / 10)[i]);
            }
        }
    }
}

/// A length written in decimal reads back as itself.
proof fn lemma_parse_decimal(n: nat)
    requires
        n <= usize::MAX,
    ensures
        spec_parse_usize(decimal(n)) == Some(n as usize),
        forall|i: int| 0 <= i < decimal(n).len() ==> #[trigger] is_digit(decimal(n)[i]),
{
    lemma_decimal_digits(n);
    assert(is_digit(decimal(n)[0]));
    assert(unsigned_digits(decimal(n)) == decimal(n));
}

proof fn lemma_index_of_found(s: Seq<char>, i: int, j: int, c: char)
    requires
        0 <= i <= j < s.len(),
        s[j] == c,
        forall|m: int| i <= m < j ==> s[m] != c,
    ensures
        index_of_from(s, i, c) == j,
    decreases j - i,
{
    if i < j {
        lemma_index_of_found(s, i + 1, j, c);
    }
}

proof fn lemma_parse_skips_separator(s: Seq<char>, i: int, acc: Map<Seq<char>, Seq<char>>)
    requires
        0 <= i < s.len(),
        spec_is_ws(s[i]),
    ensures
        parse_records_from(s, i, acc) == parse_records_from(s, i + 1, acc),
{
    assert(skip_ws_from(s, i) == skip_ws_from(s, i + 1));
}

#[verifier::spinoff_prover]
#[verifier::rlimit(40)]
proof fn lemma_parse_encoded_from(
    p: Seq<char>,
    rs: Seq<(Seq<char>, Seq<char>)>,
    acc: Map<Seq<char>, Seq<char>>,
)
    requires
        forall|i: int| 0 <= i < rs.len() ==> #[trigger] parsable_record(rs[i].0, rs[i].1),
    ensures
        parse_records_from(p + encode_records(rs), p.len() as int, acc) == Ok::<Map<Seq<char>, Seq<char>>, ParseError>(insert_records(acc, rs)),
    decreases rs.len(),
{
    let s = p + encode_records(rs);
    if rs.len() == 0 {
        assert(s == p);
    } else {
        let k = rs[0].0;
        let v = rs[0].1;
        assert(parsable_record(k, v));
        let e = encode_record(k, v);
        let rest = rs.drop_first();
        assert(s == (p + e) + encode_records(rest));
        let dec = decimal(v.len());
        lemma_parse_decimal(v.len());
        let a = p.len() as int;
        let eq = a + k.len();
        let colon = eq + 1 + dec.len();
        let vs = colon + 1;
        let ve = vs + v.len();
        assert(s.len() >= ve + 1);
        assert(s.subrange(a, eq) == k);
        assert(s[eq] == '=');
        assert(s.subrange(eq + 1, colon) == dec);
        assert(s[colon] == ':');
        assert(s.subrange(vs, ve) == v);
        assert(s[ve] == '\n');
        assert(!spec_is_ws(s[a])) by {
            if k.len() > 0 {
                assert(s[a] == k[0]);
            }
        }
        assert(skip_ws_from(s, a) == a);
        assert forall|m: int| a <= m < eq implies s[m] != '=' by {
            assert(s[m] == k[m - a]);
        }
        lemma_index_of_found(s, a, eq, '=');
        assert forall|m: int| eq + 1 <= m < colon implies s[m] != ':' by {
            assert(s[m] == dec[m - eq - 1]);
            assert(is_digit(dec[m - eq - 1]));
        }
        lemma_index_of_found(s, eq + 1, colon, ':');
        let acc1 = acc.insert(k, v);
        assert(parse_records_from(s, a, acc) == parse_records_from(s, ve, acc1));
        lemma_parse_skips_separator(s, ve, acc1);
        assert((p + e).len() == ve + 1);
        assert forall|i: int| 0 <= i < rest.len() implies #[trigger] parsable_record(rest[i].0, rest[i].1) by {
            assert(rest[i] == rs[i + 1]);
            assert(parsable_record(rs[i + 1].0, rs[i + 1].1));
        }
        lemma_parse_encoded_from(p + e, rest, acc1);
    }
}

/// What the zsh integration writes is read back: parsing the records `rs`,
/// written one after another, gives each key the value of its last record,
/// provided no key holds `=` or begins with a separator.
pub proof fn law_parse_request_reads_back(rs: Seq<(Seq<char>, Seq<char>)>)
    requires
        forall|i: int| 0 <= i < rs.len() ==> #[trigger] parsable_record(rs[i].0, rs[i].1),
    ensures
        spec_parse_request(encode_records(rs)) == Ok::<Map<Seq<char>, Seq<char>>, ParseError>(insert_records(Map::empty(), rs)),
{
    lemma_parse_encoded_from(Seq::empty(), rs, Map::empty());
    assert(Seq::<char>::empty() + encode_records(rs) == encode_records(rs));
}

proof fn lemma_skip_ws_to_end(s: Seq<char>, pos: int)
    requires
        0 <= pos <= s.len(),
        forall|i: int| pos <= i < s.len() ==> #[trigger] spec_is_ws(s[i]),
    ensures
        skip_ws_from(s, pos) == s.len(),
    decreases s.len() - pos,
{
    if pos < s.len() {
        lemma_skip_ws_to_end(s, pos + 1);
    }
}

proof fn lemma_skip_ws_stops(s: Seq<char>, pos: int, i: int)
    requires
        0 <= pos <= i < s.len(),
        !spec_is_ws(s[i]),
    ensures
        skip_ws_from(s, pos) <= i,
    decreases i - pos,
{
    if pos < i {
        lemma_skip_ws_stops(s, pos + 1, i);
    }
}

proof fn lemma_parse_keeps_keys(s: Seq<char>, pos: int, acc: Map<Seq<char>, Seq<char>>, k: Seq<char>)
    requires
        acc.dom().contains(k),
        parse_records_from(s, pos, acc) is Ok,
    ensures
        parse_records_from(s, pos, acc)->Ok_0.dom().contains(k),
    decreases s.len() - pos,
{
    if 0 <= pos <= s.len() {
        let start = skip_ws_from(s, pos);
        if start < s.len() {
            let eq = index_of_from(s, start, '=');
            let colon = index_of_from(s, eq + 1, ':');
            if eq < s.len() && colon < s.len() {
                if let Some(n) = spec_parse_usize(s.subrange(eq + 1, colon)) {
                    if colon + 1 + n <= s.len() {
                        lemma_skip_ws_bounds(s, pos);
                        lemma_index_of_bounds(s, start, '=');
                        lemma_index_of_bounds(s, eq + 1, ':');
                        lemma_parse_keeps_keys(
                            s,
                            colon + 1 + n,
                            acc.insert(s.subrange(start, eq), s.subrange(colon + 1, colon + 1 + n)),
                            k,
                        );
                    }
                }
            }
        }
    }
}

/// A request parses to an empty map exactly when it holds nothing but
/// separators (spaces, tabs, `\n` and `\r`): any other character starts a
/// record, which is either malformed or gives the map a key.
pub proof fn law_parse_request_empty_iff_only_separators(s: Seq<char>)
    ensures
        spec_parse_request(s) == Ok::<Map<Seq<char>, Seq<char>>, ParseError>(Map::empty())
            <==> forall|i: int| 0 <= i < s.len() ==> #[trigger] spec_is_ws(s[i]),
{
    if forall|i: int| 0 <= i < s.len() ==> #[trigger] spec_is_ws(s[i]) {
        lemma_skip_ws_to_end(s, 0);
    } else {
        let i = choose|i: int| 0 <= i < s.len() && !#[trigger] spec_is_ws(s[i]);
        lemma_skip_ws_stops(s, 0, i);
        let start = skip_ws_from(s, 0);
        let eq = index_of_from(s, start, '=');
        let colon = index_of_from(s, eq + 1, ':');
        if spec_parse_request(s) is Ok {
            lemma_skip_ws_bounds(s, 0);
            lemma_index_of_bounds(s, start, '=');
            lemma_index_of_bounds(s, eq + 1, ':');
            let n = spec_parse_usize(s.subrange(eq + 1, colon))->Some_0;
            let key = s.subrange(start, eq);
            let acc = Map::<Seq<char>, Seq<char>>::empty().insert(key, s.subrange(colon + 1, colon + 1 + n));
            lemma_parse_keeps_keys(s, colon + 1 + n, acc, key);
        }
    }
}

/// A value that the stream reader reads back as written: no `\r` in it stands
/// just before a line end (a `\n` of the value, or the value's end).
pub open spec fn no_cr_before_line_end(v: Seq<char>) -> bool {
    forall|j: int| 0 <= j < v.len() && #[trigger] v[j] == '\r' ==> j + 1 < v.len() && v[j + 1] != '\n'
}

/// A record that the stream reader reads back as written: its key holds no
/// `=` and no line end and is not the end-of-message key, its value has no
/// `\r` before a line end, and its length fits a `usize`.
pub open spec fn streamable_record(key: Seq<char>, value: Seq<char>) -> bool {
    &&& !key.contains('=')
    &&& !key.contains('\n')
    &&& key != end_of_message_key()
    &&& value.len() <= usize::MAX
    &&& no_cr_before_line_end(value)
}

/// The key of the record that ends a request on a stream.
pub open spec fn end_of_message_key() -> Seq<char> {
    seq!['E', 'O', 'M']
}

/// The record that ends a request on a stream: `EOM=0:`.
pub open spec fn end_of_message() -> Seq<char> {
    encode_record(end_of_message_key(), Seq::empty())
}

/// The reader's state with the records `map` and no value being read.
pub open spec fn idle_reader(map: Map<Seq<char>, Seq<char>>) -> ReaderSpec {
    ReaderSpec { map, pending: None }
}

/// Where the line of `s` that starts at `pos` ends (just after its `\n`).
pub open spec fn line_end(s: Seq<char>, pos: int) -> int {
    let i = index_of_from(s, pos, '\n');
    if i < s.len() {
        i + 1
    } else {
        s.len() as int
    }
}

proof fn lemma_lines_step(s: Seq<char>, pos: int)
    requires
        0 <= pos < s.len(),
    ensures
        lines_from(s, pos).len() > 0,
        lines_from(s, pos)[0] == s.subrange(pos, line_end(s, pos)),
        lines_from(s, pos).drop_first() == lines_from(s, line_end(s, pos)),
        pos < line_end(s, pos) <= s.len(),
{
    lemma_index_of_bounds(s, pos, '\n');
    let e = line_end(s, pos);
    let l = seq![s.subrange(pos, e)] + lines_from(s, e);
    assert(lines_from(s, pos) == l);
    assert(l.drop_first() =~= lines_from(s, e));
}

proof fn lemma_run_step(st: ReaderSpec, s: Seq<char>, pos: int)
    requires
        0 <= pos < s.len(),
    ensures
        run_lines(st, lines_from(s, pos)) == (match spec_feed(st, s.subrange(pos, line_end(s, pos))).1 {
            FeedOutcome::Finished => Ok(spec_feed(st, s.subrange(pos, line_end(s, pos))).0.map),
            FeedOutcome::Failed(e) => Err(e),
            FeedOutcome::NeedLine => run_lines(spec_feed(st, s.subrange(pos, line_end(s, pos))).0, lines_from(s, line_end(s, pos))),
        }),
{
    lemma_lines_step(s, pos);
}

proof fn lemma_trim_line_at(s: Seq<char>, pos: int, i: int)
    requires
        0 <= pos <= i < s.len(),
        s[i] == '\n',
        i > pos ==> s[i - 1] != '\r',
    ensures
        trim_line(s.subrange(pos, i + 1)) == s.subrange(pos, i),
{
    let l = s.subrange(pos, i + 1);
    assert(l.last() == '\n');
    assert(l.drop_last() == s.subrange(pos, i));
    if i > pos {
        assert(l.drop_last().last() == s[i - 1]);
    }
}

/// The first line of a record written at `a`: where it ends, and what the
/// record-start step reads from it.
#[verifier::spinoff_prover]
#[verifier::rlimit(40)]
proof fn lemma_first_line(s: Seq<char>, a: int, k: Seq<char>, v: Seq<char>)
    requires
        0 <= a,
        a + encode_record(k, v).len() <= s.len(),
        s.subrange(a, a + encode_record(k, v).len()) == encode_record(k, v),
        !k.contains('='),
        !k.contains('\n'),
        v.len() <= usize::MAX,
        no_cr_before_line_end(v),
    ensures
        ({
            let n = v.len() as int;
            let colon = (k.len() + 1 + decimal(v.len()).len()) as int;
            let vs = a + colon + 1;
            let j0 = index_of_from(v, 0, '\n');
            let t = trim_line(s.subrange(a, line_end(s, a)));
            &&& 0 <= j0 <= n
            &&& (j0 < n ==> v[j0] == '\n')
            &&& line_end(s, a) == vs + j0 + 1
            &&& s.subrange(a, line_end(s, a)).len() > 0
            &&& t.len() > 0
            &&& index_of_from(t, 0, '=') == k.len()
            &&& index_of_from(t, (k.len() + 1) as int, ':') == colon
            &&& colon < t.len()
            &&& spec_parse_usize(t.subrange((k.len() + 1) as int, colon)) == Some(v.len() as usize)
            &&& t.subrange(0, k.len() as int) == k
            &&& t.subrange(colon + 1, t.len() as int) == v.take(j0)
        }),
{
    let e = encode_record(k, v);
    let n = v.len() as int;
    let dec = decimal(v.len());
    lemma_parse_decimal(v.len());
    let eq = a + k.len();
    let colon = (k.len() + 1 + dec.len()) as int;
    let vs = a + colon + 1;
    let ve = vs + n;
    assert forall|m: int| 0 <= m < e.len() implies s[a + m] == #[trigger] e[m] by {
        assert(s.subrange(a, a + e.len())[m] == s[a + m]);
    }
    assert forall|m: int| 0 <= m < k.len() implies s[a + m] == #[trigger] k[m] by {
        assert(e[m] == k[m]);
    }
    assert(e[k.len() as int] == '=');
    assert(s[eq] == '=');
    assert forall|m: int| 0 <= m < dec.len() implies s[eq + 1 + m] == #[trigger] dec[m] by {
        assert(e[k.len() + 1 + m] == dec[m]);
    }
    assert(e[colon] == ':');
    assert(s[a + colon] == ':');
    assert forall|m: int| 0 <= m < n implies s[vs + m] == #[trigger] v[m] by {
        assert(e[colon + 1 + m] == v[m]);
    }
    assert(e[colon + 1 + n] == '\n');
    assert(s[ve] == '\n');
    lemma_index_of_bounds(v, 0, '\n');
    let j0 = index_of_from(v, 0, '\n');
    assert(s[vs + j0] == '\n');
    assert forall|m: int| a <= m < vs + j0 implies s[m] != '\n' by {
        if m < eq {
            assert(s[m] == k[m - a]);
            assert(k.contains(k[m - a]));
        } else if m == eq {
        } else if m < a + colon {
            assert(s[m] == dec[m - eq - 1]);
            assert(is_digit(dec[m - eq - 1]));
        } else if m == a + colon {
        } else {
            assert(s[m] == v[m - vs]);
        }
    }
    lemma_index_of_found(s, a, vs + j0, '\n');
    assert(line_end(s, a) == vs + j0 + 1);
    assert(vs + j0 > a);
    assert(s[vs + j0 - 1] != '\r') by {
        if j0 > 0 {
            assert(s[vs + j0 - 1] == v[j0 - 1]);
            if v[j0 - 1] == '\r' {
                assert(j0 < n && v[j0] != '\n');
            }
        } else {
            assert(s[vs - 1] == ':');
        }
    }
    lemma_trim_line_at(s, a, vs + j0);
    let t = s.subrange(a, vs + j0);
    assert(trim_line(s.subrange(a, line_end(s, a))) == t);
    assert forall|m: int| 0 <= m < k.len() implies t[m] != '=' by {
        assert(t[m] == k[m]);
        assert(k.contains(k[m]));
    }
    assert(t[k.len() as int] == '=');
    lemma_index_of_found(t, 0, k.len() as int, '=');
    assert forall|m: int| k.len() + 1 <= m < colon implies t[m] != ':' by {
        assert(t[m] == dec[m - k.len() - 1]);
        assert(is_digit(dec[m - k.len() - 1]));
    }
    assert(t[colon] == ':');
    lemma_index_of_found(t, (k.len() + 1) as int, colon, ':');
    assert(t.subrange((k.len() + 1) as int, colon) =~= dec);
    assert(t.subrange(0, k.len() as int) =~= k);
    assert(t.subrange(colon + 1, t.len() as int) =~= v.take(j0));
}

/// The lines after the first of a record whose value `v` starts at `vs`,
/// while the first `h` characters of `v` have been read.
#[verifier::spinoff_prover]
#[verifier::rlimit(40)]
proof fn lemma_read_value(s: Seq<char>, vs: int, map: Map<Seq<char>, Seq<char>>, k: Seq<char>, v: Seq<char>, h: int)
    requires
        0 <= vs,
        vs + v.len() + 1 <= s.len(),
        s.subrange(vs, vs + v.len()) == v,
        s[vs + v.len()] == '\n',
        0 < h < v.len(),
        no_cr_before_line_end(v),
    ensures
        run_lines(
            ReaderSpec { map, pending: Some(PendingSpec { key: k, value: v.take(h), length: v.len() }) },
            lines_from(s, vs + h),
        ) == run_lines(idle_reader(map.insert(k, v)), lines_from(s, vs + v.len() + 1)),
    decreases v.len() - h,
{
    let n = v.len() as int;
    let st = ReaderSpec { map, pending: Some(PendingSpec { key: k, value: v.take(h), length: v.len() }) };
    assert forall|m: int| 0 <= m < n implies s[vs + m] == #[trigger] v[m] by {
        assert(s.subrange(vs, vs + n)[m] == s[vs + m]);
    }
    lemma_index_of_bounds(v, h, '\n');
    let j = index_of_from(v, h, '\n');
    assert(s[vs + j] == '\n');
    assert forall|m: int| vs + h <= m < vs + j implies s[m] != '\n' by {
        assert(s[m] == v[m - vs]);
    }
    lemma_index_of_found(s, vs + h, vs + j, '\n');
    assert(line_end(s, vs + h) == vs + j + 1);
    assert(j > h ==> s[vs + j - 1] != '\r') by {
        if j > h {
            assert(s[vs + j - 1] == v[j - 1]);
            if v[j - 1] == '\r' {
                assert(j < n && v[j] != '\n');
            }
        }
    }
    lemma_trim_line_at(s, vs + h, vs + j);
    let line = s.subrange(vs + h, vs + j + 1);
    let t = s.subrange(vs + h, vs + j);
    assert(t =~= v.subrange(h, j));
    assert(v.take(h) + t =~= v.take(j));
    lemma_run_step(st, s, vs + h);
    if j < n {
        assert(v.take(j).push('\n') =~= v.take(j + 1));
        if j + 1 >= n {
            assert(v.take(j + 1).take(n) =~= v);
            let st2 = idle_reader(map.insert(k, v));
            assert(spec_feed(st, line) == (st2, FeedOutcome::NeedLine));
            lemma_run_step(st2, s, vs + n);
            lemma_index_of_found(s, vs + n, vs + n, '\n');
            lemma_trim_line_at(s, vs + n, vs + n);
            assert(s.subrange(vs + n, vs + n) =~= Seq::<char>::empty());
        } else {
            lemma_read_value(s, vs, map, k, v, j + 1);
        }
    } else {
        assert(v.take(j) =~= v);
        assert(v.take(n) =~= v);
    }
}

/// Reading a record that is not the end of the message: the reader inserts
/// it and goes on after its line end.
#[verifier::spinoff_prover]
#[verifier::rlimit(40)]
proof fn lemma_read_record(s: Seq<char>, a: int, map: Map<Seq<char>, Seq<char>>, k: Seq<char>, v: Seq<char>)
    requires
        0 <= a,
        a + encode_record(k, v).len() <= s.len(),
        s.subrange(a, a + encode_record(k, v).len()) == encode_record(k, v),
        streamable_record(k, v),
    ensures
        run_lines(idle_reader(map), lines_from(s, a))
            == run_lines(idle_reader(map.insert(k, v)), lines_from(s, a + encode_record(k, v).len())),
{
    lemma_first_line(s, a, k, v);
    let e = encode_record(k, v);
    let n = v.len() as int;
    let colon = (k.len() + 1 + decimal(v.len()).len()) as int;
    let vs = a + colon + 1;
    let j0 = index_of_from(v, 0, '\n');
    let line = s.subrange(a, line_end(s, a));
    let t = trim_line(line);
    assert(e.len() == colon + 1 + n + 1);
    assert forall|m: int| 0 <= m < n implies s[vs + m] == #[trigger] v[m] by {
        assert(s.subrange(a, a + e.len())[colon + 1 + m] == s[vs + m]);
        assert(e[colon + 1 + m] == v[m]);
    }
    assert(s.subrange(vs, vs + n) =~= v);
    assert(s[vs + n] == '\n') by {
        assert(s.subrange(a, a + e.len())[colon + 1 + n] == s[vs + n]);
    }
    lemma_run_step(idle_reader(map), s, a);
    reveal_strlit("EOM");
    assert("EOM"@ =~= end_of_message_key());
    assert(t.subrange(0, k.len() as int) != "EOM"@);
    let st1 = idle_reader(map.insert(k, v));
    if j0 == n {
        assert(v.take(j0).take(n) =~= v);
        assert(spec_feed(idle_reader(map), line) == (st1, FeedOutcome::NeedLine));
    } else {
        assert(v.take(j0).push('\n') =~= v.take(j0 + 1));
        if j0 + 1 >= n {
            assert(v.take(j0 + 1).take(n) =~= v);
            assert(spec_feed(idle_reader(map), line) == (st1, FeedOutcome::NeedLine));
            lemma_run_step(st1, s, vs + n);
            lemma_index_of_found(s, vs + n, vs + n, '\n');
            lemma_trim_line_at(s, vs + n, vs + n);
            assert(s.subrange(vs + n, vs + n) =~= Seq::<char>::empty());
        } else {
            lemma_read_value(s, vs, map, k, v, j0 + 1);
        }
    }
}

proof fn lemma_read_end_of_message(s: Seq<char>, a: int, map: Map<Seq<char>, Seq<char>>)
    requires
        0 <= a,
        a + end_of_message().len() <= s.len(),
        s.subrange(a, a + end_of_message().len()) == end_of_message(),
    ensures
        run_lines(idle_reader(map), lines_from(s, a)) == Ok::<Map<Seq<char>, Seq<char>>, ParseError>(map),
{
    let k = end_of_message_key();
    let v = Seq::<char>::empty();
    assert(!k.contains('=')) by {
        if k.contains('=') {
            let m = choose|m: int| 0 <= m < k.len() && k[m] == '=';
        }
    }
    assert(!k.contains('\n')) by {
        if k.contains('\n') {
            let m = choose|m: int| 0 <= m < k.len() && k[m] == '\n';
        }
    }
    lemma_first_line(s, a, k, v);
    lemma_run_step(idle_reader(map), s, a);
    reveal_strlit("EOM");
    assert("EOM"@ =~= end_of_message_key());
}

proof fn lemma_read_records(p: Seq<char>, rs: Seq<(Seq<char>, Seq<char>)>, map: Map<Seq<char>, Seq<char>>)
    requires
        forall|i: int| 0 <= i < rs.len() ==> #[trigger] streamable_record(rs[i].0, rs[i].1),
    ensures
        run_lines(idle_reader(map), lines_from(p + encode_records(rs) + end_of_message(), p.len() as int))
            == Ok::<Map<Seq<char>, Seq<char>>, ParseError>(insert_records(map, rs)),
    decreases rs.len(),
{
    let s = p + encode_records(rs) + end_of_message();
    let a = p.len() as int;
    if rs.len() == 0 {
        assert(s.subrange(a, a + end_of_message().len()) =~= end_of_message());
        lemma_read_end_of_message(s, a, map);
    } else {
        let k = rs[0].0;
        let v = rs[0].1;
        assert(streamable_record(k, v));
        let e = encode_record(k, v);
        let rest = rs.drop_first();
        assert(s =~= (p + e) + encode_records(rest) + end_of_message());
        assert(s.subrange(a, a + e.len()) =~= e);
        lemma_read_record(s, a, map, k, v);
        assert forall|i: int| 0 <= i < rest.len() implies #[trigger] streamable_record(rest[i].0, rest[i].1) by {
            assert(rest[i] == rs[i + 1]);
            assert(streamable_record(rs[i + 1].0, rs[i + 1].1));
        }
        lemma_read_records(p + e, rest, map.insert(k, v));
    }
}

/// What the zsh integration writes on the socket is read back line by line:
/// the records `rs`, then the end-of-message record `EOM=0:`, delivered as a
/// buffered stream delivers lines, give each key the value of its last
/// record, provided no key holds `=` or a line end or is `EOM`, and no value
/// has a `\r` just before a line end.
pub proof fn law_read_lines_reads_back(rs: Seq<(Seq<char>, Seq<char>)>)
    requires
        forall|i: int| 0 <= i < rs.len() ==> #[trigger] streamable_record(rs[i].0, rs[i].1),
    ensures
        spec_read_lines(spec_lines(encode_records(rs) + end_of_message()))
            == Ok::<Map<Seq<char>, Seq<char>>, ParseError>(insert_records(Map::empty(), rs)),
{
    lemma_read_records(Seq::empty(), rs, Map::empty());
    assert(Seq::<char>::empty() + encode_records(rs) + end_of_message() =~= encode_records(rs) + end_of_message());
}

} // verus!
