use treeish::protocol::{parse_request, ParseError};
use treeish::strmap::StrMap;

fn parse(input: &str) -> StrMap {
    parse_request(input).unwrap()
}

fn val<'a>(map: &'a StrMap, key: &str) -> &'a str {
    map.get(key).unwrap().as_str()
}

#[test]
fn basic_request() {
    let input = "ver=1:2\nlang=3:zsh\npwd=5:/home\nprebuffer=0:\nbuffer=10:echo hello\n";
    let map = parse(input);
    assert_eq!(val(&map, "ver"), "2");
    assert_eq!(val(&map, "lang"), "zsh");
    assert_eq!(val(&map, "pwd"), "/home");
    assert_eq!(val(&map, "prebuffer"), "");
    assert_eq!(val(&map, "buffer"), "echo hello");
}

#[test]
fn empty_value() {
    let input = "prebuffer=0:\n";
    let map = parse(input);
    assert_eq!(val(&map, "prebuffer"), "");
}

#[test]
fn spaces_in_value() {
    let input = "buffer=10:echo hello\n";
    let map = parse(input);
    assert_eq!(val(&map, "buffer"), "echo hello");
}

#[test]
fn newline_in_value() {
    // "foo\nbar" = 7 chars
    let input = "buffer=7:foo\nbar\n";
    let map = parse(input);
    assert_eq!(val(&map, "buffer"), "foo\nbar");
}

#[test]
fn embedded_quotes_and_special_chars() {
    // "it's here" = 9 chars
    let input = "buffer=9:it's here\n";
    let map = parse(input);
    assert_eq!(val(&map, "buffer"), "it's here");
}

#[test]
fn path_value() {
    let input = "pwd=29:/Users/nilton/tmp/shell-words\n";
    let map = parse(input);
    assert_eq!(val(&map, "pwd"), "/Users/nilton/tmp/shell-words");
}

#[test]
fn key_order_does_not_matter() {
    let input = "buffer=4:echo\nver=1:2\nlang=3:zsh\n";
    let map = parse(input);
    assert_eq!(val(&map, "buffer"), "echo");
    assert_eq!(val(&map, "ver"), "2");
    assert_eq!(val(&map, "lang"), "zsh");
}

#[test]
fn value_with_newlines_and_quotes() {
    // "foo\nbar'baz z\"zzz" = 17 chars
    let input = "buffer=17:foo\nbar'baz z\"zzz\n";
    let map = parse(input);
    assert_eq!(val(&map, "buffer"), "foo\nbar'baz z\"zzz");
}

#[test]
fn multiple_records_no_trailing_newline() {
    let input = "ver=1:2\nbuffer=5:hello";
    let map = parse(input);
    assert_eq!(val(&map, "ver"), "2");
    assert_eq!(val(&map, "buffer"), "hello");
}

#[test]
fn missing_equals() {
    let input = "ver1:2\n";
    assert!(parse_request(input).is_err());
}

#[test]
fn missing_colon() {
    let input = "ver=12\n";
    assert!(parse_request(input).is_err());
}

#[test]
fn invalid_length() {
    let input = "ver=abc:2\n";
    assert!(parse_request(input).is_err());
}

#[test]
fn truncated_value() {
    let input = "buffer=10:hi\n";
    assert!(parse_request(input).is_err());
}

#[test]
fn empty_input() {
    let map = parse("");
    assert!(map.is_empty());
}

#[test]
fn whitespace_only_input() {
    let map = parse("  \n  \n");
    assert!(map.is_empty());
}

// --- Error kinds and edge cases of the length field ---

#[test]
fn parse_error_kinds() {
    assert_eq!(parse_request("ver1:2\n").err(), Some(ParseError::ExpectedEquals));
    assert_eq!(parse_request("ver=12\n").err(), Some(ParseError::ExpectedColon));
    assert_eq!(parse_request("ver=abc:2\n").err(), Some(ParseError::InvalidLength));
    assert_eq!(parse_request("buffer=10:hi\n").err(), Some(ParseError::UnexpectedEof));
}

#[test]
fn length_field_edge_cases() {
    assert_eq!(val(&parse("k=+3:abc"), "k"), "abc");
    assert_eq!(parse_request("k=+:abc").err(), Some(ParseError::InvalidLength));
    assert_eq!(parse_request("k=:abc").err(), Some(ParseError::InvalidLength));
    assert_eq!(parse_request("k=-1:abc").err(), Some(ParseError::InvalidLength));
    assert_eq!(
        parse_request("k=99999999999999999999999:abc").err(),
        Some(ParseError::InvalidLength)
    );
    assert_eq!(val(&parse("k=003:abc"), "k"), "abc");
}

#[test]
fn later_record_overrides_earlier() {
    let map = parse("k=1:a\nk=2:bc\n");
    assert_eq!(map.len(), 1);
    assert_eq!(val(&map, "k"), "bc");
    assert!(map.contains_key("k"));
    assert!(!map.contains_key("x"));
}

#[test]
fn multibyte_values_count_characters() {
    let map = parse("buffer=4:café\nver=1:2");
    assert_eq!(val(&map, "buffer"), "café");
    assert_eq!(val(&map, "ver"), "2");
}

#[test]
fn parse_error_messages() {
    assert_eq!(ParseError::ExpectedEquals.message(), "expected '=' in request");
    assert_eq!(ParseError::UnexpectedEof.message(), "unexpected end of input");
}

// --- Streaming reader ---

use treeish::protocol::{read_request_lines, split_lines, FeedOutcome, ReadError, RequestReader};

fn read(input: &str) -> StrMap {
    read_request_lines(&split_lines(input)).unwrap()
}

#[test]
fn streaming_basic_request() {
    let input = "ver=1:2\nlang=3:zsh\npwd=5:/home\nprebuffer=0:\nbuffer=10:echo hello\nEOM=0:\n";
    let map = read(input);
    assert_eq!(val(&map, "ver"), "2");
    assert_eq!(val(&map, "lang"), "zsh");
    assert_eq!(val(&map, "pwd"), "/home");
    assert_eq!(val(&map, "prebuffer"), "");
    assert_eq!(val(&map, "buffer"), "echo hello");
}

#[test]
fn streaming_multiline_value() {
    // "foo\nbar" = 7 chars
    let input = "ver=1:2\nbuffer=7:foo\nbar\nEOM=0:\n";
    let map = read(input);
    assert_eq!(val(&map, "buffer"), "foo\nbar");
}

#[test]
fn streaming_empty_prebuffer() {
    let input = "ver=1:2\nprebuffer=0:\nbuffer=4:echo\nEOM=0:\n";
    let map = read(input);
    assert_eq!(val(&map, "prebuffer"), "");
    assert_eq!(val(&map, "buffer"), "echo");
}

#[test]
fn streaming_complex_value() {
    // "foo\nbar'baz z\"zzz" = 17 chars
    let input = "ver=1:2\nbuffer=17:foo\nbar'baz z\"zzz\nEOM=0:\n";
    let map = read(input);
    assert_eq!(val(&map, "buffer"), "foo\nbar'baz z\"zzz");
}

#[test]
fn streaming_eom_is_terminator() {
    // After seeing EOM, the reader stops even if there's more data
    let input = "ver=1:2\nbuffer=4:echo\nEOM=0:\nextra=4:data\n";
    let map = read(input);
    assert_eq!(map.len(), 2);
    assert_eq!(val(&map, "ver"), "2");
    assert_eq!(val(&map, "buffer"), "echo");
    assert!(!map.contains_key("extra"));
}

#[test]
fn streaming_errors() {
    assert_eq!(read_request_lines(&split_lines("ver1:2\n")).err(), Some(ParseError::ExpectedEquals));
    assert_eq!(read_request_lines(&split_lines("ver=12\n")).err(), Some(ParseError::ExpectedColon));
    assert_eq!(read_request_lines(&split_lines("ver=x:2\n")).err(), Some(ParseError::InvalidLength));
    assert_eq!(read_request_lines(&split_lines("buffer=10:hi\nthere")).err(), Some(ParseError::UnexpectedEof));
}

#[test]
fn streaming_end_of_stream_without_eom() {
    let map = read("ver=1:2\r\n\nbuffer=3:abcdef\n");
    assert_eq!(map.len(), 2);
    assert_eq!(val(&map, "ver"), "2");
    assert_eq!(val(&map, "buffer"), "abc");
}

#[test]
fn streaming_value_cut_mid_line() {
    // 7 chars: "ab\ncd\n" is 6, so one more char is taken from the third line.
    let map = read("k=7:ab\ncd\nefgh\nEOM=0:\n");
    assert_eq!(val(&map, "k"), "ab\ncd\ne");
}

#[test]
fn reader_steps() {
    let mut r = RequestReader::new();
    assert_eq!(r.feed("k=5:ab\n"), FeedOutcome::NeedLine);
    assert_eq!(r.feed("cd\n"), FeedOutcome::NeedLine);
    assert_eq!(r.feed("EOM=0:\n"), FeedOutcome::Finished);
    let m = r.into_map();
    assert_eq!(val(&m, "k"), "ab\ncd");
}

#[test]
fn split_lines_keeps_line_endings() {
    assert_eq!(split_lines("a\nb\r\nc"), vec!["a\n".to_string(), "b\r\n".to_string(), "c".to_string()]);
    assert!(split_lines("").is_empty());
}

#[test]
fn read_error_message() {
    let e = ReadError::Parse(ParseError::InvalidLength);
    assert_eq!(e.message(), "parse error: invalid length in request");
    let io = ReadError::Io(std::io::Error::new(std::io::ErrorKind::Other, "connection reset"));
    assert_eq!(io.message(), "I/O error: connection reset");
}

// --- What the zsh integration writes is read back ---

fn encode(records: &[(&str, &str)]) -> String {
    let mut out = String::new();
    for (k, v) in records {
        out.push_str(&format!("{}={}:{}\n", k, v.chars().count(), v));
    }
    out
}

#[test]
fn written_records_parse_back() {
    let records = [("ver", "2"), ("buffer", "for f in *; do\n  echo $f\ndone"), ("", "x=y:z"), ("ver", "3"), ("pre", "a\rb\n")];
    let map = parse(&encode(&records));
    assert_eq!(map.len(), 4);
    assert_eq!(val(&map, "ver"), "3");
    assert_eq!(val(&map, "buffer"), "for f in *; do\n  echo $f\ndone");
    assert_eq!(val(&map, ""), "x=y:z");
    assert_eq!(val(&map, "pre"), "a\rb\n");
}

#[test]
fn written_records_read_back_from_a_stream() {
    let records = [("ver", "2"), ("buffer", "line one\n\nline three\n"), (" sp", "é\n"), ("ver", "3"), ("pre", "a\rb")];
    let mut input = encode(&records);
    input.push_str("EOM=0:\n");
    let map = read(&input);
    assert_eq!(map.len(), 4);
    assert_eq!(val(&map, "ver"), "3");
    assert_eq!(val(&map, "buffer"), "line one\n\nline three\n");
    assert_eq!(val(&map, " sp"), "é\n");
    assert_eq!(val(&map, "pre"), "a\rb");
}
