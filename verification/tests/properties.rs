use rust_http::chunk_reader::ChunkReader;
use rust_http::error::ParseError;
use rust_http::headers::Headers;
use rust_http::request::{parse_request_line, request_from_reader, Request, RequestState};

const STANDARD_REQUEST: &str =
    "GET /coffee HTTP/1.1\r\nHost: localhost:42069\r\nUser-Agent: curl/7.81.0\r\nAccept: */*\r\n\r\n";

fn parse_at_chunk_size(request: &str, size: usize) -> Request {
    let reader = ChunkReader::new(request, size);
    request_from_reader(reader).expect("valid request should parse")
}

#[test]
fn read_granularity_does_not_change_the_result() {
    let whole = STANDARD_REQUEST.len();
    for size in [1usize, 3, 8, 50, whole] {
        let r = parse_at_chunk_size(STANDARD_REQUEST, size);
        assert!(matches!(r.state, RequestState::Done));
        let line = r.request_line.expect("request line should be parsed");
        assert_eq!(line.method, "GET");
        assert_eq!(line.request_target, "/coffee");
        assert_eq!(line.http_version, "1.1");
        assert_eq!(r.headers.get("Host"), Some("localhost:42069".to_string()));
        assert_eq!(r.headers.get("User-Agent"), Some("curl/7.81.0".to_string()));
        assert_eq!(r.headers.get("Accept"), Some("*/*".to_string()));
    }
}

#[test]
fn request_line_alone_parses_exactly() {
    let result = parse_request_line(b"GET / HTTP/1.1\r\n");
    let (consumed, line) = result.expect("well-formed request line");
    let line = line.expect("a full line is available");
    assert_eq!(consumed, 16);
    assert_eq!(line.method, "GET");
    assert_eq!(line.request_target, "/");
    assert_eq!(line.http_version, "1.1");
}

#[test]
fn request_line_without_crlf_needs_more_bytes() {
    let result = parse_request_line(b"GET / HTTP/1.1");
    let (consumed, line) = result.expect("no error before the line is complete");
    assert_eq!(consumed, 0);
    assert!(line.is_none());
}

#[test]
fn space_before_colon_is_a_malformed_header_line() {
    let mut headers = Headers::new();
    let (n, done, err) = headers.parse(b"Host : value\r\n");
    assert_eq!(err, Some(ParseError::MalformedHeaderLine));
    assert_eq!(n, 0);
    assert!(!done);
}

#[test]
fn header_without_colon_is_a_malformed_header_line() {
    let mut headers = Headers::new();
    let (_, _, err) = headers.parse(b"Host localhost\r\n");
    assert_eq!(err, Some(ParseError::MalformedHeaderLine));
}

#[test]
fn bad_field_name_character_is_invalid_field_name() {
    let mut headers = Headers::new();
    let (_, _, err) = headers.parse(b"h@st: localhost:42069\r\n\r\n");
    assert_eq!(err, Some(ParseError::InvalidFieldName));
}

#[test]
fn undecodable_header_bytes_are_invalid_encoding() {
    let mut headers = Headers::new();
    let (n, done, err) = headers.parse(b"X: \xff\xfe\r\n");
    assert_eq!(err, Some(ParseError::InvalidEncoding));
    assert_eq!(n, 0);
    assert!(!done);
}

#[test]
fn out_of_order_tokens_are_a_malformed_request_line() {
    let reader = ChunkReader::new("/ GET HTTP/1.1\r\n\r\n", 4);
    assert_eq!(
        request_from_reader(reader).err(),
        Some(ParseError::MalformedRequestLine)
    );
}

#[test]
fn too_few_tokens_are_a_malformed_request_line() {
    let reader = ChunkReader::new("GET /\r\n\r\n", 4);
    assert_eq!(
        request_from_reader(reader).err(),
        Some(ParseError::MalformedRequestLine)
    );
}

#[test]
fn too_many_tokens_are_a_malformed_request_line() {
    let reader = ChunkReader::new("GET / HTTP/1.1 extra\r\n\r\n", 4);
    assert_eq!(
        request_from_reader(reader).err(),
        Some(ParseError::MalformedRequestLine)
    );
}

#[test]
fn well_formed_but_unknown_method_is_unsupported() {
    let reader = ChunkReader::new("PUT / HTTP/1.1\r\n\r\n", 4);
    assert_eq!(
        request_from_reader(reader).err(),
        Some(ParseError::UnsupportedMethod)
    );
}

#[test]
fn missing_version_prefix_is_an_invalid_version() {
    let reader = ChunkReader::new("GET / HTTPS/1.1\r\n\r\n", 4);
    assert_eq!(
        request_from_reader(reader).err(),
        Some(ParseError::InvalidHttpVersion)
    );
}

#[test]
fn source_closing_early_is_a_premature_eof() {
    let reader = ChunkReader::new("GET / HTTP/1.1\r\nHost: localhost:42069\r\n", 8);
    assert_eq!(
        request_from_reader(reader).err(),
        Some(ParseError::PrematureEof)
    );
}

#[test]
fn empty_source_is_a_premature_eof() {
    let reader = ChunkReader::new("", 8);
    assert_eq!(
        request_from_reader(reader).err(),
        Some(ParseError::PrematureEof)
    );
}

#[test]
fn emoji_split_across_reads_stays_intact() {
    for size in [1usize, 2, 3, 5] {
        let reader = ChunkReader::new("GET / HTTP/1.1\r\nEmoji: 😄 and 🎉\r\n\r\n", size);
        let r = request_from_reader(reader).expect("split multi-byte characters must tolerate buffering");
        assert_eq!(r.headers.get("emoji"), Some("😄 and 🎉".to_string()));
    }
}

#[test]
fn repeated_header_lookup_is_case_insensitive() {
    let mut headers = Headers::new();
    let data = b"set-person: value1\r\nSET-PERSON: value2\r\nSet-Person: value3\r\n\r\n";
    let mut consumed = 0;
    let mut done = false;
    while !done {
        let (n, d, err) = headers.parse(&data[consumed..]);
        assert!(err.is_none());
        consumed += n;
        done = d;
    }
    assert_eq!(
        headers.get("Set-Person"),
        Some("value1, value2, value3".to_string())
    );
    assert_eq!(
        headers.get("set-person"),
        Some("value1, value2, value3".to_string())
    );
    assert_eq!(headers.get("set-persons"), None);
}

#[test]
fn field_name_grammar_accepts_tokens_only() {
    assert!(Headers::is_valid_field_name("Content-Type"));
    assert!(Headers::is_valid_field_name("x^_`|~!#$%&'*+.09AZaz"));
    assert!(!Headers::is_valid_field_name(""));
    assert!(!Headers::is_valid_field_name("Host "));
    assert!(!Headers::is_valid_field_name("h@st"));
    assert!(!Headers::is_valid_field_name("na:me"));
}

#[test]
fn errors_describe_themselves() {
    assert!(!ParseError::PrematureEof.describe().is_empty());
    assert!(!ParseError::InvalidEncoding.describe().is_empty());
}

#[test]
fn bytes_after_the_empty_line_are_left_alone() {
    let reader = ChunkReader::new("GET / HTTP/1.1\r\nHost: x\r\n\r\ntrailing body bytes", 8);
    let r = request_from_reader(reader).expect("request ends at the empty line");
    assert!(matches!(r.state, RequestState::Done));
    assert_eq!(r.headers.get("host"), Some("x".to_string()));
}

#[test]
fn repeated_spaces_between_tokens_are_tolerated() {
    let reader = ChunkReader::new("GET    /tea   HTTP/1.1\r\n\r\n", 5);
    let r = request_from_reader(reader).expect("runs of whitespace separate the same tokens");
    let line = r.request_line.expect("request line should be parsed");
    assert_eq!(line.method, "GET");
    assert_eq!(line.request_target, "/tea");
    assert_eq!(line.http_version, "1.1");
}

#[test]
fn empty_request_line_is_malformed() {
    let reader = ChunkReader::new("\r\n\r\n", 2);
    assert_eq!(
        request_from_reader(reader).err(),
        Some(ParseError::MalformedRequestLine)
    );
}
