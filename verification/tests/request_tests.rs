use rust_http::chunk_reader::ChunkReader;
use rust_http::request::{request_from_reader, RequestState};

#[test]
fn test_good_get_request_line() {
    let reader = ChunkReader::new(
        "GET / HTTP/1.1\r\nHost: localhost:42069\r\nUser-Agent: curl/7.81.0\r\nAccept: */*\r\n\r\n",
        50,
    );

    let result = request_from_reader(reader);
    assert!(result.is_ok());

    let r = result.unwrap();
    assert!(matches!(r.state, RequestState::Done));

    let line = r.request_line.expect("request line should be parsed");
    assert_eq!(line.method, "GET");
    assert_eq!(line.request_target, "/");
    assert_eq!(line.http_version, "1.1");
}

#[test]
fn test_good_get_request_line_with_path() {
    let reader = ChunkReader::new(
        "GET /coffee HTTP/1.1\r\nHost: localhost:42069\r\nUser-Agent: curl/7.81.0\r\nAccept: */*\r\n\r\n",
        3,
    );

    let result = request_from_reader(reader);
    assert!(result.is_ok());

    let r = result.unwrap();
    assert!(matches!(r.state, RequestState::Done));

    let line = r.request_line.expect("request line should be parsed");
    assert_eq!(line.method, "GET");
    assert_eq!(line.request_target, "/coffee");
    assert_eq!(line.http_version, "1.1");
}

#[test]
fn test_invalid_number_of_parts_in_request_line() {
    let input = ChunkReader::new(
        "/coffee HTTP/1.1\r\nHost: localhost:42069\r\nUser-Agent: curl/7.81.0\r\nAccept: */*\r\n\r\n",
        7,
    );

    let result = request_from_reader(input);
    assert!(result.is_err());
}

#[test]
fn test_good_post_request_line() {
    let input = ChunkReader::new(
        "POST / HTTP/1.1\r\nHost: localhost:42069\r\nUser-Agent: curl/7.81.0\r\nAccept: */*\r\n\r\n",
        4,
    );

    let result = request_from_reader(input);
    assert!(result.is_ok());

    let r = result.unwrap();
    assert!(matches!(r.state, RequestState::Done));

    let line = r.request_line.expect("request line should be parsed");
    assert_eq!(line.method, "POST");
    assert_eq!(line.request_target, "/");
    assert_eq!(line.http_version, "1.1");
}

#[test]
fn test_invalid_out_of_order_request_line() {
    let input = ChunkReader::new(
        "/ GET HTTP/1.1\r\nHost: localhost:42069\r\nUser-Agent: curl/7.81.0\r\nAccept: */*\r\n\r\n",
        9,
    );

    let result = request_from_reader(input);
    assert!(result.is_err());
}

#[test]
fn test_standard_headers() {
    let reader = ChunkReader::new(
        "GET / HTTP/1.1\r\nHost: localhost:42069\r\nUser-Agent: curl/7.81.0\r\nAccept: */*\r\n\r\n",
        3,
    );

    let result = request_from_reader(reader);
    assert!(result.is_ok());

    let r = result.unwrap();
    assert_eq!(r.headers.get("host"), Some("localhost:42069".to_string()));
    assert_eq!(r.headers.get("user-agent"), Some("curl/7.81.0".to_string()));
    assert_eq!(r.headers.get("accept"), Some("*/*".to_string()));
}

#[test]
fn test_malformed_header() {
    let reader = ChunkReader::new(
        "GET / HTTP/1.1\r\nHost localhost:42069\r\n\r\n",
        3,
    );

    let result = request_from_reader(reader);
    assert!(result.is_err());
}
