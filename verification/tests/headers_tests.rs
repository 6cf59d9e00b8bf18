use rust_http::headers::Headers;

#[test]
fn test_valid_single_header() {
    let mut headers = Headers::new();
    let data = b"Host: localhost:42069\r\n\r\n";
    let (n, done, err) = headers.parse(data);

    assert!(err.is_none());
    assert_eq!(headers.get("Host"), Some("localhost:42069".to_string()));
    assert_eq!(n, 23);
    assert!(!done);
}

#[test]
fn test_invalid_spacing_header() {
    let mut headers = Headers::new();
    let data = b"       Host : localhost:42069       \r\n\r\n";
    let (n, done, err) = headers.parse(data);

    assert!(err.is_some());
    assert_eq!(n, 0);
    assert!(!done);
}

#[test]
fn test_single_header_with_extra_whitespace() {
    let mut headers = Headers::new();
    let data = b"   Host: localhost:42069    \r\n\r\n";
    let (n, done, err) = headers.parse(data);

    assert!(err.is_none());
    assert_eq!(headers.get("Host"), Some("localhost:42069".to_string()));
    assert_eq!(n, 30);
    assert!(!done);
}

#[test]
fn test_valid_two_headers() {
    let mut headers = Headers::new();
    let data = b"   Host: localhost:42069    \r\nContent-Type: application/json\r\n\r\n";
    let (n, done, err) = headers.parse(data);

    assert!(err.is_none());
    assert_eq!(headers.get("Host"), Some("localhost:42069".to_string()));
    assert_eq!(n, 30);
    assert!(!done);

    let (n, done, err) = headers.parse(&data[30..]);

    assert!(err.is_none());
    assert_eq!(
        headers.get("Content-Type"),
        Some("application/json".to_string())
    );
    assert_eq!(n, 32);
    assert!(!done);
}

#[test]
fn test_valid_done() {
    let mut headers = Headers::new();
    let data = b"\r\n";
    let (n, done, err) = headers.parse(data);

    assert!(err.is_none());
    assert_eq!(n, 2);
    assert!(done);
}

#[test]
fn test_valid_emoji() {
    let mut headers = Headers::new();
    let data = "Emoji: 😄\r\n".as_bytes();
    let (n, done, err) = headers.parse(data);

    assert!(err.is_none());
    assert_eq!(headers.get("Emoji"), Some("😄".to_string()));
    assert_eq!(n, 13);
    assert!(!done);
}

#[test]
fn test_lowercase_header() {
    let mut headers = Headers::new();
    let data = b"host: localhost:42069\r\n\r\n";
    let (n, done, err) = headers.parse(data);

    assert!(err.is_none());
    assert_eq!(headers.get("Host"), Some("localhost:42069".to_string()));
    assert_eq!(n, 23);
    assert!(!done);
}

#[test]
fn test_invalid_field_name() {
    let mut headers = Headers::new();
    let data = b"h@st: localhost:42069\r\n\r\n";
    let (n, done, err) = headers.parse(data);

    assert!(err.is_some());
    assert_eq!(n, 0);
    assert!(!done);
}

#[test]
fn test_multiple_values_for_single_header_field_name() {
    let mut headers = Headers::new();
    let data =
        "set-person: lane-loves-go\r\nset-person: prime-loves-zig\r\nset-person: tj-loves-ocaml\r\n\r\n"
            .as_bytes();

    let mut consumed_bytes = 0;
    let mut done = false;
    let mut err = None;

    while !done && err.is_none() {
        let (n, d, e) = headers.parse(&data[consumed_bytes..]);
        consumed_bytes += n;
        done = d;
        err = e;
    }

    assert!(err.is_none());
    assert_eq!(
        headers.get("set-person"),
        Some("lane-loves-go, prime-loves-zig, tj-loves-ocaml".to_string())
    );
    assert!(done);
}
