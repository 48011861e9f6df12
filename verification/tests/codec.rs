use authproxy::req::{parse_request, serialize_request, Method, ParseError};

#[test]
fn no_headers() {
    let req = parse_request(b"GET /foo HTTP/1.1\r\n").unwrap();
    assert_eq!(req.method, Method::Get);
    assert_eq!(req.path, "/foo");
    assert_eq!(req.headers.len(), 0);
    assert!(req.body.is_empty());
}

#[test]
fn test_parse_request() {
    let req = parse_request(b"GET /foo HTTP/1.1\r\nHost: localhost\r\n\r\n").unwrap();
    assert_eq!(req.method, Method::Get);
    assert_eq!(req.path, "/foo");
    assert_eq!(req.headers.len(), 1);
    assert_eq!(req.headers.get("Host").unwrap(), "localhost");
    assert!(req.body.is_empty());
}

#[test]
fn test_parse_post_request() {
    let req = parse_request(
        b"POST /foo HTTP/1.1\r\nHost: localhost\r\nContent-Length: 15\r\n\r\n{\"json\":\"test\"}",
    )
    .unwrap();
    assert_eq!(req.method, Method::Post);
    assert_eq!(req.path, "/foo");
    assert_eq!(req.headers.get("host").unwrap(), "localhost");
    assert_eq!(req.headers.get("content-length").unwrap(), "15");
    assert_eq!(req.body, b"{\"json\":\"test\"}");
}

#[test]
fn parse_put_request() {
    let req = parse_request(b"PUT /r HTTP/1.1\r\n\r\n").unwrap();
    assert_eq!(req.method, Method::Put);
}

#[test]
fn unsupported_method_is_rejected() {
    // DELETE is not served: the frame fails to parse and the connection is
    // closed without any response bytes.
    let err = parse_request(b"DELETE /x HTTP/1.1\r\n\r\n").unwrap_err();
    assert_eq!(err, ParseError::UnsupportedMethod);
}

#[test]
fn empty_input_is_malformed() {
    assert_eq!(parse_request(b"").unwrap_err(), ParseError::MalformedStartLine);
}

#[test]
fn missing_path() {
    assert_eq!(parse_request(b"GET\r\n").unwrap_err(), ParseError::MissingPath);
    assert_eq!(parse_request(b"GET \r\n").unwrap_err(), ParseError::MissingPath);
}

#[test]
fn header_without_colon_is_malformed() {
    let err = parse_request(b"GET / HTTP/1.1\r\nBadHeader\r\n\r\n").unwrap_err();
    assert_eq!(err, ParseError::MalformedHeader);
}

#[test]
fn header_without_name_is_malformed() {
    let err = parse_request(b"GET / HTTP/1.1\r\n: value\r\n\r\n").unwrap_err();
    assert_eq!(err, ParseError::MalformedHeader);
}

#[test]
fn header_value_is_trimmed_but_case_kept() {
    let req = parse_request(b"GET / HTTP/1.1\r\nX-Thing:   padded value  \r\n\r\n").unwrap();
    assert_eq!(req.headers.get("x-thing").unwrap(), "padded value");
    assert_eq!(req.headers.name_at(0), "X-Thing");
}

#[test]
fn content_length_is_honoured_exactly() {
    let req = parse_request(b"POST /u HTTP/1.1\r\nContent-Length: 4\r\n\r\nabcdef").unwrap();
    // Only the declared four bytes belong to the body.
    assert_eq!(req.body, b"abcd");
}

#[test]
fn content_length_lookup_is_case_insensitive() {
    let req = parse_request(b"POST /u HTTP/1.1\r\ncOnTeNt-LeNgTh: 3\r\n\r\nxyz").unwrap();
    assert_eq!(req.body, b"xyz");
}

#[test]
fn truncated_body_is_rejected() {
    let err = parse_request(b"POST /u HTTP/1.1\r\nContent-Length: 10\r\n\r\nshort").unwrap_err();
    assert_eq!(err, ParseError::TruncatedBody);
}

#[test]
fn invalid_content_length_is_rejected() {
    let err = parse_request(b"POST /u HTTP/1.1\r\nContent-Length: ten\r\n\r\n").unwrap_err();
    assert_eq!(err, ParseError::InvalidContentLength);
    let err = parse_request(b"POST /u HTTP/1.1\r\nContent-Length: -1\r\n\r\n").unwrap_err();
    assert_eq!(err, ParseError::InvalidContentLength);
    let err = parse_request(b"POST /u HTTP/1.1\r\nContent-Length:\r\n\r\n").unwrap_err();
    assert_eq!(err, ParseError::InvalidContentLength);
}

#[test]
fn serialize_then_parse_round_trips() {
    let original =
        b"POST /api/data?q=1 HTTP/1.1\r\nHost: origin\r\nContent-Length: 5\r\n\r\nhello";
    let req = parse_request(original).unwrap();
    let wire = serialize_request(&req);
    assert_eq!(wire, original);
    let back = parse_request(&wire).unwrap();
    assert_eq!(back.method, req.method);
    assert_eq!(back.path, req.path);
    assert_eq!(back.headers.len(), req.headers.len());
    assert_eq!(back.headers.get("Host").unwrap(), "origin");
    assert_eq!(back.body, req.body);
}

#[test]
fn serialize_writes_exact_bytes() {
    let req = parse_request(b"GET /p HTTP/1.1\r\nA: b\r\n\r\n").unwrap();
    let wire = serialize_request(&req);
    assert_eq!(wire, b"GET /p HTTP/1.1\r\nA: b\r\n\r\n");
}

#[test]
fn duplicate_header_keeps_last_value_and_first_case() {
    let req = parse_request(b"GET / HTTP/1.1\r\nX-K: one\r\nx-k: two\r\n\r\n").unwrap();
    assert_eq!(req.headers.len(), 1);
    assert_eq!(req.headers.get("X-K").unwrap(), "two");
    assert_eq!(req.headers.name_at(0), "X-K");
}

#[test]
fn bare_newline_terminates_headers() {
    let req = parse_request(b"GET / HTTP/1.1\nHost: h\n\nrest").unwrap();
    assert_eq!(req.headers.get("host").unwrap(), "h");
    assert!(req.body.is_empty());
}

#[test]
fn non_ascii_header_is_malformed() {
    // Header lines are ASCII on this wire; a byte past that range breaks
    // the frame.
    let err = parse_request(b"GET / HTTP/1.1\r\nX-K: caf\xc3\xa9\r\n\r\n").unwrap_err();
    assert_eq!(err, ParseError::MalformedHeader);
}

#[test]
fn non_ascii_path_is_malformed() {
    let err = parse_request(b"GET /caf\xc3\xa9 HTTP/1.1\r\n\r\n").unwrap_err();
    assert_eq!(err, ParseError::MalformedStartLine);
}

#[test]
fn body_bytes_are_arbitrary() {
    let req = parse_request(b"POST /b HTTP/1.1\r\nContent-Length: 3\r\n\r\n\x00\xff\x80").unwrap();
    assert_eq!(req.body, [0x00, 0xff, 0x80]);
}
