use authproxy::forward::build_target_url;
use authproxy::headers::Headers;
use authproxy::req::Method;
use authproxy::resp::{Response, Status};
use authproxy::token::parse_token_response;

#[test]
fn token_response_exact_shape() {
    let a = parse_token_response(b"{\"access_token\":\"acc_tok_123\",\"expires_in\":1234}")
        .unwrap();
    assert_eq!(a.access_token, "acc_tok_123");
    assert_eq!(a.expires_in, 1234);
}

#[test]
fn token_response_with_whitespace() {
    let a =
        parse_token_response(b"  { \"access_token\" : \"t\" , \"expires_in\" : 0 }  ").unwrap();
    assert_eq!(a.access_token, "t");
    assert_eq!(a.expires_in, 0);
}

#[test]
fn token_response_fields_in_either_order() {
    let a = parse_token_response(b"{\"expires_in\":60,\"access_token\":\"tok1\"}").unwrap();
    assert_eq!(a.access_token, "tok1");
    assert_eq!(a.expires_in, 60);
}

#[test]
fn token_response_rejects_other_shapes() {
    // a missing member
    assert!(parse_token_response(b"{\"access_token\":\"t\"}").is_none());
    // an unknown member
    assert!(parse_token_response(b"{\"access_token\":\"t\",\"scope\":\"all\"}").is_none());
    // a duplicated member
    assert!(parse_token_response(b"{\"access_token\":\"a\",\"access_token\":\"b\"}").is_none());
    // a wrongly typed lifetime
    assert!(parse_token_response(b"{\"access_token\":\"t\",\"expires_in\":\"60\"}").is_none());
    // trailing bytes
    assert!(parse_token_response(b"{\"access_token\":\"t\",\"expires_in\":1}x").is_none());
    // an escape in the credential
    assert!(parse_token_response(b"{\"access_token\":\"a\\\"b\",\"expires_in\":1}").is_none());
    // not an object at all
    assert!(parse_token_response(b"[]").is_none());
    assert!(parse_token_response(b"").is_none());
}

#[test]
fn response_head_renders_exactly() {
    let r = Response::from_string(Status::Okay, String::from("hello"));
    assert_eq!(
        r.status_and_headers(),
        "HTTP/1.1 200 OK\r\nContent-Type: text/html\r\nContent-Length: 5\r\n\r\n"
    );
    assert_eq!(r.body, b"hello");
}

#[test]
fn response_not_found_head() {
    let r = Response::from_html(Status::NotFound, "gone");
    assert!(r.status_and_headers().starts_with("HTTP/1.1 404 Not Found\r\n"));
    assert_eq!(r.headers.get("content-length").unwrap(), "4");
}

#[test]
fn response_error_head() {
    let r = Response::from_html(Status::InternalServerError, "Internal Server Error");
    assert!(r.status_and_headers().starts_with("HTTP/1.1 500 Internal Server Error\r\n"));
}

#[test]
fn response_empty_body_has_zero_length() {
    let r = Response::from_string(Status::Okay, String::new());
    assert_eq!(r.headers.get("Content-Length").unwrap(), "0");
    assert!(r.body.is_empty());
}

#[test]
fn target_url_appends_path_and_query() {
    assert_eq!(build_target_url("http://origin", "/a/b?q=1"), "http://origin/a/b?q=1");
    assert_eq!(build_target_url("http://origin", "/"), "http://origin/");
}

#[test]
fn method_names() {
    assert_eq!(Method::Get.as_str(), "GET");
    assert_eq!(Method::Post.as_str(), "POST");
    assert_eq!(Method::Put.as_str(), "PUT");
}

#[test]
fn headers_set_and_get_are_case_insensitive() {
    let mut h = Headers::new();
    h.set("Content-Type", "text/html");
    assert_eq!(h.get("content-type").unwrap(), "text/html");
    h.set("CONTENT-TYPE", "application/json");
    assert_eq!(h.len(), 1);
    assert_eq!(h.get("Content-Type").unwrap(), "application/json");
    // The first-received name case is the one kept.
    assert_eq!(h.name_at(0), "Content-Type");
    assert!(h.get("missing").is_none());
}
