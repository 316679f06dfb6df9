use note_server::http::{HttpRequest, HttpResponse, Parsed, RequestType, Status};

fn done(bytes: &[u8]) -> HttpRequest {
    match HttpRequest::parse(bytes) {
        Parsed::Done(r) => r,
        other => panic!("expected a request, got {:?}", other),
    }
}

#[test]
fn parses_get_without_body() {
    let r = done(b"GET /notes/a.md HTTP/1.1\r\nHost: localhost\r\n\r\n");
    assert_eq!(r.req_type, RequestType::GET);
    assert_eq!(r.path, b"/notes/a.md".to_vec());
    assert_eq!(r.headers.len(), 1);
    assert_eq!(r.headers[0].name, b"Host".to_vec());
    assert_eq!(r.headers[0].value, b"localhost".to_vec());
    assert!(r.body.is_empty());
}

#[test]
fn parses_request_line_alone() {
    let r = done(b"GET / HTTP/1.1\r\n\r\n");
    assert_eq!(r.path, b"/".to_vec());
    assert!(r.headers.is_empty());
}

#[test]
fn parses_post_body_by_content_length() {
    let r = done(b"POST /notes/x HTTP/1.1\r\nContent-Length: 5\r\n\r\nhello world");
    assert_eq!(r.req_type, RequestType::POST);
    assert_eq!(r.body, b"hello".to_vec());
}

#[test]
fn other_methods_are_other() {
    assert_eq!(done(b"PUT /x HTTP/1.1\r\n\r\n").req_type, RequestType::OTHER);
    assert_eq!(done(b"get /x HTTP/1.1\r\n\r\n").req_type, RequestType::OTHER);
}

#[test]
fn header_values_are_trimmed() {
    let r = done(b"GET /x HTTP/1.1\r\nX-A: \t  spaced out \t\r\n\r\n");
    assert_eq!(r.headers[0].value, b"spaced out".to_vec());
}

#[test]
fn last_content_length_wins() {
    let r = done(b"POST /x HTTP/1.1\r\nContent-Length: 9\r\nContent-Length: 2\r\n\r\nabcdef");
    assert_eq!(r.body, b"ab".to_vec());
}

#[test]
fn content_length_name_is_case_sensitive() {
    let r = done(b"POST /x HTTP/1.1\r\ncontent-length: 3\r\n\r\nabc");
    assert!(r.body.is_empty());
}

#[test]
fn incomplete_head_is_partial() {
    assert!(matches!(HttpRequest::parse(b"GET /x HTTP/1.1\r\nHost: a\r\n"), Parsed::Partial));
    assert!(matches!(HttpRequest::parse(b""), Parsed::Partial));
}

#[test]
fn short_body_is_partial() {
    let p = HttpRequest::parse(b"POST /x HTTP/1.1\r\nContent-Length: 10\r\n\r\nabc");
    assert!(matches!(p, Parsed::Partial));
}

#[test]
fn malformed_request_line_is_invalid() {
    assert!(matches!(HttpRequest::parse(b"GET /x\r\n\r\n"), Parsed::Invalid));
    assert!(matches!(HttpRequest::parse(b"GET x HTTP/1.1\r\n\r\n"), Parsed::Invalid));
    assert!(matches!(HttpRequest::parse(b"GET  /x HTTP/1.1\r\n\r\n"), Parsed::Invalid));
    assert!(matches!(HttpRequest::parse(b"GET /x HTTP/1.1 extra\r\n\r\n"), Parsed::Invalid));
    assert!(matches!(HttpRequest::parse(b"\r\n\r\n"), Parsed::Invalid));
}

#[test]
fn malformed_header_is_invalid() {
    assert!(matches!(HttpRequest::parse(b"GET /x HTTP/1.1\r\nNoColon\r\n\r\n"), Parsed::Invalid));
    assert!(matches!(HttpRequest::parse(b"GET /x HTTP/1.1\r\n: v\r\n\r\n"), Parsed::Invalid));
}

#[test]
fn bad_content_length_is_invalid() {
    let p = HttpRequest::parse(b"POST /x HTTP/1.1\r\nContent-Length: -1\r\n\r\n");
    assert!(matches!(p, Parsed::Invalid));
    let p = HttpRequest::parse(b"POST /x HTTP/1.1\r\nContent-Length: 99999999999999999999999\r\n\r\n");
    assert!(matches!(p, Parsed::Invalid));
}

#[test]
fn serializes_ok_response() {
    let mut r = HttpResponse::ok();
    r.html(b"<p>hi</p>");
    assert_eq!(
        r.to_bytes(),
        b"HTTP/1.1 200 OK\r\nContent-Type: text/html\r\nContent-Length: 9\r\n\r\n<p>hi</p>".to_vec()
    );
}

#[test]
fn serializes_error_responses() {
    assert_eq!(
        HttpResponse::not_found().to_bytes(),
        b"HTTP/1.1 404 Not Found\r\nContent-Type: text/plain\r\nContent-Length: 0\r\n\r\n".to_vec()
    );
    let r = HttpResponse::err_with_context("nope");
    assert_eq!(r.status, Status::BAD_REQUEST);
    assert_eq!(
        r.to_bytes(),
        b"HTTP/1.1 400 Bad Request\r\nContent-Type: text/plain\r\nContent-Length: 4\r\n\r\nnope".to_vec()
    );
}

#[test]
fn content_length_matches_body_and_body_follows_head() {
    let body: Vec<u8> = (0..1234u32).map(|i| (i % 251) as u8).collect();
    let mut r = HttpResponse::ok();
    r.json(&body);
    let bytes = r.to_bytes();
    let head_end = bytes.windows(4).position(|w| w == b"\r\n\r\n").unwrap();
    let head = String::from_utf8(bytes[..head_end].to_vec()).unwrap();
    assert!(head.ends_with("Content-Length: 1234"));
    assert_eq!(&bytes[head_end + 4..], &body[..]);
}

#[test]
fn serialized_request_round_trips_through_parser() {
    let r = done(b"POST /notes/n HTTP/1.1\r\nContent-Length: 3\r\n\r\nabc");
    let mut resp = HttpResponse::ok();
    resp.json(&r.body);
    assert!(resp.to_bytes().ends_with(b"Content-Length: 3\r\n\r\nabc"));
}
