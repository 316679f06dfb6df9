use note_server::http::{HttpRequest, HttpResponse, RequestType, Status};
use note_server::router::{eval_request, list_notes, read_note, write_note_outcome, Action};

fn request(m: RequestType, path: &str, body: &[u8]) -> HttpRequest {
    HttpRequest { req_type: m, path: path.as_bytes().to_vec(), headers: Vec::new(), body: body.to_vec() }
}

fn response(a: Action) -> HttpResponse {
    match a {
        Action::Respond(r) => r,
        other => panic!("expected a response, got {:?}", other),
    }
}

fn bad_request(path: &str) -> String {
    let r = response(eval_request(&request(RequestType::GET, path, b"")));
    assert_eq!(r.status, Status::BAD_REQUEST);
    String::from_utf8(r.body).unwrap()
}

#[test]
fn get_note_reads_path_without_leading_slash() {
    match eval_request(&request(RequestType::GET, "/notes/a/b.md", b"")) {
        Action::ReadNote(p) => assert_eq!(p, b"notes/a/b.md".to_vec()),
        other => panic!("{:?}", other),
    }
}

#[test]
fn post_note_writes_body() {
    match eval_request(&request(RequestType::POST, "/notes/x.md", b"# Title")) {
        Action::WriteNote(p, b) => {
            assert_eq!(p, b"notes/x.md".to_vec());
            assert_eq!(b, b"# Title".to_vec());
        }
        other => panic!("{:?}", other),
    }
}

#[test]
fn post_with_dotdot_is_refused() {
    for path in ["/notes/../secret", "/notes/a..b", "/notes..", "/notes/x/.."] {
        let r = response(eval_request(&request(RequestType::POST, path, b"anything")));
        assert_eq!(r.status, Status::BAD_REQUEST);
        assert_eq!(r.body, b"'..' is not allowed in note paths.".to_vec());
    }
}

#[test]
fn other_method_on_notes_is_not_found() {
    let r = response(eval_request(&request(RequestType::OTHER, "/notes/x", b"")));
    assert_eq!(r.status, Status::NOT_FOUND);
    assert!(r.body.is_empty());
}

#[test]
fn unknown_paths_are_not_found_for_every_method() {
    for m in [RequestType::GET, RequestType::POST, RequestType::OTHER] {
        for path in ["/", "/note", "/lis", "/other/notes", "/Notes/x"] {
            let r = response(eval_request(&request(m, path, b"body")));
            assert_eq!(r.status, Status::NOT_FOUND);
            assert!(r.body.is_empty());
        }
    }
}

#[test]
fn list_equal_bounds_gives_empty_array() {
    match eval_request(&request(RequestType::GET, "/list?3:3", b"")) {
        Action::ListNotes(s, e) => {
            assert_eq!((s, e), (3, 3));
            let names = vec![b"a".to_vec(), b"b".to_vec(), b"c".to_vec(), b"d".to_vec(), b"e".to_vec()];
            let r = list_notes(&names, s, e);
            assert_eq!(r.status, Status::OK);
            assert_eq!(r.content_type, b"application/json".to_vec());
            assert_eq!(r.body, b"[]".to_vec());
        }
        other => panic!("{:?}", other),
    }
}

#[test]
fn list_inverted_bounds_is_bad_request() {
    assert_eq!(bad_request("/list?5:2"), "Start of the bounds is bigger then the end");
}

#[test]
fn list_without_query_is_bad_request() {
    assert_eq!(bad_request("/list"), "Missing query string '?<start>:<end>'");
    assert_eq!(bad_request("/list/"), "Missing query string '?<start>:<end>'");
    assert_eq!(bad_request("/list/abc"), "Missing query string '?<start>:<end>'");
}

#[test]
fn list_bound_errors() {
    assert_eq!(bad_request("/list?3"), "Missing end bounds '?<start>:<end>'");
    assert_eq!(bad_request("/list?a:3"), "Start bounds is not a valid number");
    assert_eq!(bad_request("/list?:3"), "Start bounds is not a valid number");
    assert_eq!(bad_request("/list?1:x"), "End bounds is not a valid number");
    assert_eq!(bad_request("/list?1:65536"), "End bounds is not a valid number");
    assert_eq!(bad_request("/list?70000:1"), "Start bounds is not a valid number");
}

#[test]
fn list_bounds_parse() {
    match eval_request(&request(RequestType::POST, "/list?0:65535", b"")) {
        Action::ListNotes(s, e) => assert_eq!((s, e), (0, 65535)),
        other => panic!("{:?}", other),
    }
    match eval_request(&request(RequestType::GET, "/list?+1:2:9", b"")) {
        Action::ListNotes(s, e) => assert_eq!((s, e), (1, 2)),
        other => panic!("{:?}", other),
    }
}

#[test]
fn list_selects_positions_in_range() {
    let names = vec![b"a.md".to_vec(), b"b.md".to_vec(), b"c.md".to_vec(), b"d.md".to_vec()];
    assert_eq!(list_notes(&names, 1, 3).body, b"[\"b.md\", \"c.md\"]".to_vec());
    assert_eq!(list_notes(&names, 3, 10).body, b"[\"d.md\"]".to_vec());
    assert_eq!(list_notes(&names, 0, 4).body, b"[\"a.md\", \"b.md\", \"c.md\", \"d.md\"]".to_vec());
    assert_eq!(list_notes(&names, 7, 9).body, b"[]".to_vec());
    assert_eq!(list_notes(&Vec::new(), 0, 2).body, b"[]".to_vec());
}

#[test]
fn list_escapes_names() {
    let names = vec![b"q\"b\\s\n".to_vec()];
    assert_eq!(list_notes(&names, 0, 1).body, b"[\"q\\\"b\\\\s\\u000a\"]".to_vec());
}

#[test]
fn missing_note_is_not_found() {
    let r = read_note(None);
    assert_eq!(r.status, Status::NOT_FOUND);
    assert!(r.body.is_empty());
}

#[test]
fn note_is_rendered_as_html() {
    let r = read_note(Some("# Hello\n\nSome *text*."));
    assert_eq!(r.status, Status::OK);
    assert_eq!(r.content_type, b"text/html".to_vec());
    assert_eq!(String::from_utf8(r.body).unwrap(), "<h1>Hello</h1>\n<p>Some <em>text</em>.</p>\n");
}

#[test]
fn raw_html_in_notes_is_left_out() {
    let r = read_note(Some("<script>x</script>\n"));
    let html = String::from_utf8(r.body).unwrap();
    assert!(!html.contains("<script>"));
}

#[test]
fn write_then_read_renders_the_written_body() {
    let body = b"*saved*";
    let path = match eval_request(&request(RequestType::POST, "/notes/r.md", body)) {
        Action::WriteNote(p, b) => {
            assert_eq!(b, body.to_vec());
            p
        }
        other => panic!("{:?}", other),
    };
    match write_note_outcome(path.clone(), true) {
        Action::ReadNote(p) => assert_eq!(p, path),
        other => panic!("{:?}", other),
    }
    let r = read_note(Some(std::str::from_utf8(body).unwrap()));
    assert_eq!(String::from_utf8(r.body).unwrap(), "<p><em>saved</em></p>\n");
}

#[test]
fn failed_write_is_bad_request() {
    let r = response(write_note_outcome(b"notes/x".to_vec(), false));
    assert_eq!(r.status, Status::BAD_REQUEST);
    assert_eq!(r.body, b"Failed to save note file.".to_vec());
}
