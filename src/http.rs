//! The HTTP/1.1 boundary: reading one request from the bytes received so far, and
//! writing a response as bytes.
use vstd::prelude::*;
use crate::text::{
    all_digits, decimal, digits_value, find, find_from, is_unsigned_text, lemma_decimal_digits,
    parse_unsigned, push_all, push_decimal, unsigned_digits,
};
use vstd::slice::slice_to_vec;
use vstd::string::StringSliceAdditionalSpecFns;

verus! {

/// The request method, as far as the server tells methods apart.
#[derive(PartialEq, Eq, Structural, Clone, Copy, Debug)]
pub enum RequestType {
    GET,
    POST,
    OTHER,
}

/// One header line, `Name: Value`, with the value trimmed.
#[derive(Clone, Debug)]
pub struct Header {
    pub name: Vec<u8>,
    pub value: Vec<u8>,
}

/// A parsed request.
#[derive(Clone, Debug)]
pub struct HttpRequest {
    pub req_type: RequestType,
    pub path: Vec<u8>,
    pub headers: Vec<Header>,
    pub body: Vec<u8>,
}

/// What the parser makes of the bytes received so far.
#[derive(Clone, Debug)]
pub enum Parsed {
    /// A whole request; bytes after its body are ignored.
    Done(HttpRequest),
    /// The bytes so far are the start of a request: more are needed.
    Partial,
    /// The bytes cannot start a well-formed request.
    Invalid,
}

/// The mathematical value of a request.
pub struct RequestView {
    pub req_type: RequestType,
    pub path: Seq<u8>,
    pub headers: Seq<(Seq<u8>, Seq<u8>)>,
    pub body: Seq<u8>,
}

pub enum ParsedView {
    Done(RequestView),
    Partial,
    Invalid,
}

pub open spec fn headers_view(hs: Seq<Header>) -> Seq<(Seq<u8>, Seq<u8>)> {
    Seq::new(hs.len(), |i: int| (hs[i].name@, hs[i].value@))
}

impl View for HttpRequest {
    type V = RequestView;

    open spec fn view(&self) -> RequestView {
        RequestView {
            req_type: self.req_type,
            path: self.path@,
            headers: headers_view(self.headers@),
            body: self.body@,
        }
    }
}

impl View for Parsed {
    type V = ParsedView;

    open spec fn view(&self) -> ParsedView {
        match self {
            Parsed::Done(r) => ParsedView::Done(r@),
            Parsed::Partial => ParsedView::Partial,
            Parsed::Invalid => ParsedView::Invalid,
        }
    }
}

pub open spec fn crlf() -> Seq<u8> {
    seq![13u8, 10u8]
}

pub open spec fn crlfcrlf() -> Seq<u8> {
    seq![13u8, 10u8, 13u8, 10u8]
}

pub open spec fn space() -> Seq<u8> {
    seq![0x20u8]
}

pub open spec fn colon() -> Seq<u8> {
    seq![0x3au8]
}

/// `Content-Length`
pub open spec fn content_length_name() -> Seq<u8> {
    seq![0x43u8, 0x6f, 0x6e, 0x74, 0x65, 0x6e, 0x74, 0x2d, 0x4c, 0x65, 0x6e, 0x67, 0x74, 0x68]
}

pub open spec fn method_of(m: Seq<u8>) -> RequestType {
    if m == seq![0x47u8, 0x45, 0x54] {
        RequestType::GET
    } else if m == seq![0x50u8, 0x4f, 0x53, 0x54] {
        RequestType::POST
    } else {
        RequestType::OTHER
    }
}

/// `METHOD SP PATH SP VERSION`: exactly two spaces, three non-empty parts, and a path
/// that begins with `/`.
pub open spec fn request_line(line: Seq<u8>) -> Option<(RequestType, Seq<u8>)> {
    match find_from(line, space(), 0) {
        None => None,
        Some(i) => match find_from(line, space(), i + 1) {
            None => None,
            Some(j) => if i > 0 && j > i + 1 && j + 1 < line.len() && line[i + 1] == 0x2f
                && find_from(line, space(), j + 1) is None {
                Some((method_of(line.subrange(0, i)), line.subrange(i + 1, j)))
            } else {
                None
            },
        },
    }
}

pub open spec fn is_ws(b: u8) -> bool {
    b == 0x20 || b == 0x09
}

pub open spec fn trim_start(s: Seq<u8>) -> Seq<u8>
    decreases s.len(),
{
    if s.len() > 0 && is_ws(s[0]) {
        trim_start(s.drop_first())
    } else {
        s
    }
}

pub open spec fn trim_end(s: Seq<u8>) -> Seq<u8>
    decreases s.len(),
{
    if s.len() > 0 && is_ws(s.last()) {
        trim_end(s.drop_last())
    } else {
        s
    }
}

/// `s` without spaces and tabs at either end.
pub open spec fn trim(s: Seq<u8>) -> Seq<u8> {
    trim_end(trim_start(s))
}

/// `Name: Value` with a non-empty name; the name is kept as received, the value is
/// trimmed.
pub open spec fn header_line(line: Seq<u8>) -> Option<(Seq<u8>, Seq<u8>)> {
    match find_from(line, colon(), 0) {
        None => None,
        Some(c) => if c > 0 {
            Some((line.subrange(0, c), trim(line.subrange(c + 1, line.len() as int))))
        } else {
            None
        },
    }
}

/// The header lines of `h` from index `pos` on, one per line, lines ending at CRLF
/// or at the end of `h`.
pub open spec fn header_lines(h: Seq<u8>, pos: int) -> Option<Seq<(Seq<u8>, Seq<u8>)>>
    decreases h.len() + 1 - pos,
{
    if pos < 0 || pos > h.len() {
        None
    } else {
        match find_from(h, crlf(), pos) {
            None => match header_line(h.subrange(pos, h.len() as int)) {
                None => None,
                Some(hd) => Some(seq![hd]),
            },
            Some(k) => if k < pos || k + 2 > h.len() {
                None
            } else {
                match header_line(h.subrange(pos, k)) {
                    None => None,
                    Some(hd) => match header_lines(h, k + 2) {
                        None => None,
                        Some(rest) => Some(seq![hd] + rest),
                    },
                }
            },
        }
    }
}

/// The request line and the headers of a request head (what precedes the blank line).
pub open spec fn head(h: Seq<u8>) -> Option<(RequestType, Seq<u8>, Seq<(Seq<u8>, Seq<u8>)>)> {
    match find_from(h, crlf(), 0) {
        None => match request_line(h) {
            None => None,
            Some((m, p)) => Some((m, p, Seq::empty())),
        },
        Some(k) => match request_line(h.subrange(0, k)) {
            None => None,
            Some((m, p)) => match header_lines(h, k + 2) {
                None => None,
                Some(hs) => Some((m, p, hs)),
            },
        },
    }
}

/// The value of the last header named `name`.
pub open spec fn last_value(hs: Seq<(Seq<u8>, Seq<u8>)>, name: Seq<u8>) -> Option<Seq<u8>>
    decreases hs.len(),
{
    if hs.len() == 0 {
        None
    } else if hs.last().0 == name {
        Some(hs.last().1)
    } else {
        last_value(hs.drop_last(), name)
    }
}

/// What the bytes `s` received so far make: a request once the head and a body of
/// `Content-Length` bytes (none without that header) are in.
pub open spec fn parse_spec(s: Seq<u8>) -> ParsedView {
    match find_from(s, crlfcrlf(), 0) {
        None => ParsedView::Partial,
        Some(t) => match head(s.subrange(0, t)) {
            None => ParsedView::Invalid,
            Some((m, p, hs)) => match last_value(hs, content_length_name()) {
                None => ParsedView::Done(
                    RequestView { req_type: m, path: p, headers: hs, body: Seq::empty() },
                ),
                Some(v) => if !(is_unsigned_text(v) && digits_value(unsigned_digits(v))
                    <= usize::MAX) {
                    ParsedView::Invalid
                } else if s.len() < t + 4 + digits_value(unsigned_digits(v)) {
                    ParsedView::Partial
                } else {
                    ParsedView::Done(
                        RequestView {
                            req_type: m,
                            path: p,
                            headers: hs,
                            body: s.subrange(t + 4, t + 4 + digits_value(unsigned_digits(v))),
                        },
                    )
                },
            },
        },
    }
}

fn space_bytes() -> (r: Vec<u8>)
    ensures
        r@ == space(),
{
    let mut v: Vec<u8> = Vec::new();
    v.push(0x20);
    assert(v@ =~= space());
    v
}

fn colon_bytes() -> (r: Vec<u8>)
    ensures
        r@ == colon(),
{
    let mut v: Vec<u8> = Vec::new();
    v.push(0x3a);
    assert(v@ =~= colon());
    v
}

fn crlf_bytes() -> (r: Vec<u8>)
    ensures
        r@ == crlf(),
{
    let mut v: Vec<u8> = Vec::new();
    v.push(13);
    v.push(10);
    assert(v@ =~= crlf());
    v
}

fn crlfcrlf_bytes() -> (r: Vec<u8>)
    ensures
        r@ == crlfcrlf(),
{
    let mut v: Vec<u8> = Vec::new();
    v.push(13);
    v.push(10);
    v.push(13);
    v.push(10);
    assert(v@ =~= crlfcrlf());
    v
}

fn method_from(m: &[u8]) -> (r: RequestType)
    ensures
        r == method_of(m@),
{
    if m.len() == 3 && m[0] == 0x47 && m[1] == 0x45 && m[2] == 0x54 {
        assert(m@ =~= seq![0x47u8, 0x45, 0x54]);
        RequestType::GET
    } else if m.len() == 4 && m[0] == 0x50 && m[1] == 0x4f && m[2] == 0x53 && m[3] == 0x54 {
        assert(m@ =~= seq![0x50u8, 0x4f, 0x53, 0x54]);
        assert(m@ != seq![0x47u8, 0x45, 0x54]);
        RequestType::POST
    } else {
        proof {
            if m@ == seq![0x47u8, 0x45, 0x54] {
                assert(m@[0] == 0x47 && m@[1] == 0x45 && m@[2] == 0x54);
            }
            if m@ == seq![0x50u8, 0x4f, 0x53, 0x54] {
                assert(m@[0] == 0x50 && m@[1] == 0x4f && m@[2] == 0x53 && m@[3] == 0x54);
            }
        }
        RequestType::OTHER
    }
}

fn parse_request_line(line: &[u8]) -> (r: Option<(RequestType, Vec<u8>)>)
    ensures
        match r {
            None => request_line(line@) is None,
            Some((m, p)) => request_line(line@) == Some((m, p@)),
        },
{
    let sp = space_bytes();
    let i = match find(line, sp.as_slice(), 0) {
        None => return None,
        Some(i) => i,
    };
    let j = match find(line, sp.as_slice(), i + 1) {
        None => return None,
        Some(j) => j,
    };
    if i > 0 && j > i + 1 && j + 1 < line.len() && line[i + 1] == 0x2f {
        if find(line, sp.as_slice(), j + 1).is_some() {
            return None;
        }
        let m = method_from(&line[0..i]);
        let p = slice_to_vec(&line[i + 1..j]);
        Some((m, p))
    } else {
        None
    }
}

fn trim_bytes(s: &[u8]) -> (r: Vec<u8>)
    ensures
        r@ == trim(s@),
{
    let mut lo: usize = 0;
    assert(s@.subrange(0, s.len() as int) =~= s@);
    while lo < s.len() && (s[lo] == 0x20 || s[lo] == 0x09)
        invariant
            lo <= s.len(),
            trim_start(s@.subrange(lo as int, s.len() as int)) == trim_start(s@),
        decreases s.len() - lo,
    {
        assert(s@.subrange(lo as int, s.len() as int).drop_first() =~= s@.subrange(
            lo + 1,
            s.len() as int,
        ));
        lo = lo + 1;
    }
    assert(trim_start(s@) == s@.subrange(lo as int, s.len() as int));
    let mut hi: usize = s.len();
    while hi > lo && (s[hi - 1] == 0x20 || s[hi - 1] == 0x09)
        invariant
            lo <= hi <= s.len(),
            trim_end(s@.subrange(lo as int, hi as int)) == trim(s@),
        decreases hi,
    {
        assert(s@.subrange(lo as int, hi as int).drop_last() =~= s@.subrange(
            lo as int,
            hi - 1,
        ));
        hi = hi - 1;
    }
    slice_to_vec(&s[lo..hi])
}

fn parse_header_line(line: &[u8]) -> (r: Option<Header>)
    ensures
        match r {
            None => header_line(line@) is None,
            Some(h) => header_line(line@) == Some((h.name@, h.value@)),
        },
{
    let c = colon_bytes();
    match find(line, c.as_slice(), 0) {
        None => None,
        Some(k) => if k > 0 {
            Some(Header { name: slice_to_vec(&line[0..k]), value: trim_bytes(&line[k + 1..line.len()]) })
        } else {
            None
        },
    }
}

fn parse_header_lines(h: &[u8], pos: usize) -> (r: Option<Vec<Header>>)
    requires
        pos <= h.len(),
    ensures
        match r {
            None => header_lines(h@, pos as int) is None,
            Some(v) => header_lines(h@, pos as int) == Some(headers_view(v@)),
        },
{
    let nl = crlf_bytes();
    let mut out: Vec<Header> = Vec::new();
    let mut p: usize = pos;
    loop
        invariant
            p <= h.len(),
            nl@ == crlf(),
            header_lines(h@, pos as int) == match header_lines(h@, p as int) {
                None => None,
                Some(rest) => Some(headers_view(out@) + rest),
            },
        decreases h.len() - p,
    {
        match find(h, nl.as_slice(), p) {
            None => {
                let line = parse_header_line(&h[p..h.len()]);
                assert(h@.subrange(p as int, h.len() as int) == h@.subrange(p as int, h@.len() as int));
                match line {
                    None => {
                        assert(header_lines(h@, p as int) is None);
                        return None;
                    },
                    Some(hd) => {
                        let ghost before = out@;
                        out.push(hd);
                        assert(headers_view(out@) =~= headers_view(before) + seq![(hd.name@, hd.value@)]);
                        return Some(out);
                    },
                }
            },
            Some(k) => {
                let line = parse_header_line(&h[p..k]);
                match line {
                    None => {
                        assert(header_lines(h@, p as int) is None);
                        return None;
                    },
                    Some(hd) => {
                        let ghost before = out@;
                        out.push(hd);
                        assert(headers_view(out@) =~= headers_view(before) + seq![(hd.name@, hd.value@)]);
                        proof {
                            assert(header_lines(h@, p as int) == match header_lines(h@, k + 2) {
                                None => None,
                                Some(rest) => Some(seq![(hd.name@, hd.value@)] + rest),
                            });
                            match header_lines(h@, k + 2) {
                                None => {},
                                Some(rest) => {
                                    assert(headers_view(before) + (seq![(hd.name@, hd.value@)] + rest)
                                        =~= headers_view(out@) + rest);
                                },
                            }
                        }
                        p = k + 2;
                    },
                }
            },
        }
    }
}

fn content_length_bytes() -> (r: Vec<u8>)
    ensures
        r@ == content_length_name(),
{
    let s = "Content-Length";
    proof {
        reveal_strlit("Content-Length");
        vstd::string::is_ascii_spec_bytes(s);
    }
    assert(vstd::string::is_ascii(s));
    let r = slice_to_vec(s.as_bytes());
    assert(r@ =~= content_length_name());
    r
}

fn same_bytes(a: &[u8], b: &[u8]) -> (r: bool)
    ensures
        r == (a@ == b@),
{
    if a.len() != b.len() {
        return false;
    }
    let r = crate::text::matches_at(a, b, 0);
    assert(r ==> a@.subrange(0, a.len() as int) =~= a@);
    assert(a@ == b@ ==> a@.subrange(0, b@.len() as int) =~= b@);
    r
}

/// The value of the last `Content-Length` header.
fn content_length(hs: &Vec<Header>) -> (r: Option<Vec<u8>>)
    ensures
        match r {
            None => last_value(headers_view(hs@), content_length_name()) is None,
            Some(v) => last_value(headers_view(hs@), content_length_name()) == Some(v@),
        },
{
    let name = content_length_bytes();
    let mut found: Option<Vec<u8>> = None;
    let mut i: usize = 0;
    while i < hs.len()
        invariant
            i <= hs.len(),
            name@ == content_length_name(),
            match found {
                None => last_value(headers_view(hs@.subrange(0, i as int)), name@) is None,
                Some(v) => last_value(headers_view(hs@.subrange(0, i as int)), name@) == Some(v@),
            },
        decreases hs.len() - i,
    {
        assert(headers_view(hs@.subrange(0, i + 1)).drop_last() =~= headers_view(
            hs@.subrange(0, i as int),
        ));
        if same_bytes(hs[i].name.as_slice(), name.as_slice()) {
            found = Some(slice_to_vec(hs[i].value.as_slice()));
        }
        i = i + 1;
    }
    assert(hs@.subrange(0, i as int) =~= hs@);
    found
}

fn parse_head(h: &[u8]) -> (r: Option<(RequestType, Vec<u8>, Vec<Header>)>)
    ensures
        match r {
            None => head(h@) is None,
            Some((m, p, hs)) => head(h@) == Some((m, p@, headers_view(hs@))),
        },
{
    let nl = crlf_bytes();
    match find(h, nl.as_slice(), 0) {
        None => match parse_request_line(h) {
            None => None,
            Some((m, p)) => {
                let hs: Vec<Header> = Vec::new();
                assert(headers_view(hs@) =~= Seq::empty());
                Some((m, p, hs))
            },
        },
        Some(k) => match parse_request_line(&h[0..k]) {
            None => None,
            Some((m, p)) => match parse_header_lines(h, k + 2) {
                None => None,
                Some(hs) => Some((m, p, hs)),
            },
        },
    }
}

impl HttpRequest {
    /// Reads one request from the bytes received so far on a connection.
    pub fn parse(buf: &[u8]) -> (r: Parsed)
        ensures
            r@ == parse_spec(buf@),
    {
        let term = crlfcrlf_bytes();
        let t = match find(buf, term.as_slice(), 0) {
            None => return Parsed::Partial,
            Some(t) => t,
        };
        let (m, p, hs) = match parse_head(&buf[0..t]) {
            None => return Parsed::Invalid,
            Some(x) => x,
        };
        match content_length(&hs) {
            None => {
                let r = HttpRequest { req_type: m, path: p, headers: hs, body: Vec::new() };
                assert(r@.body =~= Seq::<u8>::empty());
                Parsed::Done(r)
            },
            Some(v) => match parse_unsigned(v.as_slice(), usize::MAX as u64) {
                None => Parsed::Invalid,
                Some(n) => {
                    let n = n as usize;
                    if buf.len() - (t + 4) < n {
                        Parsed::Partial
                    } else {
                        let body = slice_to_vec(&buf[t + 4..t + 4 + n]);
                        Parsed::Done(HttpRequest { req_type: m, path: p, headers: hs, body })
                    }
                },
            },
        }
    }
}

/// The three statuses that the server answers with.
#[derive(PartialEq, Eq, Structural, Clone, Copy, Debug)]
pub enum Status {
    OK,
    BAD_REQUEST,
    NOT_FOUND,
}

/// A response: a status, a content type and a body.
#[derive(Clone, Debug)]
pub struct HttpResponse {
    pub status: Status,
    pub content_type: Vec<u8>,
    pub body: Vec<u8>,
}

pub struct ResponseView {
    pub status: Status,
    pub content_type: Seq<u8>,
    pub body: Seq<u8>,
}

impl View for HttpResponse {
    type V = ResponseView;

    open spec fn view(&self) -> ResponseView {
        ResponseView { status: self.status, content_type: self.content_type@, body: self.body@ }
    }
}

pub open spec fn text_plain() -> Seq<u8> {
    "text/plain".spec_bytes()
}

pub open spec fn text_html() -> Seq<u8> {
    "text/html".spec_bytes()
}

pub open spec fn application_json() -> Seq<u8> {
    "application/json".spec_bytes()
}

/// The status line, without its line end.
pub open spec fn status_line(s: Status) -> Seq<u8> {
    match s {
        Status::OK => "HTTP/1.1 200 OK".spec_bytes(),
        Status::BAD_REQUEST => "HTTP/1.1 400 Bad Request".spec_bytes(),
        Status::NOT_FOUND => "HTTP/1.1 404 Not Found".spec_bytes(),
    }
}

pub open spec fn content_type_prefix() -> Seq<u8> {
    "\r\nContent-Type: ".spec_bytes()
}

pub open spec fn content_length_prefix() -> Seq<u8> {
    "\r\nContent-Length: ".spec_bytes()
}

/// Everything before the blank line that ends the head.
pub open spec fn response_head(r: ResponseView) -> Seq<u8> {
    status_line(r.status) + content_type_prefix() + r.content_type + content_length_prefix()
        + decimal(r.body.len())
}

/// The bytes sent for a response.
pub open spec fn response_bytes(r: ResponseView) -> Seq<u8> {
    response_head(r) + crlfcrlf() + r.body
}

impl HttpResponse {
    /// An empty `200 OK` response.
    pub fn ok() -> (r: HttpResponse)
        ensures
            r@ == (ResponseView { status: Status::OK, content_type: text_plain(), body: Seq::empty() }),
    {
        let r = HttpResponse {
            status: Status::OK,
            content_type: slice_to_vec("text/plain".as_bytes()),
            body: Vec::new(),
        };
        assert(r@.body =~= Seq::<u8>::empty());
        r
    }

    /// An empty `404 Not Found` response.
    pub fn not_found() -> (r: HttpResponse)
        ensures
            r@ == (ResponseView { status: Status::NOT_FOUND, content_type: text_plain(), body: Seq::empty() }),
    {
        let r = HttpResponse {
            status: Status::NOT_FOUND,
            content_type: slice_to_vec("text/plain".as_bytes()),
            body: Vec::new(),
        };
        assert(r@.body =~= Seq::<u8>::empty());
        r
    }

    /// A `400 Bad Request` response whose body says what was wrong.
    pub fn err_with_context(msg: &str) -> (r: HttpResponse)
        ensures
            r@ == (ResponseView { status: Status::BAD_REQUEST, content_type: text_plain(), body: msg.spec_bytes() }),
    {
        HttpResponse {
            status: Status::BAD_REQUEST,
            content_type: slice_to_vec("text/plain".as_bytes()),
            body: slice_to_vec(msg.as_bytes()),
        }
    }

    /// Makes this response carry an HTML document.
    pub fn html(&mut self, doc: &[u8])
        ensures
            final(self)@ == (ResponseView { status: old(self).status, content_type: text_html(), body: doc@ }),
    {
        self.content_type = slice_to_vec("text/html".as_bytes());
        self.body = slice_to_vec(doc);
    }

    /// Makes this response carry a JSON document.
    pub fn json(&mut self, doc: &[u8])
        ensures
            final(self)@ == (ResponseView { status: old(self).status, content_type: application_json(), body: doc@ }),
    {
        self.content_type = slice_to_vec("application/json".as_bytes());
        self.body = slice_to_vec(doc);
    }

    /// The bytes to send for this response.
    pub fn to_bytes(&self) -> (r: Vec<u8>)
        ensures
            r@ == response_bytes(self@),
    {
        let mut out: Vec<u8> = Vec::new();
        let line: &str = match self.status {
            Status::OK => "HTTP/1.1 200 OK",
            Status::BAD_REQUEST => "HTTP/1.1 400 Bad Request",
            Status::NOT_FOUND => "HTTP/1.1 404 Not Found",
        };
        push_all(&mut out, line.as_bytes());
        push_all(&mut out, "\r\nContent-Type: ".as_bytes());
        push_all(&mut out, self.content_type.as_slice());
        push_all(&mut out, "\r\nContent-Length: ".as_bytes());
        push_decimal(&mut out, self.body.len());
        let term = crlfcrlf_bytes();
        push_all(&mut out, term.as_slice());
        push_all(&mut out, self.body.as_slice());
        out
    }
}

/// In the bytes sent for any response, the head ends with a `Content-Length` header
/// whose digits read back as the body's length, and what follows the blank line that
/// ends the head is the body, byte for byte.
pub proof fn lemma_response_framing(r: ResponseView)
    ensures
        ({
            let b = response_bytes(r);
            let k = b.len() - r.body.len() - 4;
            &&& 0 <= k
            &&& b.subrange(0, k) == response_head(r)
            &&& b.subrange(k, k + 4) == crlfcrlf()
            &&& b.subrange(k + 4, b.len() as int) == r.body
            &&& response_head(r).subrange(
                response_head(r).len() - decimal(r.body.len()).len(),
                response_head(r).len() as int,
            ) == decimal(r.body.len())
            &&& all_digits(decimal(r.body.len()))
            &&& digits_value(decimal(r.body.len())) == r.body.len()
        }),
{
    lemma_decimal_digits(r.body.len());
    let b = response_bytes(r);
    let h = response_head(r);
    let k = b.len() - r.body.len() - 4;
    assert(b.subrange(0, k) =~= h);
    assert(b.subrange(k, k + 4) =~= crlfcrlf());
    assert(b.subrange(k + 4, b.len() as int) =~= r.body);
    assert(h.subrange(h.len() - decimal(r.body.len()).len(), h.len() as int) =~= decimal(
        r.body.len(),
    ));
}

proof fn lemma_find_first(s: Seq<u8>, pat: Seq<u8>, pos: int, k: int)
    requires
        0 <= pos <= k,
        crate::text::occurs_at(s, pat, k),
        forall|j: int| pos <= j < k ==> !crate::text::occurs_at(s, pat, j),
    ensures
        find_from(s, pat, pos) == Some(k),
    decreases k - pos,
{
    if pos < k {
        lemma_find_first(s, pat, pos + 1, k);
    }
}

proof fn lemma_literals()
    ensures
        forall|i: int| 0 <= i < status_line(Status::OK).len() ==> #[trigger] status_line(Status::OK)[i] != 13,
        forall|i: int| 0 <= i < status_line(Status::BAD_REQUEST).len() ==> #[trigger] status_line(Status::BAD_REQUEST)[i] != 13,
        forall|i: int| 0 <= i < status_line(Status::NOT_FOUND).len() ==> #[trigger] status_line(Status::NOT_FOUND)[i] != 13,
        content_type_prefix().len() == 16,
        content_type_prefix()[0] == 13 && content_type_prefix()[2] == 0x43,
        forall|i: int| 1 <= i < 16 ==> #[trigger] content_type_prefix()[i] != 13,
        content_length_prefix().len() == 18,
        content_length_prefix()[0] == 13 && content_length_prefix()[2] == 0x43,
        forall|i: int| 1 <= i < 18 ==> #[trigger] content_length_prefix()[i] != 13,
{
    reveal_strlit("HTTP/1.1 200 OK");
    reveal_strlit("HTTP/1.1 400 Bad Request");
    reveal_strlit("HTTP/1.1 404 Not Found");
    reveal_strlit("\r\nContent-Type: ");
    reveal_strlit("\r\nContent-Length: ");
    vstd::string::is_ascii_spec_bytes("HTTP/1.1 200 OK");
    vstd::string::is_ascii_spec_bytes("HTTP/1.1 400 Bad Request");
    vstd::string::is_ascii_spec_bytes("HTTP/1.1 404 Not Found");
    vstd::string::is_ascii_spec_bytes("\r\nContent-Type: ");
    vstd::string::is_ascii_spec_bytes("\r\nContent-Length: ");
}

/// When the content type holds no carriage return, the first blank line in the bytes
/// sent for a response is the one that ends the head: a reader that looks for it finds
/// the body right after it.
pub proof fn lemma_response_head_end(r: ResponseView)
    requires
        forall|i: int| 0 <= i < r.content_type.len() ==> #[trigger] r.content_type[i] != 13,
    ensures
        find_from(response_bytes(r), crlfcrlf(), 0) == Some(response_head(r).len() as int),
{
    lemma_literals();
    lemma_decimal_digits(r.body.len());
    let b = response_bytes(r);
    let h = response_head(r);
    let k = h.len() as int;
    let sl = status_line(r.status);
    let d = decimal(r.body.len());
    let a = sl.len() as int;
    let c = a + 16 + r.content_type.len();
    assert(b.subrange(k, k + 4) =~= crlfcrlf());
    assert forall|j: int| 0 <= j < k implies !crate::text::occurs_at(b, crlfcrlf(), j) by {
        if crate::text::occurs_at(b, crlfcrlf(), j) {
            assert(b[j] == b.subrange(j, j + 4)[0]);
            assert(b[j + 2] == b.subrange(j, j + 4)[2]);
            assert(b[j + 3] == b.subrange(j, j + 4)[3]);
            if j < a {
                assert(b[j] == sl[j]);
            } else if j < a + 16 {
                if j == a {
                    assert(b[j + 2] == content_type_prefix()[2]);
                } else {
                    assert(b[j] == content_type_prefix()[j - a]);
                }
            } else if j < c {
                assert(b[j] == r.content_type[j - a - 16]);
            } else if j < c + 18 {
                if j == c {
                    assert(b[j + 2] == content_length_prefix()[2]);
                } else {
                    assert(b[j] == content_length_prefix()[j - c]);
                }
            } else {
                assert(b[j] == d[j - c - 18]);
                assert(crate::text::is_digit(d[j - c - 18]));
            }
        }
    }
    lemma_find_first(b, crlfcrlf(), 0, k);
}

} // verus!
