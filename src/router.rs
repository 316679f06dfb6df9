//! The dispatcher: what a request asks of the note store, and the responses built
//! from what the store gave back.
use vstd::prelude::*;
use vstd::slice::slice_to_vec;
use vstd::string::StringSliceAdditionalSpecFns;
use vstd::utf8::encode_utf8;
use crate::http::{
    application_json, colon, text_html, text_plain, HttpRequest, HttpResponse, RequestType,
    ResponseView, Status,
};
use crate::render::{markdown_html, render_markdown};
use crate::text::{
    contains_dotdot, digits_value, find, find_from, has_dotdot, is_prefix, is_unsigned_text,
    parse_unsigned, starts_with, unsigned_digits,
};

verus! {

/// What the dispatcher asks for next.
#[derive(Clone, Debug)]
pub enum Action {
    /// Send this response.
    Respond(HttpResponse),
    /// Read the note file at this path (relative to the working directory), then
    /// answer with `read_note` of what was read.
    ReadNote(Vec<u8>),
    /// Write these bytes to the note file at this path, then go on with
    /// `write_note_outcome`.
    WriteNote(Vec<u8>, Vec<u8>),
    /// List the notes directory, then answer with `list_notes` of the entries' names.
    ListNotes(u16, u16),
}

pub enum ActionView {
    Respond(ResponseView),
    ReadNote(Seq<u8>),
    WriteNote(Seq<u8>, Seq<u8>),
    ListNotes(u16, u16),
}

impl View for Action {
    type V = ActionView;

    open spec fn view(&self) -> ActionView {
        match self {
            Action::Respond(r) => ActionView::Respond(r@),
            Action::ReadNote(p) => ActionView::ReadNote(p@),
            Action::WriteNote(p, b) => ActionView::WriteNote(p@, b@),
            Action::ListNotes(s, e) => ActionView::ListNotes(*s, *e),
        }
    }
}

pub open spec fn notes_prefix() -> Seq<u8> {
    "/notes".spec_bytes()
}

pub open spec fn list_prefix() -> Seq<u8> {
    "/list".spec_bytes()
}

pub open spec fn msg_dotdot() -> Seq<u8> {
    "'..' is not allowed in note paths.".spec_bytes()
}

pub open spec fn msg_save_failed() -> Seq<u8> {
    "Failed to save note file.".spec_bytes()
}

pub open spec fn msg_missing_query() -> Seq<u8> {
    "Missing query string '?<start>:<end>'".spec_bytes()
}

pub open spec fn msg_missing_end() -> Seq<u8> {
    "Missing end bounds '?<start>:<end>'".spec_bytes()
}

pub open spec fn msg_bad_start() -> Seq<u8> {
    "Start bounds is not a valid number".spec_bytes()
}

pub open spec fn msg_bad_end() -> Seq<u8> {
    "End bounds is not a valid number".spec_bytes()
}

pub open spec fn msg_inverted() -> Seq<u8> {
    "Start of the bounds is bigger then the end".spec_bytes()
}

pub open spec fn not_found_view() -> ResponseView {
    ResponseView { status: Status::NOT_FOUND, content_type: text_plain(), body: Seq::empty() }
}

pub open spec fn bad_request_view(msg: Seq<u8>) -> ResponseView {
    ResponseView { status: Status::BAD_REQUEST, content_type: text_plain(), body: msg }
}

/// A bound of a listing: an unsigned 16-bit number.
pub open spec fn is_u16_text(t: Seq<u8>) -> bool {
    is_unsigned_text(t) && digits_value(unsigned_digits(t)) <= 0xffff
}

/// The text of the end bound: what follows the first `:`, up to a second `:` if any.
pub open spec fn end_text(rest: Seq<u8>) -> Seq<u8> {
    match find_from(rest, colon(), 0) {
        None => rest,
        Some(d) => rest.subrange(0, d),
    }
}

/// A `/list` request: the bounds are read from the path after its sixth byte, as
/// `<start>:<end>`.
pub open spec fn list_route(path: Seq<u8>) -> ActionView {
    if path.len() <= 6 || find_from(path, seq![0x3fu8], 0) is None {
        ActionView::Respond(bad_request_view(msg_missing_query()))
    } else {
        let q = path.subrange(6, path.len() as int);
        match find_from(q, colon(), 0) {
            None => ActionView::Respond(bad_request_view(msg_missing_end())),
            Some(c) => {
                let st = q.subrange(0, c);
                let et = end_text(q.subrange(c + 1, q.len() as int));
                if !is_u16_text(st) {
                    ActionView::Respond(bad_request_view(msg_bad_start()))
                } else if !is_u16_text(et) {
                    ActionView::Respond(bad_request_view(msg_bad_end()))
                } else if digits_value(unsigned_digits(st)) > digits_value(unsigned_digits(et)) {
                    ActionView::Respond(bad_request_view(msg_inverted()))
                } else {
                    ActionView::ListNotes(
                        digits_value(unsigned_digits(st)) as u16,
                        digits_value(unsigned_digits(et)) as u16,
                    )
                }
            },
        }
    }
}

/// Where a request with this method, path and body leads.
pub open spec fn route(m: RequestType, path: Seq<u8>, body: Seq<u8>) -> ActionView {
    if is_prefix(notes_prefix(), path) {
        match m {
            RequestType::GET => ActionView::ReadNote(path.drop_first()),
            RequestType::POST => if has_dotdot(path.drop_first()) {
                ActionView::Respond(bad_request_view(msg_dotdot()))
            } else {
                ActionView::WriteNote(path.drop_first(), body)
            },
            RequestType::OTHER => ActionView::Respond(not_found_view()),
        }
    } else if is_prefix(list_prefix(), path) {
        list_route(path)
    } else {
        ActionView::Respond(not_found_view())
    }
}

fn parse_bound(t: &[u8]) -> (r: Option<u16>)
    ensures
        match r {
            None => !is_u16_text(t@),
            Some(v) => is_u16_text(t@) && v as nat == digits_value(unsigned_digits(t@)),
        },
{
    match parse_unsigned(t, 0xffff) {
        None => None,
        Some(v) => Some(v as u16),
    }
}

fn list_request(path: &[u8]) -> (r: Action)
    ensures
        r@ == list_route(path@),
{
    let mut qm: Vec<u8> = Vec::new();
    qm.push(0x3f);
    assert(qm@ =~= seq![0x3fu8]);
    if path.len() <= 6 || find(path, qm.as_slice(), 0).is_none() {
        return Action::Respond(HttpResponse::err_with_context("Missing query string '?<start>:<end>'"));
    }
    let q = &path[6..path.len()];
    let mut c: Vec<u8> = Vec::new();
    c.push(0x3a);
    assert(c@ =~= colon());
    match find(q, c.as_slice(), 0) {
        None => Action::Respond(HttpResponse::err_with_context("Missing end bounds '?<start>:<end>'")),
        Some(k) => {
            let rest = &q[k + 1..q.len()];
            let et = match find(rest, c.as_slice(), 0) {
                None => rest,
                Some(d) => &rest[0..d],
            };
            assert(et@ == end_text(rest@));
            let start = match parse_bound(&q[0..k]) {
                None => return Action::Respond(HttpResponse::err_with_context("Start bounds is not a valid number")),
                Some(v) => v,
            };
            let end = match parse_bound(et) {
                None => return Action::Respond(HttpResponse::err_with_context("End bounds is not a valid number")),
                Some(v) => v,
            };
            if start > end {
                Action::Respond(HttpResponse::err_with_context("Start of the bounds is bigger then the end"))
            } else {
                Action::ListNotes(start, end)
            }
        },
    }
}

/// Decides what a request asks for: a note to read or write, a listing, or a response
/// straight away when the request is refused or matches no route.
pub fn eval_request(request: &HttpRequest) -> (r: Action)
    ensures
        r@ == route(request.req_type, request.path@, request.body@),
{
    let path = request.path.as_slice();
    proof {
        reveal_strlit("/notes");
        vstd::string::is_ascii_spec_bytes("/notes");
    }
    if starts_with(path, "/notes".as_bytes()) {
        let rel = slice_to_vec(&path[1..path.len()]);
        assert(rel@ =~= path@.drop_first());
        match request.req_type {
            RequestType::GET => Action::ReadNote(rel),
            RequestType::POST => if contains_dotdot(rel.as_slice()) {
                Action::Respond(HttpResponse::err_with_context("'..' is not allowed in note paths."))
            } else {
                Action::WriteNote(rel, slice_to_vec(request.body.as_slice()))
            },
            RequestType::OTHER => Action::Respond(HttpResponse::not_found()),
        }
    } else if starts_with(path, "/list".as_bytes()) {
        list_request(path)
    } else {
        Action::Respond(HttpResponse::not_found())
    }
}

/// The response to a read: the file's text rendered as HTML, or `404 Not Found` when the
/// file could not be read as text.
pub open spec fn read_view(file: Option<Seq<char>>) -> ResponseView {
    match file {
        None => not_found_view(),
        Some(md) => ResponseView {
            status: Status::OK,
            content_type: text_html(),
            body: encode_utf8(markdown_html(md)),
        },
    }
}

/// Answers a read with what reading the note file gave: its text, or `None` when it
/// could not be read.
pub fn read_note(file: Option<&str>) -> (r: HttpResponse)
    ensures
        r@ == read_view(match file {
            None => None,
            Some(s) => Some(s@),
        }),
{
    match file {
        None => HttpResponse::not_found(),
        Some(md) => {
            let html = render_markdown(md);
            let mut response = HttpResponse::ok();
            response.html(html.as_str().as_bytes());
            response
        },
    }
}

pub open spec fn write_outcome_view(path: Seq<u8>, saved: bool) -> ActionView {
    if saved {
        ActionView::ReadNote(path)
    } else {
        ActionView::Respond(bad_request_view(msg_save_failed()))
    }
}

/// Goes on after a write of the note at `path`: reads the note back when it was saved,
/// or answers `400 Bad Request` when it was not.
pub fn write_note_outcome(path: Vec<u8>, saved: bool) -> (r: Action)
    ensures
        r@ == write_outcome_view(path@, saved),
{
    if saved {
        Action::ReadNote(path)
    } else {
        Action::Respond(HttpResponse::err_with_context("Failed to save note file."))
    }
}

pub open spec fn hex_digit(n: u8) -> u8 {
    if n < 10 {
        (0x30 + n) as u8
    } else {
        (0x61 + n - 10) as u8
    }
}

/// A byte inside a JSON string: `"` and `\` escaped by a backslash, control bytes as
/// `\u00XX`, any other byte as it is.
pub open spec fn escape_byte(b: u8) -> Seq<u8> {
    if b == 0x22 || b == 0x5c {
        seq![0x5cu8, b]
    } else if b < 0x20 {
        seq![0x5cu8, 0x75, 0x30, 0x30, hex_digit(b / 16), hex_digit(b % 16)]
    } else {
        seq![b]
    }
}

pub open spec fn escape(s: Seq<u8>) -> Seq<u8>
    decreases s.len(),
{
    if s.len() == 0 {
        Seq::empty()
    } else {
        escape(s.drop_last()) + escape_byte(s.last())
    }
}

/// A JSON string holding the bytes `s`.
pub open spec fn json_string(s: Seq<u8>) -> Seq<u8> {
    seq![0x22u8] + escape(s) + seq![0x22u8]
}

/// The JSON strings of `ns`, separated by `, `.
pub open spec fn json_items(ns: Seq<Seq<u8>>) -> Seq<u8>
    decreases ns.len(),
{
    if ns.len() == 0 {
        Seq::empty()
    } else if ns.len() == 1 {
        json_string(ns[0])
    } else {
        json_items(ns.drop_last()) + seq![0x2cu8, 0x20] + json_string(ns.last())
    }
}

/// A JSON array of the strings `ns`.
pub open spec fn json_array(ns: Seq<Seq<u8>>) -> Seq<u8> {
    seq![0x5bu8] + json_items(ns) + seq![0x5du8]
}

pub open spec fn names_view(names: Seq<Vec<u8>>) -> Seq<Seq<u8>> {
    Seq::new(names.len(), |i: int| names[i]@)
}

/// The entries at positions `start` up to `end`, `end` excluded, as far as there are
/// entries.
pub open spec fn select(ns: Seq<Seq<u8>>, start: int, end: int) -> Seq<Seq<u8>> {
    let lo = if start < ns.len() { start } else { ns.len() as int };
    let hi = if end < ns.len() { end } else { ns.len() as int };
    ns.subrange(lo, hi)
}

pub open spec fn list_view(names: Seq<Seq<u8>>, start: u16, end: u16) -> ResponseView {
    ResponseView {
        status: Status::OK,
        content_type: application_json(),
        body: json_array(select(names, start as int, end as int)),
    }
}

fn hex_byte(n: u8) -> (r: u8)
    requires
        n < 16,
    ensures
        r == hex_digit(n),
{
    if n < 10 {
        0x30 + n
    } else {
        0x61 + n - 10
    }
}

fn push_json_string(out: &mut Vec<u8>, s: &[u8])
    ensures
        final(out)@ == old(out)@ + json_string(s@),
{
    let ghost start = out@;
    out.push(0x22);
    let mut i: usize = 0;
    while i < s.len()
        invariant
            i <= s.len(),
            out@ == start + seq![0x22u8] + escape(s@.subrange(0, i as int)),
        decreases s.len() - i,
    {
        let b = s[i];
        let ghost before = out@;
        if b == 0x22 || b == 0x5c {
            out.push(0x5c);
            out.push(b);
        } else if b < 0x20 {
            out.push(0x5c);
            out.push(0x75);
            out.push(0x30);
            out.push(0x30);
            out.push(hex_byte(b / 16));
            out.push(hex_byte(b % 16));
        } else {
            out.push(b);
        }
        assert(out@ =~= before + escape_byte(b));
        assert(s@.subrange(0, i + 1).drop_last() =~= s@.subrange(0, i as int));
        i = i + 1;
        assert(out@ =~= start + seq![0x22u8] + escape(s@.subrange(0, i as int)));
    }
    assert(s@.subrange(0, i as int) =~= s@);
    out.push(0x22);
    assert(out@ =~= start + json_string(s@));
}

/// Answers a listing of the notes directory: `names` are the names of its entries in
/// the order the directory gave them, and the response is a JSON array of those at
/// positions `start` up to `end`, `end` excluded.
pub fn list_notes(names: &Vec<Vec<u8>>, start: u16, end: u16) -> (r: HttpResponse)
    requires
        start <= end,
    ensures
        r@ == list_view(names_view(names@), start, end),
{
    let ghost ns = names_view(names@);
    let lo: usize = if (start as usize) < names.len() { start as usize } else { names.len() };
    let hi: usize = if (end as usize) < names.len() { end as usize } else { names.len() };
    let ghost sel = select(ns, start as int, end as int);
    assert(sel =~= ns.subrange(lo as int, hi as int));
    let mut out: Vec<u8> = Vec::new();
    out.push(0x5b);
    let mut i: usize = lo;
    while i < hi
        invariant
            lo <= i <= hi <= names.len(),
            ns == names_view(names@),
            sel == ns.subrange(lo as int, hi as int),
            out@ == seq![0x5bu8] + json_items(sel.subrange(0, i - lo)),
        decreases hi - i,
    {
        let ghost before = out@;
        assert(sel.subrange(0, i - lo + 1).drop_last() =~= sel.subrange(0, i - lo));
        assert(sel.subrange(0, i - lo + 1).last() == names@[i as int]@);
        if i > lo {
            out.push(0x2c);
            out.push(0x20);
        }
        push_json_string(&mut out, names[i].as_slice());
        proof {
            if i == lo {
                assert(sel.subrange(0, 1)[0] == names@[i as int]@);
                assert(json_items(sel.subrange(0, i - lo)) =~= Seq::<u8>::empty());
            }
        }
        assert(out@ =~= seq![0x5bu8] + json_items(sel.subrange(0, i - lo + 1)));
        i = i + 1;
    }
    assert(sel.subrange(0, i - lo) =~= sel);
    out.push(0x5d);
    assert(out@ =~= json_array(sel));
    let mut response = HttpResponse::ok();
    response.json(out.as_slice());
    response
}

proof fn lemma_notes_path_starts_with_slash(path: Seq<u8>)
    requires
        is_prefix(notes_prefix(), path),
    ensures
        path.len() >= 1,
        path[0] == 0x2f,
        has_dotdot(path) == has_dotdot(path.drop_first()),
{
    reveal_strlit("/notes");
    vstd::string::is_ascii_spec_bytes("/notes");
    assert(path[0] == path.subrange(0, notes_prefix().len() as int)[0]);
    let d = path.drop_first();
    if has_dotdot(path) {
        let i = choose|i: int| 0 <= i && i + 1 < path.len() && #[trigger] path[i] == 0x2e && path[i + 1] == 0x2e;
        assert(d[i - 1] == 0x2e && d[i] == 0x2e);
    }
    if has_dotdot(d) {
        let i = choose|i: int| 0 <= i && i + 1 < d.len() && #[trigger] d[i] == 0x2e && d[i + 1] == 0x2e;
        assert(path[i + 1] == 0x2e && path[i + 2] == 0x2e);
    }
}

/// A note saved by a POST to a `/notes` path without `..` is read back by a GET of the
/// same path: the POST writes the request body to the path that the GET reads, a
/// successful write is followed by that same read, and a read of a file that holds the
/// text `md` answers with the HTML rendering of `md`.
pub proof fn lemma_note_round_trip(path: Seq<u8>, body: Seq<u8>, get_body: Seq<u8>, md: Seq<char>)
    requires
        is_prefix(notes_prefix(), path),
        !has_dotdot(path),
        encode_utf8(md) == body,
    ensures
        route(RequestType::POST, path, body) == ActionView::WriteNote(path.drop_first(), body),
        write_outcome_view(path.drop_first(), true) == ActionView::ReadNote(path.drop_first()),
        route(RequestType::GET, path, get_body) == ActionView::ReadNote(path.drop_first()),
        read_view(Some(md)) == (ResponseView {
            status: Status::OK,
            content_type: text_html(),
            body: encode_utf8(markdown_html(md)),
        }),
{
    lemma_notes_path_starts_with_slash(path);
}

/// A POST to a `/notes` path that holds `..` anywhere is refused with
/// `400 Bad Request`, whatever its body.
pub proof fn lemma_dotdot_refused(path: Seq<u8>, body: Seq<u8>)
    requires
        is_prefix(notes_prefix(), path),
        has_dotdot(path),
    ensures
        route(RequestType::POST, path, body) == ActionView::Respond(bad_request_view(msg_dotdot())),
{
    lemma_notes_path_starts_with_slash(path);
}

/// A request whose path begins with neither `/notes` nor `/list` is answered
/// `404 Not Found` with an empty body, whatever its method and body.
pub proof fn lemma_unknown_path_not_found(m: RequestType, path: Seq<u8>, body: Seq<u8>)
    requires
        !is_prefix(notes_prefix(), path),
        !is_prefix(list_prefix(), path),
    ensures
        route(m, path, body) == ActionView::Respond(not_found_view()),
        not_found_view().status == Status::NOT_FOUND,
        not_found_view().body.len() == 0,
{
}

} // verus!
