//! The listener that takes download requests from the browser extension: what
//! it answers to each incoming HTTP request, and where the JSON body of a
//! download request lies.
use vstd::prelude::*;
use crate::text::{
    chars_of, find, first_match, is_white, lemma_first_match_fits, lemma_match_from,
    lemma_match_from_is, lemma_strip_back_padding, lemma_strip_front_skips, lemma_strip_keeps, occurs_at, repeated,
    starts_with, string_of, strip, strip_front, sub_chars, trim, Trimmed,
};

verus! {

/// A download request from the browser: the URL and the browser's headers,
/// each name at most once.
#[derive(Clone, Debug)]
pub struct RequestInfo {
    pub url: String,
    pub headers: Vec<(String, String)>,
}

/// The body of an HTTP request: what follows the first blank line, without
/// surrounding NUL characters and then without surrounding whitespace.
pub open spec fn request_body(request: Seq<char>) -> Option<Seq<char>> {
    match first_match(request, "\r\n\r\n"@) {
        Some(p) => Some(
            strip(
                strip(
                    request.subrange(p + "\r\n\r\n"@.len(), request.len() as int),
                    Trimmed::Only('\0'),
                ),
                Trimmed::Whitespace,
            ),
        ),
        None => None,
    }
}

/// Proof that in a head without a blank line followed by a blank line, the
/// first blank line starts at most three characters before the head ends,
/// and what lies between its end and the end of the head's blank line is
/// line breaks.
proof fn lemma_first_blank_line(head: Seq<char>, rest: Seq<char>) -> (p: int)
    requires
        first_match(head, "\r\n\r\n"@) is None,
    ensures
        first_match(head + "\r\n\r\n"@ + rest, "\r\n\r\n"@) == Some(p),
        head.len() - 3 <= p <= head.len(),
        forall|i: int|
            p + 4 <= i < head.len() + 4 ==> is_white(#[trigger] (head + "\r\n\r\n"@ + rest)[i]),
{
    reveal_strlit("\r\n\r\n");
    let blank = "\r\n\r\n"@;
    let req = head + blank + rest;
    let h = head.len() as int;
    lemma_match_from(head, blank, 0);
    assert(req.subrange(h, h + 4) =~= blank);
    assert(occurs_at(req, blank, h));
    lemma_match_from(req, blank, 0);
    let p = first_match(req, blank).unwrap();
    if p + 4 <= h {
        assert(req.subrange(p, p + 4) =~= head.subrange(p, p + 4));
        assert(!occurs_at(head, blank, p));
    }
    assert forall|i: int| p + 4 <= i < h + 4 implies is_white(#[trigger] req[i]) by {
        assert(req[i] == blank[i - h]);
    }
    p
}

/// Proof that a request made of a head without a blank line, a blank line,
/// a body that neither starts nor ends with whitespace or NUL, and NUL
/// padding has exactly that body. (A line break at the end of the head may
/// move the first blank line earlier; what it leaves before the body is
/// whitespace, which the trim removes.)
pub proof fn lemma_request_body_round_trip(head: Seq<char>, body: Seq<char>, padding: nat)
    requires
        first_match(head, "\r\n\r\n"@) is None,
        body.len() > 0,
        !is_white(body[0]) && body[0] != '\0',
        !is_white(body.last()) && body.last() != '\0',
    ensures
        request_body(head + "\r\n\r\n"@ + body + repeated('\0', padding)) == Some(body),
{
    reveal_strlit("\r\n\r\n");
    let blank = "\r\n\r\n"@;
    assert(blank.len() == 4);
    let tail = body + repeated('\0', padding);
    let req = head + blank + tail;
    assert(req =~= head + blank + body + repeated('\0', padding));
    let p = lemma_first_blank_line(head, tail);
    let h = head.len() as int;
    let w = req.subrange(p + blank.len(), h + 4);
    assert forall|i: int| 0 <= i < w.len() implies is_white(#[trigger] w[i]) by {
        assert(w[i] == req[p + blank.len() + i]);
    }
    let rest = req.subrange(p + blank.len(), req.len() as int);
    let text = w + body;
    assert(rest =~= text + repeated('\0', padding));
    assert(text.len() > 0 && text.last() == body.last());
    assert(text[0] != '\0') by {
        if w.len() > 0 {
            assert(text[0] == w[0]);
        } else {
            assert(text[0] == body[0]);
        }
    }
    assert(strip_front(rest, Trimmed::Only('\0')) == rest) by {
        assert(rest[0] == text[0]);
    }
    lemma_strip_back_padding(text, '\0', padding);
    lemma_strip_front_skips(w, body, Trimmed::Whitespace);
    assert(strip_front(body, Trimmed::Whitespace) == body);
    lemma_strip_keeps(body, Trimmed::Whitespace);
}

/// The body of `request`, which must hold a blank line.
pub fn parse_req(request: &str) -> (r: String)
    requires
        request_body(request@) is Some,
    ensures
        request_body(request@) == Some(r@),
{
    let text = chars_of(request);
    let blank = chars_of("\r\n\r\n");
    let p = find(text.as_slice(), blank.as_slice()).unwrap();
    proof {
        lemma_first_match_fits(text@, blank@);
        assert(first_match(text@, blank@) == Some(p as int));
        assert(p + blank@.len() <= text@.len());
        assert(blank@.len() == blank.len());
        assert(text@.len() == text.len());
    }
    let rest = sub_chars(text.as_slice(), p + blank.len(), text.len());
    let unpadded = trim(rest.as_slice(), Trimmed::Only('\0'));
    let body = trim(unpadded.as_slice(), Trimmed::Whitespace);
    string_of(body.as_slice())
}

/// What the listener does with one incoming request.
#[derive(Debug)]
pub enum ServerStep {
    /// A CORS preflight (`OPTION...`): answer with `preflight_response()` and
    /// keep listening.
    Preflight,
    /// A `POST` with this body: read it as a JSON download request and stop.
    Accept(String),
    /// A `POST` without a blank line: the request cannot be read and the
    /// listener gives up.
    Invalid,
    /// Anything else: keep listening.
    Ignore,
}

/// Whether `step` is what the listener does with `request`.
pub open spec fn step_for(request: Seq<char>, step: ServerStep) -> bool {
    if occurs_at(request, "OPTION"@, 0) {
        step is Preflight
    } else if occurs_at(request, "POST"@, 0) {
        match request_body(request) {
            Some(body) => step matches ServerStep::Accept(b) && b@ == body,
            None => step is Invalid,
        }
    } else {
        step is Ignore
    }
}

/// Decides what to do with one incoming request.
pub fn handle_req(request: &str) -> (r: ServerStep)
    ensures
        step_for(request@, r),
{
    let text = chars_of(request);
    let option = chars_of("OPTION");
    let post = chars_of("POST");
    if starts_with(text.as_slice(), option.as_slice()) {
        ServerStep::Preflight
    } else if starts_with(text.as_slice(), post.as_slice()) {
        let blank = chars_of("\r\n\r\n");
        match find(text.as_slice(), blank.as_slice()) {
            Some(_) => ServerStep::Accept(parse_req(request)),
            None => ServerStep::Invalid,
        }
    } else {
        ServerStep::Ignore
    }
}

/// The answer to a CORS preflight: any origin may `POST` JSON.
pub fn preflight_response() -> (r: &'static str)
    ensures
        r@ == "HTTP/1.1 200 OK\r\nAccess-Control-Allow-Origin: *\r\nAccess-Control-Allow-Headers: Content-Type\r\nAccess-Control-Allow-Methods: POST\r\n\r\n"@,
{
    "HTTP/1.1 200 OK\r\nAccess-Control-Allow-Origin: *\r\nAccess-Control-Allow-Headers: Content-Type\r\nAccess-Control-Allow-Methods: POST\r\n\r\n"
}

} // verus!
