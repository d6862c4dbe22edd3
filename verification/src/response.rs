//! What the downloaders read from the answer to their `HEAD` request: the
//! status, the protocol version and the header fields.
use vstd::prelude::*;
use crate::number::{decimal, lemma_decimal_round_trip, parse_decimal_u64, parse_u64};
use crate::text::{chars_of, lower_all, same_chars, strip, to_ascii_lowercase, trim, Trimmed};

verus! {

/// The HTTP protocol version of a response.
#[derive(Clone, Copy, Debug, PartialEq, Eq)]
pub enum HttpVersion {
    Http09,
    Http10,
    Http11,
    Http2,
    Http3,
}

/// A response to a `HEAD` request, reduced to plain values.
#[derive(Debug)]
pub struct HeadResponse {
    /// The status code.
    pub status: u16,
    /// The protocol version.
    pub version: HttpVersion,
    /// The header fields in the order the response's header map yields them:
    /// each name in lower case, with the raw bytes of its value.
    pub headers: Vec<(String, Vec<u8>)>,
}

/// `StatusCode::is_success`: a status in `200..300`.
pub open spec fn is_success(status: u16) -> bool {
    200 <= status < 300
}

/// A byte that `HeaderValue::to_str` accepts: visible ASCII or a tab.
pub open spec fn visible_ascii(b: u8) -> bool {
    (32 <= b && b < 127) || b == 9
}

/// `HeaderValue::to_str`: the value as text when every byte is visible ASCII.
pub open spec fn header_text(v: Seq<u8>) -> Option<Seq<char>> {
    if forall|i: int| 0 <= i < v.len() ==> visible_ascii(#[trigger] v[i]) {
        Some(v.map_values(|b: u8| b as char))
    } else {
        None
    }
}

pub fn value_text(v: &[u8]) -> (r: Option<Vec<char>>)
    ensures
        match r {
            Some(t) => header_text(v@) == Some(t@),
            None => header_text(v@) is None,
        },
{
    let mut t: Vec<char> = Vec::new();
    let mut i: usize = 0;
    while i < v.len()
        invariant
            i <= v@.len(),
            forall|k: int| 0 <= k < i ==> visible_ascii(#[trigger] v@[k]),
            t@ == v@.take(i as int).map_values(|b: u8| b as char),
        decreases v@.len() - i,
    {
        let b = v[i];
        if !((32 <= b && b < 127) || b == 9) {
            assert(!visible_ascii(v@[i as int]));
            return None;
        }
        t.push(b as char);
        assert(v@.take(i + 1).map_values(|b: u8| b as char) =~= v@.take(i as int).map_values(
            |b: u8| b as char,
        ).push(b as char));
        i = i + 1;
    }
    assert(v@.take(i as int) =~= v@);
    Some(t)
}

/// The position of the first header field named `name` (already in lower
/// case) at or after position `i`.
pub open spec fn field_index_from(headers: Seq<(String, Vec<u8>)>, name: Seq<char>, i: int) -> Option<
    int,
>
    decreases headers.len() - i,
{
    if i < 0 || i >= headers.len() {
        None
    } else if headers[i].0@ == name {
        Some(i)
    } else {
        field_index_from(headers, name, i + 1)
    }
}

/// The position of the field that `HeaderMap::get(key)` reads: the first one
/// whose name is `key` in lower case.
pub open spec fn field_index(headers: Seq<(String, Vec<u8>)>, key: Seq<char>) -> Option<int> {
    field_index_from(headers, lower_all(key), 0)
}

/// `HeaderMap::get(key)`: the value of the first field whose name is `key`
/// in lower case.
pub open spec fn header_get(headers: Seq<(String, Vec<u8>)>, key: Seq<char>) -> Option<Seq<u8>> {
    match field_index(headers, key) {
        Some(i) => Some(headers[i].1@),
        None => None,
    }
}

proof fn lemma_field_index_from(headers: Seq<(String, Vec<u8>)>, name: Seq<char>, i: int)
    requires
        0 <= i,
    ensures
        field_index_from(headers, name, i) matches Some(j) ==> i <= j < headers.len(),
    decreases headers.len() - i,
{
    if i < headers.len() && headers[i].0@ != name {
        lemma_field_index_from(headers, name, i + 1);
    }
}

/// The position of the field that `HeaderMap::get(key)` reads.
pub fn find_field(headers: &Vec<(String, Vec<u8>)>, key: &str) -> (r: Option<usize>)
    ensures
        match r {
            Some(i) => field_index(headers@, key@) == Some(i as int),
            None => field_index(headers@, key@) is None,
        },
{
    let key_chars = chars_of(key);
    let name = to_ascii_lowercase(key_chars.as_slice());
    let mut i: usize = 0;
    while i < headers.len()
        invariant
            name@ == lower_all(key@),
            i <= headers@.len(),
            field_index(headers@, key@) == field_index_from(headers@, name@, i as int),
        decreases headers@.len() - i,
    {
        let field_name = chars_of(headers[i].0.as_str());
        if same_chars(field_name.as_slice(), name.as_slice()) {
            return Some(i);
        }
        i = i + 1;
    }
    None
}

/// The text of the field `key`, when the field is there and readable.
pub open spec fn field_text(headers: Seq<(String, Vec<u8>)>, key: Seq<char>) -> Option<Seq<char>> {
    match header_get(headers, key) {
        Some(v) => header_text(v),
        None => None,
    }
}

pub fn read_field(headers: &Vec<(String, Vec<u8>)>, key: &str) -> (r: Option<Vec<char>>)
    ensures
        match r {
            Some(t) => field_text(headers@, key@) == Some(t@),
            None => field_text(headers@, key@) is None,
        },
{
    match find_field(headers, key) {
        Some(i) => {
            proof {
                lemma_field_index_from(headers@, lower_all(key@), 0);
            }
            value_text(headers[i].1.as_slice())
        },
        None => None,
    }
}

/// The length that a `Content-Length`-like field announces, read leniently:
/// surrounding whitespace is ignored, and a missing, unreadable or malformed
/// value counts as 0.
pub open spec fn lenient_length(text: Option<Seq<char>>) -> u64 {
    match text {
        Some(t) => match parse_u64(strip(t, Trimmed::Whitespace)) {
            Some(n) => n,
            None => 0,
        },
        None => 0,
    }
}

pub fn read_lenient_length(headers: &Vec<(String, Vec<u8>)>, key: &str) -> (r: u64)
    ensures
        r == lenient_length(field_text(headers@, key@)),
{
    match read_field(headers, key) {
        Some(t) => {
            let trimmed = trim(t.as_slice(), Trimmed::Whitespace);
            match parse_decimal_u64(trimmed.as_slice()) {
                Some(n) => n,
                None => 0,
            }
        },
        None => 0,
    }
}

/// Proof that a length field that reads, once surrounding whitespace is
/// trimmed, as the decimal form of some `u64` gives exactly that number, over
/// the whole `u64` range.
pub proof fn lemma_lenient_length_reads_back(t: Seq<char>, n: u64)
    requires
        strip(t, Trimmed::Whitespace) == decimal(n as nat),
    ensures
        lenient_length(Some(t)) == n,
{
    lemma_decimal_round_trip(n);
}

/// Why a `HEAD` request gives no usable file description.
#[derive(Clone, Copy, Debug, PartialEq, Eq)]
pub enum HeadError {
    /// The server answered with this status, which is not a success.
    ServerError(u16),
    /// The announced content length is zero (or missing).
    ZeroContentLength,
}

} // verus!
