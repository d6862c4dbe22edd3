//! The multi-threaded downloader: the file description from a `HEAD`
//! response, the headers sent to the server, and the plan of the parallel
//! download.
use vstd::prelude::*;
use crate::response::{
    field_text, is_success, lenient_length, read_field, read_lenient_length, HeadError,
    HeadResponse, HttpVersion,
};
use crate::dmserver::RequestInfo;
use crate::headers::{
    build_header_map, copy_pairs, field_key, fold_fields, forwarded, header_map_fields,
    header_map_room, kept, lemma_fold_fields_holds, lemma_name_index_from, name_index,
    lemma_set_pair_keeps_names_distinct, names_distinct, pairs_valid, pairs_view, set_pair, set_view,
};
use vstd::utf8::{encode_utf8, is_ascii_chars, is_ascii_chars_encode_utf8};
use crate::paths::{join_path, joined};
use crate::ranges::{even_bounds, even_end, even_start, range_header, range_value};
use crate::text::{chars_of, eq_ignore_ascii_case, eq_ignore_case, string_of};
use reqwest::header::{HeaderMap, HeaderValue};

verus! {

/// What a `HEAD` request tells about the file to download.
#[derive(Clone, Copy, Debug, PartialEq, Eq)]
pub struct ResponseInfo {
    /// The announced size in bytes (never 0).
    pub size: u64,
    /// Whether the server announced byte ranges (`Accept-Ranges: bytes`, in
    /// any case).
    pub supports_ranges: bool,
    /// The protocol version of the response.
    pub version: HttpVersion,
}

/// Reads a `HEAD` response: a failure status is an error, the length comes
/// from the `Content-Length` field (0 when missing or malformed, and then an
/// error), and ranges are supported when `Accept-Ranges` is `bytes` in any
/// case.
///
/// A success response must carry a readable `Accept-Ranges` field.
pub fn get_resp_info(resp: &HeadResponse) -> (r: Result<ResponseInfo, HeadError>)
    requires
        is_success(resp.status) ==> field_text(resp.headers@, "ACCEPT-RANGES"@) is Some,
    ensures
        !is_success(resp.status) ==> r == Err::<ResponseInfo, HeadError>(
            HeadError::ServerError(resp.status),
        ),
        is_success(resp.status) ==> ({
            let size = lenient_length(field_text(resp.headers@, "CONTENT-LENGTH"@));
            let ranges = eq_ignore_case(
                field_text(resp.headers@, "ACCEPT-RANGES"@).unwrap(),
                "bytes"@,
            );
            if size == 0 {
                r == Err::<ResponseInfo, HeadError>(HeadError::ZeroContentLength)
            } else {
                r == Ok::<ResponseInfo, HeadError>(
                    ResponseInfo { size, supports_ranges: ranges, version: resp.version },
                )
            }
        }),
{
    if !(200 <= resp.status && resp.status < 300) {
        return Err(HeadError::ServerError(resp.status));
    }
    let size = read_lenient_length(&resp.headers, "CONTENT-LENGTH");
    let ranges_text = read_field(&resp.headers, "ACCEPT-RANGES").unwrap();
    let bytes = chars_of("bytes");
    let supports_ranges = eq_ignore_ascii_case(ranges_text.as_slice(), bytes.as_slice());
    if size == 0 {
        return Err(HeadError::ZeroContentLength);
    }
    Ok(ResponseInfo { size, supports_ranges, version: resp.version })
}

/// The headers of the async client made for `req`: the same fields as
/// `client_headers` gives the blocking client.
pub fn async_client_headers(req: &RequestInfo) -> (r: Option<HeaderMap<HeaderValue>>)
    requires
        pairs_valid(req.headers@, true),
    ensures
        r matches Some(m) ==> header_map_fields(m) == fold_fields(req.headers@, true),
        r is None ==> req.headers@.len() > header_map_room(),
{
    build_header_map(&req.headers, true)
}

/// The headers of the client made for `req`: the browser's headers but
/// `Host`, `Content-Length` and `Transfer-Encoding`, inserted in order.
/// `None` when they are too many for one header map.
///
/// Every forwarded header must be a valid header field.
pub fn client_headers(req: &RequestInfo) -> (r: Option<HeaderMap<HeaderValue>>)
    requires
        pairs_valid(req.headers@, true),
    ensures
        r matches Some(m) ==> header_map_fields(m) == fold_fields(req.headers@, true),
        r is None ==> req.headers@.len() > header_map_room(),
{
    build_header_map(&req.headers, true)
}

/// The request for bytes `start..=end` of `req`'s file: the same URL, and the
/// browser's headers with `Range: bytes=<start>-<end>` set.
pub fn chunk_request(req: &RequestInfo, start: u64, end: u64) -> (r: RequestInfo)
    requires
        names_distinct(req.headers@),
    ensures
        r.url@ == req.url@,
        pairs_view(r.headers@) == set_view(req.headers@, "Range"@, range_value(start, end)),
        names_distinct(r.headers@),
{
    let mut headers = copy_pairs(&req.headers);
    let range = range_header(start, end);
    let name_chars = chars_of("Range");
    let name = string_of(name_chars.as_slice());
    let ghost before = headers@;
    let ghost name_g = name;
    let ghost range_g = range;
    set_pair(&mut headers, name, range);
    proof {
        lemma_set_pair_keeps_names_distinct(before, headers@, name_g, range_g);
    }
    RequestInfo { url: req.url.clone(), headers }
}

/// `range`: the key under which a header map files a `Range` field.
pub open spec fn range_key() -> Seq<u8> {
    seq![114u8, 97, 110, 103, 101]
}

/// Proof that the header map of a chunk request asks for exactly that chunk:
/// its `range` field holds `bytes=<start>-<end>` alone, provided the browser's
/// headers (each name at most once) name no other case variant of `Range`.
pub proof fn lemma_chunk_request_asks_for_its_range(
    req_headers: Seq<(String, String)>,
    out_headers: Seq<(String, String)>,
    start: u64,
    end: u64,
)
    requires
        names_distinct(req_headers),
        forall|i: int|
            0 <= i < req_headers.len() && field_key(encode_utf8(#[trigger] req_headers[i].0@))
                == range_key() ==> req_headers[i].0@ == "Range"@,
        pairs_view(out_headers) == set_view(req_headers, "Range"@, range_value(start, end)),
    ensures
        fold_fields(out_headers, true).dom().contains(range_key()),
        fold_fields(out_headers, true)[range_key()] == seq![encode_utf8(range_value(start, end))],
{
    reveal_strlit("Range");
    let name = "Range"@;
    assert(is_ascii_chars(name));
    is_ascii_chars_encode_utf8(name);
    assert(field_key(encode_utf8(name)) =~= range_key());
    assert(forwarded(encode_utf8(name)));
    lemma_name_index_from(req_headers, name, 0);
    let j: int = match name_index(req_headers, name) {
        Some(i) => i,
        None => req_headers.len() as int,
    };
    assert(pairs_view(out_headers).len() == out_headers.len());
    assert(out_headers.len() == if j < req_headers.len() { req_headers.len() } else { req_headers.len() + 1 });
    assert(pairs_view(out_headers)[j] == (name, range_value(start, end)));
    assert(out_headers[j].0@ == name && out_headers[j].1@ == range_value(start, end));
    assert(kept(out_headers, true, j));
    assert forall|k: int|
        j < k < out_headers.len() && kept(out_headers, true, k) implies field_key(
        encode_utf8(out_headers[k].0@),
    ) != range_key() by {
        assert(pairs_view(out_headers)[k] == pairs_view(req_headers)[k]);
        assert(out_headers[k].0@ == req_headers[k].0@);
        if field_key(encode_utf8(out_headers[k].0@)) == range_key() {
            assert(req_headers[k].0@ == name);
        }
    }
    lemma_fold_fields_holds(out_headers, true, range_key());
}

/// How many parallel connections download a file.
pub const CHUNKS: u64 = 4;

/// Seconds a connection waits before it asks for its range a second time.
pub const RETRY_PAUSE_SECS: u64 = 6;

/// Which request for a range a connection is on.
#[derive(Clone, Copy, Debug, PartialEq, Eq)]
pub enum ChunkAttempt {
    First,
    Second,
}

/// What a connection does once the server answered its range request.
#[derive(Clone, Copy, Debug, PartialEq, Eq)]
pub enum ChunkAction {
    /// The answer carries `Content-Range`: write its body at the range's start.
    Write,
    /// No `Content-Range` on the first answer: wait `RETRY_PAUSE_SECS` and
    /// ask again.
    PauseAndRetry,
    /// No `Content-Range` on the second answer: the connection fails.
    Fail,
}

/// The next step of a connection after an answer, with or without a
/// `Content-Range` header.
pub fn next_chunk_action(attempt: ChunkAttempt, has_content_range: bool) -> (r: ChunkAction)
    ensures
        has_content_range ==> r == ChunkAction::Write,
        !has_content_range && attempt == ChunkAttempt::First ==> r == ChunkAction::PauseAndRetry,
        !has_content_range && attempt == ChunkAttempt::Second ==> r == ChunkAction::Fail,
{
    if has_content_range {
        ChunkAction::Write
    } else {
        match attempt {
            ChunkAttempt::First => ChunkAction::PauseAndRetry,
            ChunkAttempt::Second => ChunkAction::Fail,
        }
    }
}

/// The plan of a parallel download: the file's path and the inclusive byte
/// range of each connection.
#[derive(Debug)]
pub struct DownloadPlan {
    pub file_path: String,
    pub size: u64,
    pub ranges: Vec<(u64, u64)>,
}

/// The ranges of the `CHUNKS` connections for a file of `size` bytes, under
/// the equal-parts rule.
pub open spec fn plan_ranges(size: u64) -> Seq<(u64, u64)> {
    Seq::new(
        CHUNKS as nat,
        |i: int|
            (
                even_start(size as int, CHUNKS as int, i) as u64,
                even_end(size as int, CHUNKS as int, i) as u64,
            ),
    )
}

/// The ranges of the connections that download the file `info` describes.
pub open spec fn plan_of(info: ResponseInfo) -> Seq<(u64, u64)> {
    plan_ranges(info.size)
}

/// Plans the download of the file that `info` describes into
/// `download_dir`, named `filename`: `CHUNKS` connections under the
/// equal-parts rule.
///
/// The size must be at least `CHUNKS`.
pub fn plan_download(info: &ResponseInfo, download_dir: &str, filename: &str) -> (r: DownloadPlan)
    requires
        info.size >= CHUNKS,
    ensures
        r.file_path@ == joined(download_dir@, filename@),
        r.size == info.size,
        r.ranges@ == plan_of(*info),
{
    let size = info.size;
    let file_path = join_path(download_dir, filename);
    let mut ranges: Vec<(u64, u64)> = Vec::new();
    let mut i: u64 = 0;
    while i < CHUNKS
        invariant
            i <= CHUNKS,
            size >= CHUNKS,
            ranges@.len() == i,
            forall|k: int| 0 <= k < i ==> #[trigger] ranges@[k] == plan_ranges(size)[k],
        decreases CHUNKS - i,
    {
        let b = even_bounds(size, CHUNKS, i);
        ranges.push(b);
        i = i + 1;
    }
    assert(ranges@ =~= plan_ranges(size));
    DownloadPlan { file_path, size, ranges }
}

/// Proof that the plan that `plan_download` follows does not depend on
/// whether the server announced byte ranges, nor on its protocol version:
/// whatever those are, a file of the same size is fetched in the same ranges,
/// so a server without range support is not told apart.
pub proof fn lemma_plan_ignores_range_support(info: ResponseInfo, ranges: bool, version: HttpVersion)
    ensures
        plan_of(info) == plan_of(ResponseInfo { supports_ranges: ranges, version, ..info }),
{
}

} // verus!
