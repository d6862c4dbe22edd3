//! The async downloader: the file description from a `HEAD` response and the
//! ranges of its download tasks.
use vstd::prelude::*;
use crate::number::{parse_decimal_u64, parse_u64};
use crate::headers::{build_header_map, fold_fields, header_map_fields, header_map_room, pairs_valid};
use crate::ranges::{
    lemma_spread_partition, range_header, range_value, spread_aborts, spread_bounds, spread_end,
    spread_start,
};
use crate::response::{field_text, read_field, HeadResponse};
use reqwest::header::{HeaderMap, HeaderValue};
use crate::text::{
    chars_of, eq_ignore_ascii_case, eq_ignore_case, find, first_match, lemma_first_match_fits, lemma_match_from, lemma_match_from_is, lemma_strip_none, lemma_strip_wrapped, occurs_at, string_of, strip, sub_chars, trim, Trimmed,
};

verus! {

/// What a `HEAD` request tells about the file to download.
#[derive(Debug)]
pub struct FileInfo {
    /// The announced size in bytes.
    pub content_length: u64,
    /// Whether the server announced byte ranges (`Accept-Ranges: bytes`, in
    /// any case).
    pub accept_ranges: bool,
    /// The file name that `Content-Disposition` gives.
    pub file_name: String,
}

/// The file name in a `Content-Disposition` value: the text after the first
/// `filename=` up to the next `filename=` (or the end), without surrounding
/// `"` and then without surrounding `;`. `None` when there is no `filename=`.
pub open spec fn disposition_filename(t: Seq<char>) -> Option<Seq<char>> {
    match first_match(t, "filename="@) {
        Some(p) => {
            let rest = t.subrange(p + "filename="@.len(), t.len() as int);
            let piece = match first_match(rest, "filename="@) {
                Some(q) => rest.subrange(0, q),
                None => rest,
            };
            Some(strip(strip(piece, Trimmed::Only('"')), Trimmed::Only(';')))
        },
        None => None,
    }
}

/// Proof that a quoted file name comes out whole, spaces and all: for a name
/// without `"`, `;` or `filename=`, the value `attachment; filename="<name>"`
/// gives exactly that name.
pub proof fn lemma_disposition_quoted_name(n: Seq<char>)
    requires
        forall|i: int| 0 <= i < n.len() ==> #[trigger] n[i] != '"' && n[i] != ';',
        first_match(n, "filename="@) is None,
    ensures
        disposition_filename("attachment; filename=\""@ + n + "\""@) == Some(n),
{
    reveal_strlit("attachment; filename=\"");
    reveal_strlit("filename=");
    reveal_strlit("\"");
    let key = "filename="@;
    let pre = "attachment; filename=\""@;
    let t = pre + n + "\""@;
    assert(key.len() == 9 && pre.len() == 22);
    assert(t.subrange(12, 21) =~= key);
    assert forall|k: int| 0 <= k < 12 implies !#[trigger] occurs_at(t, key, k) by {
        if occurs_at(t, key, k) {
            assert(t.subrange(k, k + 9)[0] == key[0]);
            assert(t[k] == pre[k]);
        }
    }
    lemma_match_from_is(t, key, 0, 12);
    let rest = t.subrange(12 + key.len() as int, t.len() as int);
    let wrapped = seq!['"'] + n + seq!['"'];
    assert(rest =~= wrapped);
    lemma_match_from(n, key, 0);
    assert forall|k: int| 0 <= k implies !#[trigger] occurs_at(wrapped, key, k) by {
        if occurs_at(wrapped, key, k) {
            let w = wrapped.subrange(k, k + 9);
            assert(w[0] == key[0]);
            assert(w[8] == key[8]);
            assert(key[0] == 'f' && key[8] == '=');
            if k == 0 {
                assert(w[0] == wrapped[0]);
                assert(wrapped[0] == '"');
            } else if k + 9 <= n.len() + 1 {
                assert(w =~= n.subrange(k - 1, k - 1 + key.len()));
                assert(occurs_at(n, key, k - 1));
            } else {
                assert(k + 9 == n.len() + 2);
                assert(wrapped[n.len() as int + 1] == '"');
                assert(w[8] == wrapped[n.len() as int + 1]);
            }
        }
    }
    lemma_match_from(wrapped, key, 0);
    assert(first_match(rest, key) is None);
    lemma_strip_wrapped(n, '"');
    lemma_strip_none(n, Trimmed::Only(';'));
}

pub fn filename_in_disposition(t: &[char]) -> (r: Option<Vec<char>>)
    ensures
        match r {
            Some(name) => disposition_filename(t@) == Some(name@),
            None => disposition_filename(t@) is None,
        },
{
    let key = chars_of("filename=");
    let p = match find(t, key.as_slice()) {
        Some(p) => p,
        None => return None,
    };
    proof {
        lemma_first_match_fits(t@, key@);
        assert(first_match(t@, key@) == Some(p as int));
        assert(p + key@.len() <= t@.len());
        assert(key@.len() == key.len());
        assert(t@.len() == t.len());
    }
    let rest = sub_chars(t, p + key.len(), t.len());
    let piece = match find(rest.as_slice(), key.as_slice()) {
        Some(q) => {
            proof {
                lemma_first_match_fits(rest@, key@);
            }
            sub_chars(rest.as_slice(), 0, q)
        },
        None => rest,
    };
    let unquoted = trim(piece.as_slice(), Trimmed::Only('"'));
    Some(trim(unquoted.as_slice(), Trimmed::Only(';')))
}

/// Whether a `HEAD` response carries what `get_file_info` reads without
/// failing: a `content-length` field that is a decimal `u64`, and a
/// `content-disposition` field that names a file.
pub open spec fn file_info_readable(resp: HeadResponse) -> bool {
    &&& field_text(resp.headers@, "content-length"@) matches Some(t) && parse_u64(t) is Some
    &&& field_text(resp.headers@, "content-disposition"@) matches Some(t)
        && disposition_filename(t) is Some
}

/// The description `get_file_info` gives of a readable response.
pub open spec fn spec_file_info(resp: HeadResponse) -> (u64, bool, Seq<char>) {
    (
        parse_u64(field_text(resp.headers@, "content-length"@).unwrap()).unwrap(),
        match field_text(resp.headers@, "accept-ranges"@) {
            Some(t) => eq_ignore_case(t, "bytes"@),
            None => false,
        },
        disposition_filename(field_text(resp.headers@, "content-disposition"@).unwrap()).unwrap(),
    )
}

/// Whether `resp` can be read by `get_file_info`.
pub fn can_get_file_info(resp: &HeadResponse) -> (r: bool)
    ensures
        r == file_info_readable(*resp),
{
    let length_ok = match read_field(&resp.headers, "content-length") {
        Some(t) => parse_decimal_u64(t.as_slice()).is_some(),
        None => false,
    };
    let name_ok = match read_field(&resp.headers, "content-disposition") {
        Some(t) => filename_in_disposition(t.as_slice()).is_some(),
        None => false,
    };
    length_ok && name_ok
}

/// Reads a `HEAD` response: the exact `content-length`, whether
/// `accept-ranges` is `bytes` in any case, and the file name that
/// `content-disposition` gives.
pub fn get_file_info(resp: &HeadResponse) -> (r: FileInfo)
    requires
        file_info_readable(*resp),
    ensures
        (r.content_length, r.accept_ranges, r.file_name@) == spec_file_info(*resp),
        Some(r.file_name@) == disposition_filename(
            field_text(resp.headers@, "content-disposition"@).unwrap(),
        ),
        r.accept_ranges <==> (field_text(resp.headers@, "accept-ranges"@) matches Some(t)
            && eq_ignore_case(t, "bytes"@)),
        Some(r.content_length) == parse_u64(field_text(resp.headers@, "content-length"@).unwrap()),
{
    let length_text = read_field(&resp.headers, "content-length").unwrap();
    let content_length = parse_decimal_u64(length_text.as_slice()).unwrap();
    let bytes = chars_of("bytes");
    let accept_ranges = match read_field(&resp.headers, "accept-ranges") {
        Some(t) => eq_ignore_ascii_case(t.as_slice(), bytes.as_slice()),
        None => false,
    };
    let disposition = read_field(&resp.headers, "content-disposition").unwrap();
    let name = filename_in_disposition(disposition.as_slice()).unwrap();
    FileInfo { content_length, accept_ranges, file_name: string_of(name.as_slice()) }
}

/// The headers of a client that sends all the given headers, inserted in
/// order (this builds the header map only; the client itself is built around
/// it). `None` when they are too many for one header map. Every pair must be
/// a valid header field.
pub fn make_default_client(header_hashmap: &Vec<(String, String)>) -> (r: Option<HeaderMap<HeaderValue>>)
    requires
        pairs_valid(header_hashmap@, false),
    ensures
        r matches Some(m) ==> header_map_fields(m) == fold_fields(header_hashmap@, false),
        r is None ==> header_hashmap@.len() > header_map_room(),
{
    build_header_map(header_hashmap, false)
}

/// What the task of one segment does before it asks for its bytes.
#[derive(Debug)]
pub struct ChunkTask {
    /// Where in the file the segment starts.
    pub start: u64,
    /// Its last byte.
    pub end: u64,
    /// The `Range` header value it sends.
    pub range: String,
}

/// Whether the task of segment `i` fails before it sends its request: its
/// range cannot be computed in `u64`, or the range is reversed (its length
/// `end - start + 1` cannot be computed).
pub open spec fn task_fails(len: int, chunks: int, i: int) -> bool {
    spread_aborts(len, chunks, i) || spread_end(len, chunks, i) < spread_start(len, chunks, i)
}

/// The task of segment `i` of `chunks` over `content_length` bytes, or `None`
/// when it fails before sending its request.
pub fn chunk_task(content_length: u64, chunks: u64, i: u64) -> (r: Option<ChunkTask>)
    requires
        i < chunks,
    ensures
        r is None <==> task_fails(content_length as int, chunks as int, i as int),
        r matches Some(t) ==> {
            &&& t.start == spread_start(content_length as int, chunks as int, i as int)
            &&& t.end == spread_end(content_length as int, chunks as int, i as int)
            &&& t.range@ == range_value(t.start, t.end)
        },
{
    match spread_bounds(content_length, chunks, i) {
        Some((start, end)) => {
            if end < start {
                return None;
            }
            Some(ChunkTask { start, end, range: range_header(start, end) })
        },
        None => None,
    }
}

/// The tasks of a download of `content_length` bytes in `chunks` segments
/// under the spreading rule, in order.
pub fn download_tasks(content_length: u64, chunks: u64) -> (r: Vec<Option<ChunkTask>>)
    ensures
        r@.len() == chunks,
        forall|i: int|
            0 <= i < chunks ==> (#[trigger] r@[i] is None <==> task_fails(
                content_length as int,
                chunks as int,
                i,
            )),
        forall|i: int|
            0 <= i < chunks ==> (#[trigger] r@[i] matches Some(t) ==> t.start == spread_start(
                content_length as int,
                chunks as int,
                i,
            ) && t.end == spread_end(content_length as int, chunks as int, i) && t.range@ == range_value(t.start, t.end)),
{
    let mut tasks: Vec<Option<ChunkTask>> = Vec::new();
    let mut i: u64 = 0;
    while i < chunks
        invariant
            i <= chunks,
            tasks@.len() == i,
            forall|k: int|
                0 <= k < i ==> (#[trigger] tasks@[k] is None <==> task_fails(
                    content_length as int,
                    chunks as int,
                    k,
                )),
            forall|k: int|
                0 <= k < i ==> (#[trigger] tasks@[k] matches Some(t) ==> t.start == spread_start(
                    content_length as int,
                    chunks as int,
                    k,
                ) && t.end == spread_end(content_length as int, chunks as int, k) && t.range@ == range_value(t.start, t.end)),
        decreases chunks - i,
    {
        tasks.push(chunk_task(content_length, chunks, i));
        i = i + 1;
    }
    tasks
}

/// Proof that when `chunks <= content_length` and `(chunks - 1) *
/// content_length` fits in `u64`, every task sends its request.
pub proof fn lemma_tasks_all_run(content_length: int, chunks: int)
    requires
        1 <= chunks <= content_length,
        (chunks - 1) * content_length <= u64::MAX,
    ensures
        forall|i: int| 0 <= i < chunks ==> !#[trigger] task_fails(content_length, chunks, i),
{
    lemma_spread_partition(content_length, chunks);
    assert forall|i: int| 0 <= i < chunks implies !#[trigger] task_fails(content_length, chunks, i) by {
        assert(!spread_aborts(content_length, chunks, i));
        assert(content_length / chunks <= spread_end(content_length, chunks, i) - spread_start(
            content_length,
            chunks,
            i,
        ) + 1);
        vstd::arithmetic::div_mod::lemma_div_is_ordered(chunks, content_length, chunks);
        vstd::arithmetic::div_mod::lemma_div_by_self(chunks);
    }
}

} // verus!
