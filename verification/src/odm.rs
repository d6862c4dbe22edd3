//! The first downloader: a file description from a `HEAD` response, and where
//! a download is saved.
use vstd::prelude::*;
use crate::response::{
    field_text, is_success, lenient_length, read_field, read_lenient_length, HeadError,
    HeadResponse,
};
use crate::headers::{
    field_key, header_map_fields, new_header_map, no_fields, try_insert_header, valid_header_name,
    valid_header_value,
};
use crate::paths::{get_filename, has_segments, join_path, joined, last_segment};
use crate::text::{chars_of, same_chars};
use reqwest::header::{HeaderMap, HeaderValue};
use vstd::utf8::{encode_utf8, is_ascii_chars, is_ascii_chars_encode_utf8};

verus! {

/// What a `HEAD` request tells about the file to download.
#[derive(Clone, Copy, Debug, PartialEq, Eq)]
pub struct FileInfo {
    /// The announced size in bytes (never 0).
    pub size: u64,
    /// Whether the server announced byte ranges (`Accept-Ranges: bytes`).
    pub supports_ranges: bool,
}

/// Reads a `HEAD` response: a failure status is an error, the length comes
/// from the `CONTENT_LENGTH` field (0 when missing or malformed, and then an
/// error), and ranges are supported when the `ACCEPT_RANGES` field is exactly
/// `bytes`.
///
/// A success response must carry a readable `ACCEPT_RANGES` field.
pub fn get_file_info(resp: &HeadResponse) -> (r: Result<FileInfo, HeadError>)
    requires
        is_success(resp.status) ==> field_text(resp.headers@, "ACCEPT_RANGES"@) is Some,
    ensures
        !is_success(resp.status) ==> r == Err::<FileInfo, HeadError>(
            HeadError::ServerError(resp.status),
        ),
        is_success(resp.status) ==> ({
            let size = lenient_length(field_text(resp.headers@, "CONTENT_LENGTH"@));
            let ranges = field_text(resp.headers@, "ACCEPT_RANGES"@).unwrap() == "bytes"@;
            if size == 0 {
                r == Err::<FileInfo, HeadError>(HeadError::ZeroContentLength)
            } else {
                r == Ok::<FileInfo, HeadError>(FileInfo { size, supports_ranges: ranges })
            }
        }),
{
    if !(200 <= resp.status && resp.status < 300) {
        return Err(HeadError::ServerError(resp.status));
    }
    let size = read_lenient_length(&resp.headers, "CONTENT_LENGTH");
    let ranges_text = read_field(&resp.headers, "ACCEPT_RANGES").unwrap();
    let bytes = chars_of("bytes");
    let supports_ranges = same_chars(ranges_text.as_slice(), bytes.as_slice());
    if size == 0 {
        return Err(HeadError::ZeroContentLength);
    }
    Ok(FileInfo { size, supports_ranges })
}

/// The header field `name: value` of the fixed request headers.
pub open spec fn fixed_field(
    fields: Map<Seq<u8>, Seq<Seq<u8>>>,
    name: Seq<char>,
    value: Seq<char>,
) -> Map<Seq<u8>, Seq<Seq<u8>>> {
    fields.insert(field_key(encode_utf8(name)), seq![encode_utf8(value)])
}

/// The headers every request of this downloader carries: a browser
/// `User-Agent`, `Accept: */*` and a `Referer`.
pub open spec fn fixed_headers() -> Map<Seq<u8>, Seq<Seq<u8>>> {
    fixed_field(
        fixed_field(
            fixed_field(
                no_fields(),
                "user-agent"@,
                "Mozilla/5.0 (Windows NT 10.0; Win64; x64) AppleWebKit/537.36 (KHTML, like Gecko) Chrome/125.0.0.0 Safari/537.36"@,
            ),
            "accept"@,
            "*/*"@,
        ),
        "referer"@,
        "https://pixabay.com/"@,
    )
}

proof fn lemma_ascii_field(name: Seq<char>, value: Seq<char>)
    requires
        1 <= name.len() <= 65535,
        forall|i: int| 0 <= i < name.len() ==> ('a' <= #[trigger] name[i] <= 'z' || name[i] == '-'),
        forall|i: int| 0 <= i < value.len() ==> (' ' <= #[trigger] value[i] <= '~'),
    ensures
        valid_header_name(encode_utf8(name)),
        valid_header_value(encode_utf8(value)),
{
    assert(is_ascii_chars(name));
    assert(is_ascii_chars(value));
    is_ascii_chars_encode_utf8(name);
    is_ascii_chars_encode_utf8(value);
    assert forall|i: int| 0 <= i < encode_utf8(name).len() implies crate::headers::is_tchar(
        #[trigger] encode_utf8(name)[i],
    ) by {
        assert(name[i] as u8 == encode_utf8(name)[i]);
    }
    assert forall|i: int| 0 <= i < encode_utf8(value).len() implies ((32 <= #[trigger] encode_utf8(
        value,
    )[i] && encode_utf8(value)[i] != 127) || encode_utf8(value)[i] == 9) by {
        assert(value[i] as u8 == encode_utf8(value)[i]);
    }
}

/// The headers of the client that this downloader downloads with.
pub fn http_client_headers() -> (m: HeaderMap<HeaderValue>)
    ensures
        header_map_fields(m) == fixed_headers(),
{
    let mut m = new_header_map();
    proof {
        reveal_strlit("user-agent");
        reveal_strlit(
            "Mozilla/5.0 (Windows NT 10.0; Win64; x64) AppleWebKit/537.36 (KHTML, like Gecko) Chrome/125.0.0.0 Safari/537.36",
        );
        reveal_strlit("accept");
        reveal_strlit("*/*");
        reveal_strlit("referer");
        reveal_strlit("https://pixabay.com/");
        lemma_ascii_field(
            "user-agent"@,
            "Mozilla/5.0 (Windows NT 10.0; Win64; x64) AppleWebKit/537.36 (KHTML, like Gecko) Chrome/125.0.0.0 Safari/537.36"@,
        );
        lemma_ascii_field("accept"@, "*/*"@);
        lemma_ascii_field("referer"@, "https://pixabay.com/"@);
    }
    let _ = try_insert_header(
        &mut m,
        "user-agent",
        "Mozilla/5.0 (Windows NT 10.0; Win64; x64) AppleWebKit/537.36 (KHTML, like Gecko) Chrome/125.0.0.0 Safari/537.36",
    );
    let _ = try_insert_header(&mut m, "accept", "*/*");
    let _ = try_insert_header(&mut m, "referer", "https://pixabay.com/");
    m
}

/// The headers of the `HEAD` request that `get_file_info` reads:
/// `User-Agent: Mozilla/5.0` and `Accept: */*`.
pub open spec fn head_headers() -> Map<Seq<u8>, Seq<Seq<u8>>> {
    fixed_field(fixed_field(no_fields(), "user-agent"@, "Mozilla/5.0"@), "accept"@, "*/*"@)
}

/// The header map of the `HEAD` request whose answer `get_file_info` reads.
pub fn head_request_headers() -> (m: HeaderMap<HeaderValue>)
    ensures
        header_map_fields(m) == head_headers(),
{
    let mut m = new_header_map();
    proof {
        reveal_strlit("user-agent");
        reveal_strlit("Mozilla/5.0");
        reveal_strlit("accept");
        reveal_strlit("*/*");
        lemma_ascii_field("user-agent"@, "Mozilla/5.0"@);
        lemma_ascii_field("accept"@, "*/*"@);
    }
    let _ = try_insert_header(&mut m, "user-agent", "Mozilla/5.0");
    let _ = try_insert_header(&mut m, "accept", "*/*");
    m
}

/// Where the file of a URL is saved: its name (the last segment of the URL's
/// path, which must have segments) in the download directory, or in the
/// current directory when there is no download directory.
pub fn get_path(url_path: &str, download_dir: Option<&str>, current_dir: Option<&str>) -> (r: String)
    requires
        has_segments(url_path@),
        download_dir is Some || current_dir is Some,
    ensures
        r@ == joined(
            match download_dir {
                Some(d) => d@,
                None => current_dir.unwrap()@,
            },
            last_segment(url_path@),
        ),
{
    let filename = get_filename(url_path);
    match download_dir {
        Some(d) => join_path(d, filename.as_str()),
        None => join_path(current_dir.unwrap(), filename.as_str()),
    }
}

} // verus!
