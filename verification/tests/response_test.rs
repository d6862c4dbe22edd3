use hypergrab::downloader_async::downloader::{can_get_file_info, get_file_info as async_info};
use hypergrab::downloader_mt::odm::get_resp_info;
use hypergrab::odm::{get_file_info, get_path, FileInfo};
use hypergrab::response::{HeadError, HeadResponse, HttpVersion};

fn head(status: u16, fields: &[(&str, &[u8])]) -> HeadResponse {
    HeadResponse {
        status,
        version: HttpVersion::Http11,
        headers: fields.iter().map(|(n, v)| (n.to_string(), v.to_vec())).collect(),
    }
}

#[test]
fn failure_status_is_an_error() {
    let r = head(404, &[]);
    assert_eq!(get_file_info(&r), Err(HeadError::ServerError(404)));
    assert_eq!(get_resp_info(&r), Err(HeadError::ServerError(404)));
}

#[test]
fn root_reads_the_underscore_fields() {
    let r = head(200, &[("content_length", b" 123 "), ("accept_ranges", b"bytes")]);
    assert_eq!(get_file_info(&r), Ok(FileInfo { size: 123, supports_ranges: true }));
    let r = head(200, &[("content_length", b"123"), ("accept_ranges", b"Bytes")]);
    assert_eq!(get_file_info(&r), Ok(FileInfo { size: 123, supports_ranges: false }));
}

#[test]
fn missing_length_is_zero_and_an_error() {
    let r = head(200, &[("content-length", b"5"), ("accept_ranges", b"bytes")]);
    assert_eq!(get_file_info(&r), Err(HeadError::ZeroContentLength));
    let r = head(204, &[("content-length", b"x5"), ("accept-ranges", b"none")]);
    assert_eq!(get_resp_info(&r), Err(HeadError::ZeroContentLength));
}

#[test]
fn mt_reads_the_standard_fields_in_any_case() {
    let r = HeadResponse {
        status: 206,
        version: HttpVersion::Http2,
        headers: vec![
            ("content-length".to_string(), b"\t4096".to_vec()),
            ("accept-ranges".to_string(), b"BYTES".to_vec()),
            ("content-length".to_string(), b"1".to_vec()),
        ],
    };
    let info = get_resp_info(&r).unwrap();
    assert_eq!(info.size, 4096);
    assert!(info.supports_ranges);
    assert_eq!(info.version, HttpVersion::Http2);
}

#[test]
fn unreadable_length_counts_as_zero() {
    let r = head(200, &[("content-length", b"12\x01"), ("accept-ranges", b"bytes")]);
    assert_eq!(get_resp_info(&r), Err(HeadError::ZeroContentLength));
}

#[test]
fn async_reads_length_ranges_and_name() {
    let r = head(
        200,
        &[
            ("content-length", b"2048"),
            ("accept-ranges", b"Bytes"),
            ("content-disposition", b"attachment; filename=\"report.pdf\""),
        ],
    );
    assert!(can_get_file_info(&r));
    let info = async_info(&r);
    assert_eq!(info.content_length, 2048);
    assert!(info.accept_ranges);
    assert_eq!(info.file_name, "report.pdf");
}

#[test]
fn async_name_trims_quotes_then_semicolons() {
    let r = head(
        200,
        &[("content-length", b"1"), ("content-disposition", b"attachment; filename=\"a.zip\";")],
    );
    let info = async_info(&r);
    assert_eq!(info.file_name, "a.zip\"");
    assert!(!info.accept_ranges);
    let r = head(
        200,
        &[("content-length", b"1"), ("content-disposition", b"filename=x;filename=y")],
    );
    assert_eq!(async_info(&r).file_name, "x");
}

#[test]
fn async_refuses_what_it_cannot_read() {
    assert!(!can_get_file_info(&head(200, &[("content-length", b"1")])));
    assert!(!can_get_file_info(&head(
        200,
        &[("content-length", b" 1"), ("content-disposition", b"filename=a")]
    )));
    assert!(!can_get_file_info(&head(
        200,
        &[("content-length", b"1"), ("content-disposition", b"inline")]
    )));
}

#[test]
fn get_path_prefers_the_download_directory() {
    assert_eq!(get_path("/files/a.iso", Some("/dl"), Some("/cwd")), "/dl/a.iso");
    assert_eq!(get_path("/files/a.iso", None, Some("/cwd")), "/cwd/a.iso");
}
