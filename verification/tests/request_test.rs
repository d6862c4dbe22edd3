use hypergrab::dmserver::{handle_req, parse_req, preflight_response, RequestInfo, ServerStep};
use hypergrab::downloader_async::downloader::make_default_client;
use hypergrab::downloader_mt::dmserver::start_listening;
use hypergrab::downloader_mt::odm::{
    async_client_headers, chunk_request, client_headers, next_chunk_action, plan_download,
    ChunkAction, ChunkAttempt, ResponseInfo,
};
use hypergrab::response::HttpVersion;
use hypergrab::headers::{can_build_header_map, copy_pairs, headers_distinct, set_pair};
use hypergrab::odm::http_client_headers;

fn pairs(p: &[(&str, &str)]) -> Vec<(String, String)> {
    p.iter().map(|(a, b)| (a.to_string(), b.to_string())).collect()
}

#[test]
fn preflight_is_answered() {
    assert!(matches!(handle_req("OPTIONS / HTTP/1.1\r\n\r\n"), ServerStep::Preflight));
    assert!(preflight_response().starts_with("HTTP/1.1 200 OK\r\n"));
    assert!(preflight_response().ends_with("POST\r\n\r\n"));
}

#[test]
fn post_body_is_trimmed_of_padding_and_whitespace() {
    let req = "POST / HTTP/1.1\r\nHost: x\r\n\r\n  {\"url\":\"u\"}\n\0\0\0";
    match handle_req(req) {
        ServerStep::Accept(body) => assert_eq!(body, "{\"url\":\"u\"}"),
        other => panic!("{other:?}"),
    }
    assert_eq!(parse_req("POST /\r\n\r\n\0 {} \0"), "{}");
}

#[test]
fn post_without_blank_line_is_invalid() {
    assert!(matches!(handle_req("POST / HTTP/1.1\r\n"), ServerStep::Invalid));
    assert!(matches!(start_listening("POST"), ServerStep::Invalid));
}

#[test]
fn other_requests_are_ignored() {
    assert!(matches!(handle_req("GET / HTTP/1.1\r\n\r\n"), ServerStep::Ignore));
    assert!(matches!(handle_req(""), ServerStep::Ignore));
    assert!(matches!(start_listening("post / HTTP/1.1\r\n\r\n{}"), ServerStep::Ignore));
}

#[test]
fn forwarded_headers_drop_host_and_length_fields() {
    let req = RequestInfo {
        url: "http://example.com/f".to_string(),
        headers: pairs(&[
            ("Host", "example.com"),
            ("CONTENT-LENGTH", "3"),
            ("transfer-encoding", "chunked"),
            ("Accept", "*/*"),
            ("X-Token", "abc"),
        ]),
    };
    assert!(can_build_header_map(&req.headers, true));
    let m = client_headers(&req).unwrap();
    assert_eq!(m.len(), 2);
    assert_eq!(m.get("accept").unwrap(), "*/*");
    assert_eq!(m.get("x-token").unwrap(), "abc");
    assert!(m.get("host").is_none());
}

#[test]
fn later_header_wins_over_a_case_variant() {
    let m = make_default_client(&pairs(&[("X-A", "1"), ("x-a", "2")])).unwrap();
    assert_eq!(m.len(), 1);
    assert_eq!(m.get("x-a").unwrap(), "2");
}

#[test]
fn invalid_headers_are_reported() {
    assert!(!can_build_header_map(&pairs(&[("bad name", "v")]), false));
    assert!(!can_build_header_map(&pairs(&[("ok", "line\nbreak")]), false));
    assert!(can_build_header_map(&pairs(&[("Host", "bad\nvalue"), ("ok", "v")]), true));
    assert!(!can_build_header_map(&pairs(&[("Host", "bad\nvalue")]), false));
}

#[test]
fn fixed_headers_carry_agent_accept_and_referer() {
    let m = http_client_headers();
    assert_eq!(m.len(), 3);
    assert_eq!(m.get("accept").unwrap(), "*/*");
    assert_eq!(m.get("referer").unwrap(), "https://pixabay.com/");
    assert!(m.get("user-agent").unwrap().to_str().unwrap().starts_with("Mozilla/5.0"));
}

#[test]
fn chunk_request_sets_the_range_header() {
    let req = RequestInfo { url: "u".to_string(), headers: pairs(&[("A", "1")]) };
    let c = chunk_request(&req, 10, 19);
    assert_eq!(c.url, "u");
    assert_eq!(c.headers, pairs(&[("A", "1"), ("Range", "bytes=10-19")]));
    let c2 = chunk_request(&c, 0, 9);
    assert_eq!(c2.headers, pairs(&[("A", "1"), ("Range", "bytes=0-9")]));
}

#[test]
fn set_pair_replaces_or_appends() {
    let mut p = pairs(&[("a", "1"), ("b", "2")]);
    set_pair(&mut p, "b".to_string(), "3".to_string());
    assert_eq!(p, pairs(&[("a", "1"), ("b", "3")]));
    set_pair(&mut p, "B".to_string(), "4".to_string());
    assert_eq!(p, pairs(&[("a", "1"), ("b", "3"), ("B", "4")]));
    assert_eq!(copy_pairs(&p), p);
}

#[test]
fn a_range_is_asked_for_at_most_twice() {
    assert_eq!(next_chunk_action(ChunkAttempt::First, true), ChunkAction::Write);
    assert_eq!(next_chunk_action(ChunkAttempt::First, false), ChunkAction::PauseAndRetry);
    assert_eq!(next_chunk_action(ChunkAttempt::Second, true), ChunkAction::Write);
    assert_eq!(next_chunk_action(ChunkAttempt::Second, false), ChunkAction::Fail);
}

#[test]
fn plan_download_uses_four_equal_parts() {
    let info = ResponseInfo { size: 103, supports_ranges: false, version: HttpVersion::Http11 };
    let p = plan_download(&info, "/dl", "f.bin");
    assert_eq!(p.file_path, "/dl/f.bin");
    assert_eq!(p.size, 103);
    assert_eq!(p.ranges, vec![(0, 24), (25, 49), (50, 74), (75, 102)]);
}

#[test]
fn chunk_request_header_map_asks_for_the_range() {
    let req = RequestInfo {
        url: "u".to_string(),
        headers: pairs(&[("Host", "h"), ("Range", "bytes=0-0"), ("Accept", "*/*")]),
    };
    let m = client_headers(&chunk_request(&req, 100, 199)).unwrap();
    assert_eq!(m.get("range").unwrap(), "bytes=100-199");
    assert!(m.get("host").is_none());
    assert_eq!(m.len(), 2);
}

#[test]
fn plan_ignores_range_support_and_version() {
    let a = ResponseInfo { size: 4096, supports_ranges: true, version: HttpVersion::Http2 };
    let b = ResponseInfo { size: 4096, supports_ranges: false, version: HttpVersion::Http10 };
    assert_eq!(plan_download(&a, "/d", "x").ranges, plan_download(&b, "/d", "x").ranges);
}

#[test]
fn async_client_headers_match_blocking_ones() {
    let req = RequestInfo {
        url: "u".to_string(),
        headers: pairs(&[("Host", "h"), ("Cookie", "c=1"), ("Transfer-Encoding", "x")]),
    };
    let a = client_headers(&req).unwrap();
    let b = async_client_headers(&req).unwrap();
    assert_eq!(a, b);
    assert_eq!(b.len(), 1);
    assert_eq!(b.get("cookie").unwrap(), "c=1");
}

#[test]
fn posted_json_reads_back_through_padding() {
    let mut headers = serde_json::Map::new();
    headers.insert("Cookie".to_string(), serde_json::Value::String("a=1".to_string()));
    let mut obj = serde_json::Map::new();
    obj.insert("url".to_string(), serde_json::Value::String("http://x/f.bin".to_string()));
    obj.insert("headers".to_string(), serde_json::Value::Object(headers));
    let json = serde_json::to_string(&serde_json::Value::Object(obj)).unwrap();
    for n in [0usize, 1, 100] {
        let request = format!("POST / HTTP/1.1\r\nContent-Type: application/json\r\n\r\n{}{}", json, "\0".repeat(n));
        match handle_req(&request) {
            ServerStep::Accept(body) => {
                assert_eq!(body, json);
                let back: serde_json::Value = serde_json::from_str(&body).unwrap();
                assert_eq!(back["url"], "http://x/f.bin");
                assert_eq!(back["headers"]["Cookie"], "a=1");
            }
            other => panic!("{other:?}"),
        }
    }
}

#[test]
fn headers_distinct_spots_a_repeated_name() {
    assert!(headers_distinct(&pairs(&[("a", "1"), ("A", "2"), ("b", "3")])));
    assert!(!headers_distinct(&pairs(&[("a", "1"), ("b", "2"), ("a", "3")])));
    assert!(headers_distinct(&pairs(&[])));
}

#[test]
fn many_headers_still_fit_in_one_map() {
    let many: Vec<(String, String)> = (0..7000).map(|i| (format!("x-h{i}"), "v".to_string())).collect();
    let m = make_default_client(&many).unwrap();
    assert_eq!(m.len(), 7000);
}
