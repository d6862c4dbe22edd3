use hypergrab::number::parse_decimal_u64;
use hypergrab::paths::{get_filename, join_path};
use hypergrab::ranges::range_header;
use hypergrab::text::{eq_ignore_ascii_case, find, trim, Trimmed};

fn chars(s: &str) -> Vec<char> {
    s.chars().collect()
}

#[test]
fn parse_decimal_u64_follows_from_str() {
    for s in ["0", "42", "+42", "007", "18446744073709551615"] {
        assert_eq!(parse_decimal_u64(&chars(s)), s.parse::<u64>().ok(), "{s}");
    }
    for s in ["", "+", "-1", "12a", " 1", "18446744073709551616", "++1"] {
        assert_eq!(parse_decimal_u64(&chars(s)), None, "{s}");
    }
}

#[test]
fn trim_whitespace_matches_str_trim() {
    for s in ["  a b \t", "\u{a0}x\u{3000}", "", "   ", "\r\nbody\n"] {
        let got: String = trim(&chars(s), Trimmed::Whitespace).into_iter().collect();
        assert_eq!(got, s.trim());
    }
}

#[test]
fn trim_only_matches_trim_matches() {
    for s in ["\"a.zip\"", "\"a.zip\";", "\0\0{}\0", "\"\"\""] {
        let got: String = trim(&chars(s), Trimmed::Only('"')).into_iter().collect();
        assert_eq!(got, s.trim_matches('"'));
    }
}

#[test]
fn find_gives_the_first_occurrence() {
    assert_eq!(find(&chars("abcabc"), &chars("bc")), Some(1));
    assert_eq!(find(&chars("abc"), &chars("x")), None);
    assert_eq!(find(&chars("abc"), &chars("")), Some(0));
}

#[test]
fn eq_ignore_ascii_case_folds_only_ascii() {
    assert!(eq_ignore_ascii_case(&chars("BYTES"), &chars("bytes")));
    assert!(!eq_ignore_ascii_case(&chars("bytes "), &chars("bytes")));
    assert!(!eq_ignore_ascii_case(&chars("Ä"), &chars("ä")));
}

#[test]
fn get_filename_takes_the_last_segment() {
    assert_eq!(get_filename("/a/b/file.zip"), "file.zip");
    assert_eq!(get_filename("/dir/"), "");
    assert_eq!(get_filename("/"), "");
}

#[test]
fn join_path_puts_a_slash_between() {
    assert_eq!(join_path("/home/u/Downloads", "f.bin"), "/home/u/Downloads/f.bin");
}

#[test]
fn decimal_written_in_a_range_reads_back() {
    for n in [0u64, 9, 10, 12345, u64::MAX] {
        let h = range_header(n, 0);
        let digits: Vec<char> = h["bytes=".len()..h.len() - 2].chars().collect();
        assert_eq!(parse_decimal_u64(&digits), Some(n));
    }
}
