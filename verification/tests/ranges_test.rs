use hypergrab::downloader_async::downloader::{chunk_task, download_tasks};
use hypergrab::ranges::{even_bounds, range_header, spread_bounds};

#[test]
fn even_bounds_gives_the_remainder_to_the_last_part() {
    let got: Vec<(u64, u64)> = (0..4).map(|i| even_bounds(10, 4, i)).collect();
    assert_eq!(got, vec![(0, 1), (2, 3), (4, 5), (6, 9)]);
}

#[test]
fn even_bounds_cover_the_file_without_gaps() {
    let size = 1_000_003u64;
    let chunks = 7u64;
    let mut next = 0u64;
    for i in 0..chunks {
        let (start, end) = even_bounds(size, chunks, i);
        assert_eq!(start, next);
        assert!(start <= end);
        next = end + 1;
    }
    assert_eq!(next, size);
}

#[test]
fn even_bounds_with_size_equal_to_chunks() {
    let got: Vec<(u64, u64)> = (0..4).map(|i| even_bounds(4, 4, i)).collect();
    assert_eq!(got, vec![(0, 0), (1, 1), (2, 2), (3, 3)]);
}

#[test]
fn spread_bounds_spreads_the_remainder() {
    let got: Vec<Option<(u64, u64)>> = (0..4).map(|i| spread_bounds(10, 4, i)).collect();
    assert_eq!(got, vec![Some((0, 1)), Some((2, 4)), Some((5, 6)), Some((7, 9))]);
}

#[test]
fn spread_bounds_sizes_differ_by_at_most_one() {
    let len = 1_000_003u64;
    let chunks = 7u64;
    let mut next = 0u64;
    for i in 0..chunks {
        let (start, end) = spread_bounds(len, chunks, i).unwrap();
        assert_eq!(start, next);
        let size = end - start + 1;
        assert!(size == len / chunks || size == len / chunks + 1);
        next = end + 1;
    }
    assert_eq!(next, len);
}

#[test]
fn spread_bounds_gives_up_when_a_segment_would_be_empty() {
    assert_eq!(spread_bounds(2, 4, 0), None);
    assert_eq!(spread_bounds(2, 4, 1), Some((0, 0)));
    assert_eq!(spread_bounds(0, 1, 0), None);
}

#[test]
fn spread_bounds_gives_up_on_overflow() {
    assert_eq!(spread_bounds(u64::MAX, 3, 2), None);
    assert_eq!(spread_bounds(u64::MAX, 3, 1), None);
    assert_eq!(spread_bounds(u64::MAX, 2, 1), Some((u64::MAX / 2, u64::MAX - 1)));
}

#[test]
fn range_header_writes_both_ends_in_decimal() {
    assert_eq!(range_header(0, 1023), "bytes=0-1023");
    assert_eq!(range_header(1024, 18446744073709551615), "bytes=1024-18446744073709551615");
    assert_eq!(range_header(7, 7), "bytes=7-7");
}

#[test]
fn chunk_task_carries_bounds_and_range() {
    let t = chunk_task(10, 4, 1).unwrap();
    assert_eq!((t.start, t.end), (2, 4));
    assert_eq!(t.range, "bytes=2-4");
}

#[test]
fn chunk_task_fails_on_a_reversed_range() {
    // 2 bytes in 4 tasks: task 2 would start at 1 and end at 0.
    assert!(chunk_task(2, 4, 2).is_none());
    assert!(chunk_task(2, 4, 0).is_none());
    let t = chunk_task(2, 4, 3).unwrap();
    assert_eq!((t.start, t.end), (1, 1));
}

#[test]
fn download_tasks_all_run_on_a_large_file() {
    let tasks = download_tasks(100, 4);
    assert_eq!(tasks.len(), 4);
    let ranges: Vec<String> = tasks.iter().map(|t| t.as_ref().unwrap().range.clone()).collect();
    assert_eq!(ranges, vec!["bytes=0-24", "bytes=25-49", "bytes=50-74", "bytes=75-99"]);
}

#[test]
fn download_tasks_of_no_chunks_is_empty() {
    assert!(download_tasks(100, 0).is_empty());
}
