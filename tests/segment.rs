use httpclient::download::CONCURRENCY;
use httpclient::error::{DownloadFailure, Error};
use httpclient::request::Request;
use httpclient::schedule::Transfer;
use httpclient::segment::{needs_segments, place, segments, Segment, SEGMENT_SIZE};
use httpclient::url::ParsedUrl;

fn reference(len: usize) -> Vec<u8> {
    (0..len).map(|i| (i % 256) as u8).collect()
}

fn assemble(len: usize, reversed: bool) -> Vec<u8> {
    let src = reference(len);
    if !needs_segments(len) {
        return src.clone();
    }
    let mut segs = segments(len);
    if reversed {
        segs.reverse();
    }
    let mut file = Vec::new();
    for s in segs {
        place(&mut file, s.start, &src[s.start..=s.end]);
    }
    file
}

#[test]
fn segments_of_the_sample_resource() {
    let segs = segments(1_700_000);
    assert_eq!(
        segs,
        vec![
            Segment { start: 0, end: 499_999 },
            Segment { start: 500_000, end: 999_999 },
            Segment { start: 1_000_000, end: 1_499_999 },
            Segment { start: 1_500_000, end: 1_699_999 },
        ]
    );
    let url = ParsedUrl::from("a.org/f.bin").unwrap();
    let first = Request::new().set_range(segs[0].start..segs[0].end).encode(&url);
    assert!(String::from_utf8(first).unwrap().contains("Range: bytes=0-499999\r\n"));
    let last = Request::new().set_range(segs[3].start..segs[3].end).encode(&url);
    assert!(String::from_utf8(last).unwrap().contains("Range: bytes=1500000-1699999\r\n"));
}

#[test]
fn small_resource_is_one_request() {
    assert!(!needs_segments(300_000));
    assert!(!needs_segments(0));
    assert!(!needs_segments(SEGMENT_SIZE));
    assert!(needs_segments(SEGMENT_SIZE + 1));
    let url = ParsedUrl::from("a.org/f.bin").unwrap();
    let get = String::from_utf8(Request::new().encode(&url)).unwrap();
    assert!(get.starts_with("GET /f.bin HTTP/1.1\r\n"));
    assert!(!get.contains("Range:"));
}

#[test]
fn segments_cover_without_gaps() {
    for len in [1, SEGMENT_SIZE - 1, SEGMENT_SIZE, SEGMENT_SIZE + 1, 5 * SEGMENT_SIZE + 7] {
        let segs = segments(len);
        assert_eq!(segs[0].start, 0);
        assert_eq!(segs.last().unwrap().end, len - 1);
        for w in segs.windows(2) {
            assert_eq!(w[1].start, w[0].end + 1);
        }
        assert!(segs.iter().all(|s| s.start <= s.end && s.end - s.start < SEGMENT_SIZE));
    }
    assert!(segments(0).is_empty());
    assert_eq!(segments(5 * SEGMENT_SIZE + 7).len(), 6);
}

#[test]
fn assembly_matches_the_reference() {
    for len in [0, 1, SEGMENT_SIZE - 1, SEGMENT_SIZE, SEGMENT_SIZE + 1, 5 * SEGMENT_SIZE + 7] {
        assert_eq!(assemble(len, false), reference(len), "length {}", len);
    }
}

#[test]
fn assembly_ignores_arrival_order() {
    for len in [SEGMENT_SIZE + 1, 5 * SEGMENT_SIZE + 7] {
        assert_eq!(assemble(len, true), reference(len), "length {}", len);
    }
}

#[test]
fn place_fills_gaps_with_zeros() {
    let mut file = vec![1u8, 2];
    place(&mut file, 4, &[9, 9]);
    assert_eq!(file, vec![1, 2, 0, 0, 9, 9]);
    place(&mut file, 1, &[7]);
    assert_eq!(file, vec![1, 7, 0, 0, 9, 9]);
}

#[test]
fn never_more_than_concurrency_in_flight() {
    let mut t = Transfer::new(5 * SEGMENT_SIZE + 7);
    assert_eq!(t.segment_count(), 6);
    let mut started = Vec::new();
    while let Some((i, s)) = t.next_segment() {
        assert!(t.in_flight() <= CONCURRENCY);
        started.push((i, s));
    }
    assert_eq!(started.len(), CONCURRENCY);
    assert_eq!(t.in_flight(), CONCURRENCY);
    assert_eq!(t.complete(2, 206).unwrap(), Some(2 * SEGMENT_SIZE));
    assert_eq!(t.in_flight(), CONCURRENCY - 1);
    let (i, s) = t.next_segment().unwrap();
    assert_eq!((i, s.start, s.end), (5, 5 * SEGMENT_SIZE, 5 * SEGMENT_SIZE + 6));
    assert!(t.next_segment().is_none());
}

#[test]
fn rejected_segment_is_retried_once() {
    let mut t = Transfer::new(SEGMENT_SIZE + 1);
    let (a, _) = t.next_segment().unwrap();
    let (b, _) = t.next_segment().unwrap();
    assert_eq!(t.complete(a, 200).unwrap(), None);
    assert!(!t.is_running(a));
    let (again, _) = t.next_segment().unwrap();
    assert_eq!(again, a);
    assert!(matches!(
        t.complete(a, 500),
        Err(Error::DownloadError(DownloadFailure::SegmentRejected(500)))
    ));
    assert_eq!(t.complete(b, 206).unwrap(), Some(SEGMENT_SIZE));
    assert!(!t.is_complete());
}

#[test]
fn transfer_completes_when_every_segment_is_written() {
    let mut t = Transfer::new(2 * SEGMENT_SIZE);
    let mut offsets = Vec::new();
    while let Some((i, _)) = t.next_segment() {
        offsets.push(t.complete(i, 206).unwrap().unwrap());
    }
    assert_eq!(offsets, vec![0, SEGMENT_SIZE]);
    assert!(t.is_complete());
}
