use httpreq::error::HttpError;
use httpreq::scan::{read_header, HeaderScanResult, HeaderScanner, ScanStep, HEADER_LIMIT, READ_CHUNK};

fn more(step: ScanStep) -> HeaderScanner {
    match step {
        ScanStep::More(s) => s,
        ScanStep::Done(_) => panic!("done"),
        ScanStep::Failed(e) => panic!("failed: {:?}", e),
    }
}

fn found(step: ScanStep) -> HeaderScanResult {
    match step {
        ScanStep::Done(r) => r,
        ScanStep::More(_) => panic!("more"),
        ScanStep::Failed(e) => panic!("failed: {:?}", e),
    }
}

fn reads(list: &[&[u8]]) -> Vec<Vec<u8>> {
    list.iter().map(|c| c.to_vec()).collect()
}

#[test]
fn terminator_in_one_read() {
    let r = found(HeaderScanner::new().feed(b"GET / HTTP/1.1\r\nHost: a\r\n\r\nbody"));
    assert_eq!(r.header_text, "GET / HTTP/1.1\r\nHost: a\r\n\r\n");
    assert_eq!(r.leftover_body_bytes, b"body".to_vec());
}

#[test]
fn first_terminator_is_the_cut() {
    let r = found(HeaderScanner::new().feed(b"A\r\n\r\nB\r\n\r\nC"));
    assert_eq!(r.header_text, "A\r\n\r\n");
    assert_eq!(r.leftover_body_bytes, b"B\r\n\r\nC".to_vec());
}

#[test]
fn terminator_split_across_two_reads() {
    for k in 1..4 {
        let block = b"GET / HTTP/1.1\r\nHost: a\r\n\r\n";
        let cut = block.len() - 4 + k;
        let mut second = block[cut..].to_vec();
        second.extend_from_slice(b"rest");
        let s = more(HeaderScanner::new().feed(&block[..cut]));
        assert_eq!(s.wanted(), 4 - k);
        let r = found(s.feed(&second));
        assert_eq!(r.header_text.as_bytes(), &block[..]);
        assert_eq!(r.leftover_body_bytes, b"rest".to_vec());
    }
}

#[test]
fn terminator_split_across_four_reads() {
    let r = found(read_header(&reads(&[b"GET /\r", b"\n", b"\r", b"\nxy", b"never read"])));
    assert_eq!(r.header_text, "GET /\r\n\r\n");
    assert_eq!(r.leftover_body_bytes, b"xy".to_vec());
}

#[test]
fn lone_carriage_return_at_end_of_read_is_no_terminator() {
    let s = more(HeaderScanner::new().feed(b"GET / HTTP/1.1\r"));
    assert_eq!(s.wanted(), 3);
    let s = more(s.feed(b"abc"));
    assert_eq!(s.wanted(), READ_CHUNK);
    let r = found(s.feed(b"\r\n\r\n"));
    assert_eq!(r.header_text, "GET / HTTP/1.1\rabc\r\n\r\n");
    assert!(r.leftover_body_bytes.is_empty());
}

#[test]
fn wanted_is_a_chunk_where_no_window_is_cut() {
    assert_eq!(HeaderScanner::new().wanted(), 8192);
    assert_eq!(more(HeaderScanner::new().feed(b"GET")).wanted(), 8192);
    assert_eq!(more(HeaderScanner::new().feed(b"GET\r\n")).wanted(), 2);
    assert_eq!(more(HeaderScanner::new().feed(b"GET\r\n\r")).wanted(), 1);
    assert_eq!(more(HeaderScanner::new().feed(b"GET\n\r")).wanted(), 3);
}

#[test]
fn empty_read_changes_nothing() {
    let s = more(HeaderScanner::new().feed(b"abc\r\n"));
    let s = more(s.feed(b""));
    let r = found(s.feed(b"\r\n"));
    assert_eq!(r.header_text, "abc\r\n\r\n");
}

#[test]
fn no_reads_at_all_wait_for_more() {
    let s = more(read_header(&Vec::new()));
    assert_eq!(s.wanted(), READ_CHUNK);
}

#[test]
fn block_at_the_limit_is_handed_on_whole() {
    let first = vec![b'a'; 8192];
    let s = more(HeaderScanner::new().feed(&first));
    let s = more(s.feed(&vec![b'b'; 8191]));
    let r = found(s.feed(b"c"));
    assert_eq!(r.header_text.len(), HEADER_LIMIT);
    assert!(r.header_text.ends_with("bc"));
    assert!(r.leftover_body_bytes.is_empty());
}

#[test]
fn terminator_wins_over_the_limit() {
    let mut big = vec![b'a'; 20000];
    big.extend_from_slice(b"\r\n\r\nbody");
    let r = found(HeaderScanner::new().feed(&big));
    assert_eq!(r.header_text.len(), 20004);
    assert_eq!(r.leftover_body_bytes, b"body".to_vec());
}

#[test]
fn header_that_is_not_utf8_fails() {
    match HeaderScanner::new().feed(b"GET /\xff\r\n\r\nbody") {
        ScanStep::Failed(e) => assert_eq!(e, HttpError::Encoding),
        _ => panic!("no failure"),
    }
}

#[test]
fn invalid_bytes_behind_the_cut_do_not_matter() {
    let r = found(HeaderScanner::new().feed(b"GET /\r\n\r\n\xff\xfe"));
    assert_eq!(r.header_text, "GET /\r\n\r\n");
    assert_eq!(r.leftover_body_bytes, vec![0xff, 0xfe]);
}
