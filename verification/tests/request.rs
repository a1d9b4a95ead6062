use httpreq::fields::FormFields;
use httpreq::error::HttpError;
use httpreq::request::{Assembly, HttpMethod, HttpRequest, PendingRequest};

fn listed(fields: &FormFields) -> Vec<(String, String)> {
    fields.entries()
}

fn strings(list: &[(&str, &str)]) -> Vec<(String, String)> {
    list.iter().map(|(k, v)| (k.to_string(), v.to_string())).collect()
}

fn done(a: Assembly) -> HttpRequest {
    match a {
        Assembly::Done(req) => req,
        Assembly::Pending(_) => panic!("pending"),
        Assembly::Failed(e) => panic!("failed: {:?}", e),
    }
}

fn pending(a: Assembly) -> PendingRequest {
    match a {
        Assembly::Pending(p) => p,
        Assembly::Done(_) => panic!("done"),
        Assembly::Failed(e) => panic!("failed: {:?}", e),
    }
}

fn failed(a: Assembly) -> HttpError {
    match a {
        Assembly::Failed(e) => e,
        Assembly::Done(_) => panic!("done"),
        Assembly::Pending(_) => panic!("pending"),
    }
}

#[test]
fn request_line_and_header() {
    let req = done(HttpRequest::from(
        "GET /index.html?a=1&b HTTP/1.1\r\nHost:  example.org \r\n\r\n",
        Vec::new(),
        1000,
    ));
    assert_eq!(*req.method(), HttpMethod::GET);
    assert_eq!(req.url(), "/index.html");
    assert_eq!(listed(req.headers()), strings(&[("Host", "example.org")]));
    assert_eq!(listed(req.get()), strings(&[("a", "1"), ("b", "")]));
    assert_eq!(req.body(), "");
}

#[test]
fn no_query_and_no_body() {
    let req = done(HttpRequest::from("GET /plain HTTP/1.1\r\n\r\n", vec![1, 2, 3], 1000));
    assert!(req.get().is_empty());
    assert!(req.headers().is_empty());
    assert_eq!(req.body(), "");
    assert_eq!(req.url(), "/plain");
}

#[test]
fn empty_query_string_has_one_empty_entry() {
    let req = done(HttpRequest::from("GET /p? HTTP/1.1\r\n\r\n", Vec::new(), 0));
    assert_eq!(listed(req.get()), strings(&[("", "")]));
    assert_eq!(req.url(), "/p");
}

#[test]
fn query_is_cut_at_first_question_mark() {
    let req = done(HttpRequest::from("GET /p?a=b?c HTTP/1.1", Vec::new(), 0));
    assert_eq!(req.url(), "/p");
    assert_eq!(listed(req.get()), strings(&[("a", "b?c")]));
}

#[test]
fn method_is_post_only_on_exact_token() {
    for (line, post) in [
        ("POST / HTTP/1.1", true),
        ("post / HTTP/1.1", false),
        ("POSTED / HTTP/1.1", false),
        (" POST / HTTP/1.1", false),
        ("PUT / HTTP/1.1", false),
        ("POST", true),
    ] {
        let req = done(HttpRequest::from(line, Vec::new(), 10));
        let want = if post { HttpMethod::POST } else { HttpMethod::GET };
        assert_eq!(*req.method(), want, "{}", line);
    }
}

#[test]
fn missing_target_defaults_to_root() {
    let req = done(HttpRequest::from("GET\r\n", Vec::new(), 10));
    assert_eq!(req.url(), "/");
    assert!(req.get().is_empty());
}

#[test]
fn blank_request_line_is_get_of_root() {
    let req = done(HttpRequest::from("\r\nHost: a\r\n", Vec::new(), 10));
    assert_eq!(*req.method(), HttpMethod::GET);
    assert_eq!(req.url(), "/");
    assert_eq!(listed(req.headers()), strings(&[("Host", "a")]));
}

#[test]
fn second_space_gives_empty_target() {
    let req = done(HttpRequest::from("GET  /x HTTP/1.1", Vec::new(), 10));
    assert_eq!(req.url(), "");
}

#[test]
fn empty_header_text_fails() {
    assert_eq!(failed(HttpRequest::from("", Vec::new(), 10)), HttpError::Parse);
}

#[test]
fn header_lines_without_colon_are_skipped() {
    let req = done(HttpRequest::from(
        "GET / HTTP/1.1\r\nno colon here\r\nA: 1\r\nB:2:3\r\nA: 4\n : \r\n\r\n",
        Vec::new(),
        10,
    ));
    assert_eq!(
        listed(req.headers()),
        strings(&[("", ""), ("A", "4"), ("B", "2:3")])
    );
}

#[test]
fn bare_carriage_return_stays_in_line() {
    let req = done(HttpRequest::from("GET /a\rb HTTP/1.1\nK: v\r", Vec::new(), 10));
    assert_eq!(req.url(), "/a\rb");
    assert_eq!(listed(req.headers()), strings(&[("K", "v")]));
}

#[test]
fn body_complete_in_leftover() {
    let req = done(HttpRequest::from(
        "POST /f HTTP/1.1\r\nContent-Length: 5\r\n\r\n",
        b"hello".to_vec(),
        100,
    ));
    assert_eq!(*req.method(), HttpMethod::POST);
    assert_eq!(req.body(), "hello");
}

#[test]
fn lower_case_length_header_is_recognised() {
    let req = done(HttpRequest::from(
        "POST /f HTTP/1.1\r\ncontent-length: 2\r\n\r\n",
        b"ok".to_vec(),
        100,
    ));
    assert_eq!(req.body(), "ok");
}

#[test]
fn upper_case_length_header_wins() {
    let a = HttpRequest::from(
        "POST / HTTP/1.1\r\ncontent-length: 2\r\nContent-Length: x\r\n",
        b"ok".to_vec(),
        100,
    );
    assert_eq!(failed(a), HttpError::Parse);
}

#[test]
fn other_casing_of_length_header_means_no_body() {
    let req = done(HttpRequest::from(
        "POST /f HTTP/1.1\r\nCONTENT-LENGTH: 2\r\n\r\n",
        b"ok".to_vec(),
        100,
    ));
    assert_eq!(req.body(), "");
}

#[test]
fn leftover_longer_than_declared_is_kept_whole() {
    let req = done(HttpRequest::from(
        "POST / HTTP/1.1\r\nContent-Length: 2\r\n\r\n",
        b"okay".to_vec(),
        100,
    ));
    assert_eq!(req.body(), "okay");
}

#[test]
fn malformed_length_fails() {
    for value in ["", "abc", "-1", "1 2", "12a", "+", "1.5", "0x10", "\u{663}"] {
        let text = format!("POST / HTTP/1.1\r\nContent-Length: {}\r\n\r\n", value);
        assert_eq!(
            failed(HttpRequest::from(&text, Vec::new(), 100)),
            HttpError::Parse,
            "{:?}",
            value
        );
    }
    let huge = "POST / HTTP/1.1\r\nContent-Length: 99999999999999999999999999\r\n\r\n";
    assert_eq!(failed(HttpRequest::from(huge, Vec::new(), usize::MAX)), HttpError::Parse);
}

#[test]
fn length_with_plus_sign_and_leading_zeros() {
    let req = done(HttpRequest::from(
        "POST / HTTP/1.1\r\nContent-Length: +0003\r\n\r\n",
        b"abc".to_vec(),
        100,
    ));
    assert_eq!(req.body(), "abc");
}

#[test]
fn largest_length_parses() {
    let text = format!("POST / HTTP/1.1\r\nContent-Length: {}\r\n\r\n", usize::MAX);
    let p = pending(HttpRequest::from(&text, Vec::new(), usize::MAX));
    assert_eq!(p.wanted(), usize::MAX);
}

#[test]
fn length_over_limit_is_refused() {
    let a = HttpRequest::from("POST / HTTP/1.1\r\nContent-Length: 11\r\n\r\n", Vec::new(), 10);
    assert_eq!(failed(a), HttpError::TooLarge);
    let b = HttpRequest::from("POST / HTTP/1.1\r\nContent-Length: 10\r\n\r\n", Vec::new(), 10);
    assert_eq!(pending(b).wanted(), 10);
}

#[test]
fn body_in_chunks_is_their_concatenation() {
    let head = "POST / HTTP/1.1\r\nContent-Length: 11\r\n\r\n";
    let mut p = pending(HttpRequest::from(head, b"he".to_vec(), 100));
    assert_eq!(p.wanted(), 11);
    for chunk in [&b"llo"[..], &b" "[..], &b"wor"[..]] {
        p = pending(p.feed(chunk));
    }
    let req = done(p.feed(b"ld"));
    assert_eq!(req.body(), "hello world");
}

#[test]
fn body_in_one_chunk_equals_body_in_many() {
    let head = "POST / HTTP/1.1\r\nContent-Length: 6\r\n\r\n";
    let one = done(pending(HttpRequest::from(head, Vec::new(), 100)).feed(b"abcdef"));
    let mut p = pending(HttpRequest::from(head, Vec::new(), 100));
    p = pending(p.feed(b"ab"));
    p = pending(p.feed(b"cd"));
    let many = done(p.feed(b"ef"));
    assert_eq!(one.body(), many.body());
    assert_eq!(one.body(), "abcdef");
}

#[test]
fn short_body_is_accepted_after_five_reads() {
    let head = "POST / HTTP/1.1\r\nContent-Length: 10\r\n\r\n";
    let mut p = pending(HttpRequest::from(head, b"a".to_vec(), 100));
    for _ in 0..4 {
        p = pending(p.feed(b"b"));
    }
    let req = done(p.feed(b"c"));
    assert_eq!(req.body(), "abbbbc");
}

#[test]
fn empty_reads_use_up_the_budget() {
    let head = "POST / HTTP/1.1\r\nContent-Length: 3\r\n\r\n";
    let mut p = pending(HttpRequest::from(head, Vec::new(), 100));
    for _ in 0..4 {
        p = pending(p.feed(b""));
    }
    let req = done(p.feed(b""));
    assert_eq!(req.body(), "");
}

#[test]
fn budget_grows_with_the_limit() {
    let head = "POST / HTTP/1.1\r\nContent-Length: 100\r\n\r\n";
    let limit = 7 * 1_048_576 + 5;
    let mut p = pending(HttpRequest::from(head, Vec::new(), limit));
    for _ in 0..6 {
        p = pending(p.feed(b"x"));
    }
    let req = done(p.feed(b"y"));
    assert_eq!(req.body(), "xxxxxxy");
}

#[test]
fn invalid_utf8_body_fails() {
    let head = "POST / HTTP/1.1\r\nContent-Length: 2\r\n\r\n";
    let a = HttpRequest::from(head, vec![0xff, 0xfe], 100);
    assert_eq!(failed(a), HttpError::Encoding);
    let p = pending(HttpRequest::from(head, vec![0xc3], 100));
    assert_eq!(failed(p.feed(&[0x28])), HttpError::Encoding);
}

#[test]
fn multi_byte_body_split_across_reads() {
    let head = "POST / HTTP/1.1\r\nContent-Length: 2\r\n\r\n";
    let p = pending(HttpRequest::from(head, vec![0xc3], 100));
    let req = done(p.feed(&[0xa9]));
    assert_eq!(req.body(), "\u{e9}");
}

#[test]
fn post_fields_of_post_request() {
    let body = "--x\r\nContent-Disposition: form-data; name=\"field1\"\r\n\r\nhello";
    let head = format!("POST /u HTTP/1.1\r\nContent-Length: {}\r\n\r\n", body.len());
    let req = done(HttpRequest::from(&head, body.as_bytes().to_vec(), 1000));
    let fields = req.post().unwrap();
    assert_eq!(listed(&fields), strings(&[("field1", "hello")]));
}

#[test]
fn post_fields_of_get_request_are_empty() {
    let req = done(HttpRequest::from(
        "GET /u HTTP/1.1\r\nContent-Length: 7\r\n\r\n",
        b"garbage".to_vec(),
        1000,
    ));
    assert!(req.post().unwrap().is_empty());
}

#[test]
fn post_fields_of_malformed_body_fail() {
    let req = done(HttpRequest::from(
        "POST /u HTTP/1.1\r\nContent-Length: 7\r\n\r\n",
        b"garbage".to_vec(),
        1000,
    ));
    assert!(req.post().is_none());
    let empty = done(HttpRequest::from("POST /u HTTP/1.1\r\n\r\n", Vec::new(), 1000));
    assert!(empty.post().is_none());
}
