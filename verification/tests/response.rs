use httpreq::request::{Assembly, HttpRequest};
use httpreq::error::HttpError;
use httpreq::response::{
    failure_notice, failure_reply, over_limit_notice, redirect, redirect_as, respond, respond_as,
};

#[test]
fn reply_with_content() {
    let out = respond_as("1.2.3", b"hello", "text/plain", None);
    let want = "HTTP/1.1 200 OK\r\nServer: ltheinrich.de/stratos v1.2.3\r\nContent-Type: text/plain\r\nContent-Length: 7\r\n\r\nhello\r\n";
    assert_eq!(out, want.as_bytes().to_vec());
}

#[test]
fn reply_with_file_name() {
    let out = respond_as("0.1.0", &[0xff, 0x00], "application/octet-stream", Some("a b.bin"));
    let mut want = b"HTTP/1.1 200 OK\r\nServer: ltheinrich.de/stratos v0.1.0\r\nContent-Type: application/octet-stream\r\nContent-Length: 4\r\nContent-Disposition: attachment; filename=\"a b.bin\"\r\n\r\n".to_vec();
    want.extend_from_slice(&[0xff, 0x00, b'\r', b'\n']);
    assert_eq!(out, want);
}

#[test]
fn reply_states_length_plus_two() {
    let content = vec![b'x'; 12345];
    let out = respond_as("", &content, "t", None);
    let text = String::from_utf8(out).unwrap();
    assert!(text.contains("\r\nContent-Length: 12347\r\n\r\n"));
    let empty = String::from_utf8(respond_as("", b"", "t", None)).unwrap();
    assert!(empty.contains("\r\nContent-Length: 2\r\n\r\n"));
}

#[test]
fn reply_with_registered_version() {
    let out = String::from_utf8(respond(b"ok", "text/html", None)).unwrap();
    assert!(out.starts_with("HTTP/1.1 200 OK\r\nServer: ltheinrich.de/stratos v"));
    assert!(out.ends_with("\r\nContent-Type: text/html\r\nContent-Length: 4\r\n\r\nok\r\n"));
}

#[test]
fn redirect_names_the_url_three_times() {
    let out = redirect_as("9", "/next?a=1");
    let want = "HTTP/1.1 303 See Other\r\nServer: ltheinrich.de/stratos v9\r\nLocation: /next?a=1\r\n\r\n<html><head><title>Moved</title></head><body><h1>Moved</h1><p><a href=\"/next?a=1\">/next?a=1</a></p></body></html>\r\n";
    assert_eq!(out, want.as_bytes().to_vec());
}

#[test]
fn redirect_with_registered_version() {
    let out = String::from_utf8(redirect("/x")).unwrap();
    assert!(out.starts_with("HTTP/1.1 303 See Other\r\nServer: ltheinrich.de/stratos v"));
    assert!(out.ends_with("\r\nLocation: /x\r\n\r\n<html><head><title>Moved</title></head><body><h1>Moved</h1><p><a href=\"/x\">/x</a></p></body></html>\r\n"));
}

#[test]
fn non_ascii_text_is_encoded_as_utf8() {
    let out = redirect_as("1", "/\u{e9}");
    assert!(String::from_utf8(out).unwrap().contains("Location: /\u{e9}\r\n"));
}

#[test]
fn over_limit_reply_holds_the_marker() {
    let page = over_limit_notice("<html>", "</html>");
    assert_eq!(
        page,
        "<html><div class=\"alert alert-danger\" role=\"alert\">Maximale Log-Gr\u{f6}\u{df}e \u{fc}berschritten</div></html>"
    );
    let head = "POST / HTTP/1.1\r\nContent-Length: 2000\r\n\r\n";
    match HttpRequest::from(head, Vec::new(), 1000) {
        Assembly::Failed(_) => {
            let reply = String::from_utf8(respond_as("1", page.as_bytes(), "text/html", None)).unwrap();
            assert!(reply.contains("Maximale Log-Gr\u{f6}\u{df}e \u{fc}berschritten"));
        }
        _ => panic!("no failure"),
    }
}

#[test]
fn only_a_body_over_the_limit_is_answered() {
    assert!(failure_notice(HttpError::Parse, "a", "b").is_none());
    assert!(failure_notice(HttpError::Encoding, "a", "b").is_none());
    assert!(failure_reply(HttpError::Parse, "a", "b").is_none());
    assert!(failure_reply(HttpError::Encoding, "a", "b").is_none());
    let page = failure_notice(HttpError::TooLarge, "a", "b").unwrap();
    assert_eq!(page, over_limit_notice("a", "b"));
    let reply = String::from_utf8(failure_reply(HttpError::TooLarge, "a", "b").unwrap()).unwrap();
    assert!(reply.starts_with("HTTP/1.1 200 OK\r\nServer: ltheinrich.de/stratos v"));
    let tail = format!(
        "\r\nContent-Type: text/html\r\nContent-Length: {}\r\n\r\n{}\r\n",
        page.len() + 2,
        page
    );
    assert!(reply.ends_with(&tail));
}
