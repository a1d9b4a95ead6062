//! The bytes of the replies: a 200 reply that carries content, a 303
//! redirect, and the notice for a body over the limit. Writing them to the
//! connection is left to the caller.

use crate::error::HttpError;
use crate::number::{decimal_digits, digits_of};
use crate::text::string_of;
use vstd::prelude::*;
use vstd::string::*;
use vstd::utf8::encode_utf8;

verus! {

/// `kern::meta::version` hands out the version text that the program has
/// registered with `kern::meta::init_version`, the empty text before that.
/// It reads a value that the program sets, so nothing is claimed of it.
#[verifier::external_body]
fn server_version() -> (version: String) {
    kern::meta::version().to_string()
}

/// The text of an optional string.
pub open spec fn text_of(s: Option<&str>) -> Option<Seq<char>> {
    match s {
        Some(t) => Some(t@),
        None => None,
    }
}

/// The header that offers the content for download under a file name;
/// empty where no file name is given.
pub open spec fn disposition(filename: Option<Seq<char>>) -> Seq<char> {
    match filename {
        Some(f) => "\r\nContent-Disposition: attachment; filename=\""@ + f + "\""@,
        None => Seq::empty(),
    }
}

/// The status line and the headers of a 200 reply. The length it states
/// is that of the content and of the line break that follows the content.
pub open spec fn response_head(
    version: Seq<char>,
    content_type: Seq<char>,
    content_len: nat,
    filename: Option<Seq<char>>,
) -> Seq<char> {
    "HTTP/1.1 200 OK\r\nServer: ltheinrich.de/stratos v"@ + version + "\r\nContent-Type: "@
        + content_type + "\r\nContent-Length: "@ + decimal_digits(content_len + 2) + disposition(
        filename,
    ) + "\r\n\r\n"@
}

/// The bytes of a 200 reply: the head, the content, and a line break.
pub open spec fn response(
    version: Seq<char>,
    content_type: Seq<char>,
    content: Seq<u8>,
    filename: Option<Seq<char>>,
) -> Seq<u8> {
    encode_utf8(response_head(version, content_type, content.len(), filename)) + content
        + seq![13u8, 10u8]
}

/// The text of a 303 reply that sends the client on to `url`.
pub open spec fn redirection(version: Seq<char>, url: Seq<char>) -> Seq<char> {
    "HTTP/1.1 303 See Other\r\nServer: ltheinrich.de/stratos v"@ + version + "\r\nLocation: "@
        + url
        + "\r\n\r\n<html><head><title>Moved</title></head><body><h1>Moved</h1><p><a href=\""@
        + url + "\">"@ + url + "</a></p></body></html>\r\n"@
}

/// The text that tells the client that the body it announced is over
/// the limit.
pub open spec fn over_limit_marker() -> Seq<char> {
    "<div class=\"alert alert-danger\" role=\"alert\">Maximale Log-Gr\u{f6}\u{df}e \u{fc}berschritten</div>"@
}

/// The bytes of a 200 reply for a server of the given version.
pub fn respond_as(version: &str, content: &[u8], content_type: &str, filename: Option<&str>) -> (out:
    Vec<u8>)
    ensures
        out@ == response(version@, content_type@, content@, text_of(filename)),
{
    let total: u128 = content.len() as u128 + 2;
    let digits = digits_of(total);
    let length = string_of(digits.as_slice(), 0, digits.len());
    proof {
        assert(digits@.subrange(0, digits@.len() as int) =~= digits@);
    }
    let mut head = String::from_str("HTTP/1.1 200 OK\r\nServer: ltheinrich.de/stratos v");
    head.append(version);
    head.append("\r\nContent-Type: ");
    head.append(content_type);
    head.append("\r\nContent-Length: ");
    head.append(length.as_str());
    match filename {
        Some(f) => {
            let ghost before = head@;
            head.append("\r\nContent-Disposition: attachment; filename=\"");
            head.append(f);
            head.append("\"");
            proof {
                assert(head@ =~= before + disposition(text_of(filename)));
            }
        },
        None => {
            proof {
                assert(head@ =~= head@ + disposition(text_of(filename)));
            }
        },
    }
    head.append("\r\n\r\n");
    let mut out: Vec<u8> = Vec::new();
    out.extend_from_slice(head.as_str().as_bytes());
    let ghost first = out@;
    proof {
        assert(first =~= encode_utf8(head@));
    }
    out.extend_from_slice(content);
    let ghost second = out@;
    proof {
        assert(second =~= first + content@);
    }
    out.push(13);
    out.push(10);
    proof {
        assert(out@ =~= second + seq![13u8, 10u8]);
    }
    out
}

/// The bytes of a 200 reply. The version in the `Server` header is the one
/// that the program has registered.
pub fn respond(content: &[u8], content_type: &str, filename: Option<&str>) -> (out: Vec<u8>)
    ensures
        exists|version: Seq<char>|
            out@ == response(version, content_type@, content@, text_of(filename)),
{
    let version = server_version();
    let out = respond_as(version.as_str(), content, content_type, filename);
    proof {
        assert(out@ == response(version@, content_type@, content@, text_of(filename)));
    }
    out
}

/// The bytes of a 303 reply for a server of the given version.
pub fn redirect_as(version: &str, url: &str) -> (out: Vec<u8>)
    ensures
        out@ == encode_utf8(redirection(version@, url@)),
{
    let mut text = String::from_str("HTTP/1.1 303 See Other\r\nServer: ltheinrich.de/stratos v");
    text.append(version);
    text.append("\r\nLocation: ");
    text.append(url);
    text.append(
        "\r\n\r\n<html><head><title>Moved</title></head><body><h1>Moved</h1><p><a href=\"",
    );
    text.append(url);
    text.append("\">");
    text.append(url);
    text.append("</a></p></body></html>\r\n");
    let mut out: Vec<u8> = Vec::new();
    out.extend_from_slice(text.as_str().as_bytes());
    proof {
        assert(out@ =~= encode_utf8(text@));
    }
    out
}

/// The bytes of a 303 reply. The version in the `Server` header is the one
/// that the program has registered.
pub fn redirect(url: &str) -> (out: Vec<u8>)
    ensures
        exists|version: Seq<char>| out@ == encode_utf8(redirection(version, url@)),
{
    let version = server_version();
    let out = redirect_as(version.as_str(), url);
    proof {
        assert(out@ == encode_utf8(redirection(version@, url@)));
    }
    out
}

/// The page that tells the client that the body it announced is over the
/// limit: the marker, between what the caller's pages begin and end with.
pub fn over_limit_notice(before: &str, after: &str) -> (out: String)
    ensures
        out@ == before@ + over_limit_marker() + after@,
{
    let mut out = String::from_str(before);
    out.append(
        "<div class=\"alert alert-danger\" role=\"alert\">Maximale Log-Gr\u{f6}\u{df}e \u{fc}berschritten</div>",
    );
    out.append(after);
    out
}

/// The page that is owed to the client after a failure: the notice after a
/// body over the limit, and nothing after any other failure.
pub fn failure_notice(error: HttpError, before: &str, after: &str) -> (out: Option<String>)
    ensures
        match out {
            Some(page) => error == HttpError::TooLarge && page@ == before@ + over_limit_marker()
                + after@,
            None => error != HttpError::TooLarge,
        },
{
    match error {
        HttpError::TooLarge => Some(over_limit_notice(before, after)),
        _ => None,
    }
}

/// The reply that is owed to the client after a failure: a 200 reply of
/// type `text/html` that carries the notice after a body over the limit,
/// and nothing after any other failure.
pub fn failure_reply(error: HttpError, before: &str, after: &str) -> (out: Option<Vec<u8>>)
    ensures
        match out {
            Some(bytes) => error == HttpError::TooLarge && exists|version: Seq<char>|
                bytes@ == response(
                    version,
                    "text/html"@,
                    encode_utf8(before@ + over_limit_marker() + after@),
                    None,
                ),
            None => error != HttpError::TooLarge,
        },
{
    match failure_notice(error, before, after) {
        Some(page) => {
            let content_type: &str = "text/html";
            let none: Option<&str> = None;
            let bytes = respond(page.as_str().as_bytes(), content_type, none);
            proof {
                assert(text_of(none) == None::<Seq<char>>);
            }
            Some(bytes)
        },
        None => None,
    }
}

} // verus!
