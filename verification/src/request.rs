//! The request: its line, its headers, its query and its body.
//!
//! Reading from a connection is left to the caller. `HttpRequest::from`
//! takes the header text and the bytes that were read past it, and either
//! ends, with a request or a failure, or hands back a `PendingRequest` that
//! says how many bytes to ask the connection for. Each chunk that arrives
//! goes to `PendingRequest::feed`, until that ends too.

use crate::error::HttpError;
use crate::fields::FormFields;
use crate::multipart::{parse_upload, upload_fields};
use crate::number::{parse_length, usable_length};
use crate::query::{parse_query, query_fields};
use crate::scan::{chunk_views, joined};
use crate::split::{
    lemma_line_at, lemma_piece_at, lines, lines_from, pieces, split, split_lines, texts,
    without_cr,
};
use crate::text::{
    chars_of, copy_range, find, first_occurrence, lemma_first_char, lemma_first_occurrence,
    lemma_no_char, same_text, string_of, trim, trimmed,
};
use vstd::prelude::*;
use vstd::utf8::{decode_utf8, valid_utf8};

verus! {

/// The time that one read of the body may take, in milliseconds.
pub const READ_TIMEOUT_MS: u64 = 2000;

/// The request method. Every method but `POST` counts as `GET`.
#[derive(Clone, Copy, Debug, PartialEq, Eq, Structural)]
pub enum HttpMethod {
    GET,
    POST,
}

/// What a request holds.
pub struct RequestView {
    pub method: HttpMethod,
    pub url: Seq<char>,
    pub headers: Map<Seq<char>, Seq<char>>,
    pub query: Map<Seq<char>, Seq<char>>,
    pub body: Seq<char>,
}

/// A request.
pub struct HttpRequest {
    method: HttpMethod,
    url: String,
    headers: FormFields,
    get: FormFields,
    body: String,
}

/// A request whose body has not arrived in full.
pub struct PendingRequest {
    head: HttpRequest,
    declared: usize,
    received: Vec<u8>,
    tries: usize,
    budget: usize,
}

/// How far the assembly of a request has come.
pub enum Assembly {
    Done(HttpRequest),
    Pending(PendingRequest),
    Failed(HttpError),
}

/// The text `POST`.
pub open spec fn post_token() -> Seq<char> {
    seq!['P', 'O', 'S', 'T']
}

/// The method that a request line names: its first token, the tokens being
/// set apart by single spaces.
pub open spec fn line_method(line: Seq<char>) -> HttpMethod {
    if pieces(line, seq![' '])[0] == post_token() {
        HttpMethod::POST
    } else {
        HttpMethod::GET
    }
}

/// The second token of a request line, if it has one.
pub open spec fn line_target(line: Seq<char>) -> Option<Seq<char>> {
    let tokens = pieces(line, seq![' ']);
    if tokens.len() >= 2 {
        Some(tokens[1])
    } else {
        None
    }
}

/// The path of a target: what stands before its first `?`. Without a
/// target the path is `/`.
pub open spec fn target_path(target: Option<Seq<char>>) -> Seq<char> {
    match target {
        None => seq!['/'],
        Some(t) => match first_occurrence(t, seq!['?'], 0) {
            Some(i) => t.subrange(0, i),
            None => t,
        },
    }
}

/// The query string of a target: what follows its first `?`, if it has one.
pub open spec fn target_query(target: Option<Seq<char>>) -> Option<Seq<char>> {
    match target {
        None => None,
        Some(t) => match first_occurrence(t, seq!['?'], 0) {
            Some(i) => Some(t.subrange(i + 1, t.len() as int)),
            None => None,
        },
    }
}

/// The mapping that a query string stands for; empty where there is none.
pub open spec fn query_of(query: Option<Seq<char>>) -> Map<Seq<char>, Seq<char>> {
    match query {
        Some(q) => query_fields(q),
        None => Map::empty(),
    }
}

/// The headers that the lines `lines[1..n]` give. A line is cut at its first
/// colon into key and value, both trimmed; a line without a colon gives
/// nothing; a later line replaces an earlier one with the same key.
pub open spec fn header_fields(lines: Seq<Seq<char>>, n: int) -> Map<Seq<char>, Seq<char>>
    decreases n,
{
    if n <= 1 {
        Map::empty()
    } else {
        let rest = header_fields(lines, n - 1);
        let line = lines[n - 1];
        match first_occurrence(line, seq![':'], 0) {
            Some(i) => rest.insert(
                trimmed(line.subrange(0, i)),
                trimmed(line.subrange(i + 1, line.len() as int)),
            ),
            None => rest,
        }
    }
}

/// What the header text gives, the body left empty; `None` where the text
/// has no line at all.
pub open spec fn head_view(raw: Seq<char>) -> Option<RequestView> {
    let ls = lines(raw);
    if ls.len() == 0 {
        None
    } else {
        Some(
            RequestView {
                method: line_method(ls[0]),
                url: target_path(line_target(ls[0])),
                headers: header_fields(ls, ls.len() as int),
                query: query_of(target_query(line_target(ls[0]))),
                body: Seq::empty(),
            },
        )
    }
}

/// Whether `c` stands nowhere in `s`.
pub open spec fn free_of(s: Seq<char>, c: char) -> bool {
    forall|i: int| 0 <= i < s.len() ==> s[i] != c
}

/// The header text of a request with one header: the request line, made of
/// method, path, query and version, then the header's name and value with a
/// colon between them, each line ended by CR LF, and an empty line.
pub open spec fn head_text(
    method: Seq<char>,
    path: Seq<char>,
    query: Seq<char>,
    version: Seq<char>,
    name: Seq<char>,
    value: Seq<char>,
) -> Seq<char> {
    method + seq![' '] + path + seq!['?'] + query + seq![' '] + version + seq!['\r', '\n'] + name
        + seq![':'] + value + seq!['\r', '\n', '\r', '\n']
}

/// A header text put together from its tokens is read back as those
/// tokens: the method, the path, the fields of the query, and the one
/// header, its name and value trimmed. The tokens of the request line must
/// hold no space and no line feed, the path no question mark, the name no
/// colon, and neither the name nor the value nor the version a line feed.
pub proof fn lemma_head_of_tokens(
    method: Seq<char>,
    path: Seq<char>,
    query: Seq<char>,
    version: Seq<char>,
    name: Seq<char>,
    value: Seq<char>,
)
    requires
        free_of(method, ' ') && free_of(method, '\n'),
        free_of(path, ' ') && free_of(path, '\n') && free_of(path, '?'),
        free_of(query, ' ') && free_of(query, '\n'),
        free_of(version, '\n'),
        free_of(name, ':') && free_of(name, '\n'),
        free_of(value, '\n'),
    ensures
        head_view(head_text(method, path, query, version, name, value)) == Some(
            RequestView {
                method: if method == post_token() {
                    HttpMethod::POST
                } else {
                    HttpMethod::GET
                },
                url: path,
                headers: Map::<Seq<char>, Seq<char>>::empty().insert(
                    trimmed(name),
                    trimmed(value),
                ),
                query: query_fields(query),
                body: Seq::empty(),
            },
        ),
{
    let target = path + seq!['?'] + query;
    let first = method + seq![' '] + target + seq![' '] + version;
    let second = name + seq![':'] + value;
    let text = head_text(method, path, query, version, name, value);
    let a = first.len() as int;
    let b = second.len() as int;
    assert(text =~= first + seq!['\r', '\n'] + second + seq!['\r', '\n', '\r', '\n']);
    // the three lines
    assert(lines(text) == seq![first, second, Seq::<char>::empty()]) by {
        assert(text.len() == a + b + 6);
        assert forall|j: int| 0 <= j < a + 1 implies text[j] != '\n' by {
            if j < a {
                assert(text[j] == first[j]);
            }
        }
        lemma_line_at(text, 0, a + 1);
        assert(text.subrange(0, a + 1) =~= first.push('\r'));
        assert(without_cr(first.push('\r')) =~= first);
        assert forall|j: int| a + 2 <= j < a + b + 3 implies text[j] != '\n' by {
            if j < a + b + 2 {
                assert(text[j] == second[j - a - 2]);
            }
        }
        lemma_line_at(text, a + 2, a + b + 3);
        assert(text.subrange(a + 2, a + b + 3) =~= second.push('\r'));
        assert(without_cr(second.push('\r')) =~= second);
        lemma_line_at(text, a + b + 4, a + b + 5);
        assert(text.subrange(a + b + 4, a + b + 5) =~= Seq::<char>::empty().push('\r'));
        assert(without_cr(Seq::<char>::empty().push('\r')) =~= Seq::<char>::empty());
        assert(lines_from(text, a + b + 6) =~= Seq::<Seq<char>>::empty());
        assert(seq![first] + (seq![second] + (seq![Seq::<char>::empty()] + Seq::<
            Seq<char>,
        >::empty())) =~= seq![first, second, Seq::<char>::empty()]);
    }
    // the tokens of the request line
    let m = method.len() as int;
    let t = target.len() as int;
    assert(pieces(first, seq![' '])[0] == method && pieces(first, seq![' ']).len() >= 2 && pieces(
        first,
        seq![' '],
    )[1] == target) by {
        assert forall|j: int| 0 <= j < m implies first[j] != ' ' by {
            assert(first[j] == method[j]);
        }
        lemma_piece_at(first, ' ', 0, m);
        assert(first.subrange(0, m) =~= method);
        assert forall|j: int| m + 1 <= j < m + 1 + t implies first[j] != ' ' by {
            assert(first[j] == target[j - m - 1]);
            if j - m - 1 < path.len() {
                assert(target[j - m - 1] == path[j - m - 1]);
            } else if j - m - 1 > path.len() {
                assert(target[j - m - 1] == query[j - m - 2 - path.len()]);
            }
        }
        lemma_piece_at(first, ' ', m + 1, m + 1 + t);
        assert(first.subrange(m + 1, m + 1 + t) =~= target);
    }
    // the path and the query
    let p = path.len() as int;
    assert(first_occurrence(target, seq!['?'], 0) == Some(p)) by {
        assert forall|j: int| 0 <= j < p implies target[j] != '?' by {
            assert(target[j] == path[j]);
        }
        lemma_first_char(target, '?', 0, p);
    }
    assert(target.subrange(0, p) =~= path);
    assert(target.subrange(p + 1, target.len() as int) =~= query);
    // the headers
    let ls = seq![first, second, Seq::<char>::empty()];
    let n = name.len() as int;
    assert(first_occurrence(second, seq![':'], 0) == Some(n)) by {
        assert forall|j: int| 0 <= j < n implies second[j] != ':' by {
            assert(second[j] == name[j]);
        }
        lemma_first_char(second, ':', 0, n);
    }
    assert(second.subrange(0, n) =~= name);
    assert(second.subrange(n + 1, second.len() as int) =~= value);
    lemma_no_char(Seq::<char>::empty(), ':', 0);
    assert(header_fields(ls, 1) == Map::<Seq<char>, Seq<char>>::empty());
    assert(header_fields(ls, 2) == Map::<Seq<char>, Seq<char>>::empty().insert(
        trimmed(name),
        trimmed(value),
    ));
    assert(header_fields(ls, 3) == header_fields(ls, 2));
}

/// The two spellings under which the body's length is looked for.
pub open spec fn length_key() -> Seq<char> {
    seq!['C', 'o', 'n', 't', 'e', 'n', 't', '-', 'L', 'e', 'n', 'g', 't', 'h']
}

pub open spec fn length_key_lower() -> Seq<char> {
    seq!['c', 'o', 'n', 't', 'e', 'n', 't', '-', 'l', 'e', 'n', 'g', 't', 'h']
}

/// The header value that states the body's length: that under
/// `Content-Length`, else that under `content-length`, else none.
pub open spec fn length_header(headers: Map<Seq<char>, Seq<char>>) -> Option<Seq<char>> {
    if headers.contains_key(length_key()) {
        Some(headers[length_key()])
    } else if headers.contains_key(length_key_lower()) {
        Some(headers[length_key_lower()])
    } else {
        None
    }
}

/// The number of reads that may be spent on a body: one for each full
/// 1,048,576 bytes of the limit, and no fewer than five.
pub open spec fn retry_budget(max_content: usize) -> nat {
    if max_content / 1048576 > 5 {
        (max_content / 1048576) as nat
    } else {
        5
    }
}

/// Whether another read is due: the body is short of its stated length and
/// reads are left.
pub open spec fn wants_more(have: nat, declared: nat, tries: nat, budget: nat) -> bool {
    have < declared && tries < budget
}

/// The request that `head` and the body's bytes give.
pub open spec fn with_body(head: RequestView, bytes: Seq<u8>) -> RequestView {
    RequestView {
        method: head.method,
        url: head.url,
        headers: head.headers,
        query: head.query,
        body: decode_utf8(bytes),
    }
}

/// What the assembly ends with once no further read is due.
pub open spec fn ends_with(head: RequestView, bytes: Seq<u8>, r: Assembly) -> bool {
    if valid_utf8(bytes) {
        r matches Assembly::Done(req) && req.wf() && req@ == with_body(head, bytes)
    } else {
        r == Assembly::Failed(HttpError::Encoding)
    }
}

/// How the assembly goes on with `bytes` of the body at hand after `tries`
/// reads: on to a further read, or to its end.
pub open spec fn goes_on(
    head: RequestView,
    declared: usize,
    bytes: Seq<u8>,
    tries: nat,
    budget: nat,
    r: Assembly,
) -> bool {
    if wants_more(bytes.len(), declared as nat, tries, budget) {
        r matches Assembly::Pending(p) && p.wf() && p.head() == head && p.declared() == declared
            && p.received() == bytes && p.tries() == tries && p.budget() == budget
    } else {
        ends_with(head, bytes, r)
    }
}

/// The bytes of the body and the number of reads made once the reads
/// `chunks` have come in, one after the other, for as long as a read was
/// due.
pub open spec fn after_reads(
    received: Seq<u8>,
    declared: nat,
    tries: nat,
    budget: nat,
    chunks: Seq<Seq<u8>>,
) -> (Seq<u8>, nat)
    decreases chunks.len(),
{
    if chunks.len() == 0 || !wants_more(received.len(), declared, tries, budget) {
        (received, tries)
    } else {
        after_reads(received + chunks[0], declared, tries + 1, budget, chunks.drop_first())
    }
}

/// Where the reads bring what the body lacks, no more and no less, in no
/// more reads than are left, the body is what had arrived followed by the
/// chunks in their order, however they were cut.
pub proof fn lemma_whole_body(
    received: Seq<u8>,
    declared: nat,
    tries: nat,
    budget: nat,
    chunks: Seq<Seq<u8>>,
)
    requires
        received.len() + joined(chunks).len() == declared,
        tries + chunks.len() <= budget,
    ensures
        after_reads(received, declared, tries, budget, chunks).0 == received + joined(chunks),
        after_reads(received, declared, tries, budget, chunks).0.len() == declared,
    decreases chunks.len(),
{
    if chunks.len() == 0 {
        assert(received + joined(chunks) =~= received);
    } else if !wants_more(received.len(), declared, tries, budget) {
        assert(joined(chunks).len() == 0);
        assert(received + joined(chunks) =~= received);
    } else {
        lemma_whole_body(received + chunks[0], declared, tries + 1, budget, chunks.drop_first());
        assert((received + chunks[0]) + joined(chunks.drop_first()) =~= received + joined(chunks));
    }
}

/// Two ways of cutting the same bytes into reads give the same body.
pub proof fn lemma_body_whatever_the_reads(
    received: Seq<u8>,
    declared: nat,
    tries: nat,
    budget: nat,
    one: Seq<Seq<u8>>,
    other: Seq<Seq<u8>>,
)
    requires
        joined(one) == joined(other),
        received.len() + joined(one).len() == declared,
        tries + one.len() <= budget,
        tries + other.len() <= budget,
    ensures
        after_reads(received, declared, tries, budget, one).0 == after_reads(
            received,
            declared,
            tries,
            budget,
            other,
        ).0,
{
    lemma_whole_body(received, declared, tries, budget, one);
    lemma_whole_body(received, declared, tries, budget, other);
}

/// What `HttpRequest::from` gives for a header text, the bytes read past
/// it, and the limit on the body's length.
pub open spec fn starts_with(
    raw_header: Seq<char>,
    raw_body: Seq<u8>,
    max_content: usize,
    r: Assembly,
) -> bool {
    match head_view(raw_header) {
        None => r == Assembly::Failed(HttpError::Parse),
        Some(head) => match length_header(head.headers) {
            None => r matches Assembly::Done(req) && req.wf() && req@ == head,
            Some(text) => match usable_length(text) {
                None => r == Assembly::Failed(HttpError::Parse),
                Some(declared) => if declared > max_content {
                    r == Assembly::Failed(HttpError::TooLarge)
                } else {
                    goes_on(head, declared, raw_body, 0, retry_budget(max_content), r)
                },
            },
        },
    }
}

/// A stated length over the limit gives no request, and no read: the
/// assembly fails at once as too large.
pub proof fn lemma_over_limit(
    raw_header: Seq<char>,
    raw_body: Seq<u8>,
    max_content: usize,
    r: Assembly,
)
    requires
        starts_with(raw_header, raw_body, max_content, r),
        head_view(raw_header) is Some,
        length_header(head_view(raw_header).unwrap().headers) is Some,
        usable_length(length_header(head_view(raw_header).unwrap().headers).unwrap()) is Some,
        usable_length(length_header(head_view(raw_header).unwrap().headers).unwrap()).unwrap()
            > max_content,
    ensures
        r == Assembly::Failed(HttpError::TooLarge),
{
}

/// A request line without a query string and headers without a length
/// give a request with no query fields and an empty body, whatever bytes
/// were read along with the header.
pub proof fn lemma_bare_request(
    raw_header: Seq<char>,
    raw_body: Seq<u8>,
    max_content: usize,
    r: Assembly,
)
    requires
        starts_with(raw_header, raw_body, max_content, r),
        head_view(raw_header) is Some,
        target_query(line_target(lines(raw_header)[0])) is None,
        length_header(head_view(raw_header).unwrap().headers) is None,
    ensures
        r matches Assembly::Done(req) && req@.query == Map::<Seq<char>, Seq<char>>::empty()
            && req@.body == Seq::<char>::empty(),
{
}

impl View for HttpRequest {
    type V = RequestView;

    closed spec fn view(&self) -> RequestView {
        RequestView {
            method: self.method,
            url: self.url@,
            headers: self.headers@,
            query: self.get@,
            body: self.body@,
        }
    }
}

impl PendingRequest {
    /// What the header text gave.
    pub closed spec fn head(&self) -> RequestView {
        self.head@
    }

    /// The length that the request states for its body.
    pub closed spec fn declared(&self) -> usize {
        self.declared
    }

    /// The bytes of the body that have arrived.
    pub closed spec fn received(&self) -> Seq<u8> {
        self.received@
    }

    /// The number of reads made so far.
    pub closed spec fn tries(&self) -> nat {
        self.tries as nat
    }

    /// The number of reads that may be made in all.
    pub closed spec fn budget(&self) -> nat {
        self.budget as nat
    }

    /// A pending request is one for which another read is due.
    pub closed spec fn wf(&self) -> bool {
        &&& self.head.wf()
        &&& self.head@.body == Seq::<char>::empty()
        &&& wants_more(
            self.received@.len(),
            self.declared as nat,
            self.tries as nat,
            self.budget as nat,
        )
    }

    /// A pending request is short of its body and has reads left.
    pub proof fn lemma_pending(&self)
        requires
            self.wf(),
        ensures
            wants_more(self.received().len(), self.declared() as nat, self.tries(), self.budget()),
            self.head().body == Seq::<char>::empty(),
    {
    }

    /// The number of bytes to ask the connection for: the stated length.
    pub fn wanted(&self) -> (n: usize)
        ensures
            n == self.declared(),
    {
        self.declared
    }

    /// Takes the bytes of one read, which may be fewer than were asked for,
    /// and goes on to a further read or to the end.
    pub fn feed(self, chunk: &[u8]) -> (r: Assembly)
        requires
            self.wf(),
        ensures
            goes_on(
                self.head(),
                self.declared(),
                self.received() + chunk@,
                self.tries() + 1,
                self.budget(),
                r,
            ),
    {
        let PendingRequest { head, declared, received, tries, budget } = self;
        let mut received = received;
        let ghost before = received@;
        received.extend_from_slice(chunk);
        proof {
            assert(received@ =~= before + chunk@);
        }
        go_on(head, declared, received, tries + 1, budget)
    }

    /// Takes the bytes of several reads in turn, for as long as a read is
    /// due.
    pub fn feed_all(self, chunks: &Vec<Vec<u8>>) -> (r: Assembly)
        requires
            self.wf(),
        ensures
            ({
                let end = after_reads(
                    self.received(),
                    self.declared() as nat,
                    self.tries(),
                    self.budget(),
                    chunk_views(chunks@),
                );
                goes_on(self.head(), self.declared(), end.0, end.1, self.budget(), r)
            }),
    {
        let ghost head = self.head();
        let ghost declared = self.declared();
        let ghost budget = self.budget();
        let ghost all = chunk_views(chunks@);
        let ghost end = after_reads(self.received(), declared as nat, self.tries(), budget, all);
        let mut pending = self;
        let mut i: usize = 0;
        proof {
            assert(all.skip(0) =~= all);
        }
        loop
            invariant
                i <= chunks@.len(),
                all == chunk_views(chunks@),
                head == self.head(),
                declared == self.declared(),
                budget == self.budget(),
                end == after_reads(self.received(), declared as nat, self.tries(), budget, all),
                pending.wf(),
                pending.head() == head,
                pending.declared() == declared,
                pending.budget() == budget,
                end == after_reads(
                    pending.received(),
                    declared as nat,
                    pending.tries(),
                    budget,
                    all.skip(i as int),
                ),
            decreases chunks@.len() - i,
        {
            proof {
                pending.lemma_pending();
            }
            if i >= chunks.len() {
                return Assembly::Pending(pending);
            }
            let ghost before = pending;
            proof {
                assert(all.skip(i as int)[0] == chunks@[i as int]@);
                assert(all.skip(i as int).drop_first() =~= all.skip(i + 1));
            }
            match pending.feed(chunks[i].as_slice()) {
                Assembly::Pending(p) => {
                    pending = p;
                    i += 1;
                },
                other => {
                    proof {
                        let body = before.received() + chunks@[i as int]@;
                        let tries = before.tries() + 1;
                        assert(end == after_reads(
                            body,
                            declared as nat,
                            tries,
                            budget,
                            all.skip(i + 1),
                        ));
                        assert(!wants_more(body.len(), declared as nat, tries, budget));
                    }
                    return other;
                },
            }
        }
    }
}

/// On to a further read, or to the end.
fn go_on(head: HttpRequest, declared: usize, received: Vec<u8>, tries: usize, budget: usize) -> (r:
    Assembly)
    requires
        head.wf(),
        head@.body == Seq::<char>::empty(),
    ensures
        goes_on(head@, declared, received@, tries as nat, budget as nat, r),
{
    if received.len() < declared && tries < budget {
        Assembly::Pending(PendingRequest { head, declared, received, tries, budget })
    } else {
        match String::from_utf8(received) {
            Ok(body) => {
                let HttpRequest { method, url, headers, get, body: _ } = head;
                Assembly::Done(HttpRequest { method, url, headers, get, body })
            },
            Err(_) => Assembly::Failed(HttpError::Encoding),
        }
    }
}

/// The number of reads that may be spent on a body.
pub fn budget_for(max_content: usize) -> (n: usize)
    ensures
        n == retry_budget(max_content),
{
    let scaled: usize = max_content / 1048576;
    if scaled > 5 {
        scaled
    } else {
        5
    }
}

/// The headers that the lines after the first give.
fn read_headers(ls: &Vec<Vec<char>>) -> (out: FormFields)
    ensures
        out.wf(),
        out@ == header_fields(texts(ls@), ls@.len() as int),
{
    let colon: Vec<char> = vec![':'];
    proof {
        assert(colon@ =~= seq![':']);
    }
    let mut out = FormFields::new();
    if ls.len() < 2 {
        return out;
    }
    let mut n: usize = 1;
    while n < ls.len()
        invariant
            1 <= n <= ls@.len(),
            colon@ == seq![':'],
            out.wf(),
            out@ == header_fields(texts(ls@), n as int),
        decreases ls@.len() - n,
    {
        let line = &ls[n];
        proof {
            assert(texts(ls@)[n as int] == line@);
            lemma_first_occurrence(line@, colon@, 0);
        }
        match find(line, &colon, 0) {
            Some(i) => {
                let end: usize = line.len();
                assert(i + 1 <= end) by {
                    assert(colon@.len() == 1);
                }
                let key = trim(&copy_range(line, 0, i));
                let value = trim(&copy_range(line, i + 1, end));
                out.insert(key, value);
            },
            None => {},
        }
        n += 1;
    }
    out
}

/// What the header text gives, the body left empty.
fn read_head(raw: &Vec<char>) -> (r: Option<HttpRequest>)
    ensures
        match r {
            Some(req) => req.wf() && head_view(raw@) == Some(req@),
            None => head_view(raw@) is None,
        },
{
    let ls = split_lines(raw);
    if ls.len() == 0 {
        return None;
    }
    let space: Vec<char> = vec![' '];
    let mark: Vec<char> = vec!['?'];
    let post: Vec<char> = vec!['P', 'O', 'S', 'T'];
    proof {
        assert(space@ =~= seq![' ']);
        assert(mark@ =~= seq!['?']);
        assert(post@ =~= post_token());
        assert(texts(ls@)[0] == ls@[0]@);
    }
    let tokens = split(&ls[0], &space);
    proof {
        assert(texts(tokens@)[0] == tokens@[0]@);
    }
    let method = if same_text(&tokens[0], &post) {
        HttpMethod::POST
    } else {
        HttpMethod::GET
    };
    let url: String;
    let get: FormFields;
    if tokens.len() >= 2 {
        let target = &tokens[1];
        proof {
            assert(texts(tokens@)[1] == target@);
            lemma_first_occurrence(target@, mark@, 0);
        }
        match find(target, &mark, 0) {
            Some(i) => {
                let end: usize = target.len();
                assert(i + 1 <= end) by {
                    assert(mark@.len() == 1);
                }
                url = string_of(target.as_slice(), 0, i);
                get = parse_query(&copy_range(target, i + 1, end));
            },
            None => {
                url = string_of(target.as_slice(), 0, target.len());
                get = FormFields::new();
                proof {
                    assert(target@.subrange(0, target@.len() as int) =~= target@);
                }
            },
        }
    } else {
        let root: Vec<char> = vec!['/'];
        url = string_of(root.as_slice(), 0, 1);
        get = FormFields::new();
        proof {
            assert(root@ =~= seq!['/']);
            assert(root@.subrange(0, 1) =~= root@);
        }
    }
    let headers = read_headers(&ls);
    let body = String::new();
    Some(HttpRequest { method, url, headers, get, body })
}

impl HttpRequest {
    /// Both mappings of a request are well formed.
    pub closed spec fn wf(&self) -> bool {
        self.headers.wf() && self.get.wf()
    }

    /// Starts the assembly of a request from the header text, the bytes of
    /// the body that were read along with it, and the limit on the body's
    /// length.
    pub fn from(raw_header: &str, raw_body: Vec<u8>, max_content: usize) -> (r: Assembly)
        ensures
            starts_with(raw_header@, raw_body@, max_content, r),
    {
        let raw = chars_of(raw_header);
        let head = match read_head(&raw) {
            Some(head) => head,
            None => {
                return Assembly::Failed(HttpError::Parse);
            },
        };
        let upper: Vec<char> = vec!['C', 'o', 'n', 't', 'e', 'n', 't', '-', 'L', 'e', 'n', 'g', 't', 'h'];
        let lower: Vec<char> = vec!['c', 'o', 'n', 't', 'e', 'n', 't', '-', 'l', 'e', 'n', 'g', 't', 'h'];
        proof {
            assert(upper@ =~= length_key());
            assert(lower@ =~= length_key_lower());
        }
        let stated: Option<usize> = match head.headers.lookup(&upper) {
            Some(text) => parse_length(text),
            None => match head.headers.lookup(&lower) {
                Some(text) => parse_length(text),
                None => {
                    return Assembly::Done(head);
                },
            },
        };
        match stated {
            None => Assembly::Failed(HttpError::Parse),
            Some(declared) => {
                if declared > max_content {
                    Assembly::Failed(HttpError::TooLarge)
                } else {
                    go_on(head, declared, raw_body, 0, budget_for(max_content))
                }
            },
        }
    }

    /// The fields of the body of a `POST` request, decoded as a multipart
    /// form; the empty mapping for any other request.
    pub fn post(&self) -> (r: Option<FormFields>)
        requires
            self.wf(),
        ensures
            match r {
                Some(fields) => fields.wf() && if self@.method == HttpMethod::POST {
                    upload_fields(self@.body) == Some(fields@)
                } else {
                    fields@ == Map::<Seq<char>, Seq<char>>::empty()
                },
                None => self@.method == HttpMethod::POST && upload_fields(self@.body) is None,
            },
    {
        if self.method == HttpMethod::POST {
            parse_upload(self.body.as_str())
        } else {
            Some(FormFields::new())
        }
    }

    /// The request method.
    pub fn method(&self) -> (r: &HttpMethod)
        ensures
            *r == self@.method,
    {
        &self.method
    }

    /// The path, without the query string.
    pub fn url(&self) -> (r: &str)
        ensures
            r@ == self@.url,
    {
        self.url.as_str()
    }

    /// The headers, keys as they were received.
    pub fn headers(&self) -> (r: &FormFields)
        requires
            self.wf(),
        ensures
            r.wf(),
            r@ == self@.headers,
    {
        &self.headers
    }

    /// The fields of the query string.
    pub fn get(&self) -> (r: &FormFields)
        requires
            self.wf(),
        ensures
            r.wf(),
            r@ == self@.query,
    {
        &self.get
    }

    /// The body as text.
    pub fn body(&self) -> (r: &str)
        ensures
            r@ == self@.body,
    {
        self.body.as_str()
    }
}

} // verus!
