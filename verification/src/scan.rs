//! Finding the end of the header block in a stream that arrives in chunks.
//!
//! The block ends with the four bytes CR LF CR LF. They may arrive in one
//! read or spread over several, so the scanner keeps all that it was fed
//! and looks for the four bytes in the whole of it. A block that has grown
//! to 16384 bytes without them is handed on as it is.

use crate::error::HttpError;
use vstd::prelude::*;
use vstd::utf8::{decode_utf8, valid_utf8};

verus! {

/// The number of bytes that one read asks for.
pub const READ_CHUNK: usize = 8192;

/// The size at which the scanner stops waiting for the end of the block.
pub const HEADER_LIMIT: usize = 16384;

/// Whether the four bytes CR LF CR LF stand in `bytes` at index `i`.
pub open spec fn terminator_at(bytes: Seq<u8>, i: int) -> bool {
    &&& 0 <= i
    &&& i + 4 <= bytes.len()
    &&& bytes[i] == 13
    &&& bytes[i + 1] == 10
    &&& bytes[i + 2] == 13
    &&& bytes[i + 3] == 10
}

/// The least index at or after `from` where the terminator stands.
pub open spec fn first_terminator(bytes: Seq<u8>, from: int) -> Option<int>
    decreases bytes.len() - from,
{
    if from < 0 || from + 4 > bytes.len() {
        None
    } else if terminator_at(bytes, from) {
        Some(from)
    } else {
        first_terminator(bytes, from + 1)
    }
}

/// `first_terminator` is the least place of the terminator, and `None`
/// only where it stands nowhere.
pub proof fn lemma_first_terminator(bytes: Seq<u8>, from: int)
    requires
        0 <= from,
    ensures
        match first_terminator(bytes, from) {
            Some(i) => from <= i && terminator_at(bytes, i) && forall|j: int|
                from <= j < i ==> !terminator_at(bytes, j),
            None => forall|j: int| from <= j ==> !terminator_at(bytes, j),
        },
    decreases bytes.len() - from,
{
    if from + 4 <= bytes.len() && !terminator_at(bytes, from) {
        lemma_first_terminator(bytes, from + 1);
    }
}

/// The terminator stands first at `i` where it stands there and nowhere
/// before.
pub proof fn lemma_terminator_found(bytes: Seq<u8>, from: int, i: int)
    requires
        0 <= from <= i,
        terminator_at(bytes, i),
        forall|j: int| from <= j < i ==> !terminator_at(bytes, j),
    ensures
        first_terminator(bytes, from) == Some(i),
    decreases i - from,
{
    if from < i {
        lemma_terminator_found(bytes, from + 1, i);
    }
}

/// The terminator stands nowhere at or after `from`.
pub proof fn lemma_terminator_absent(bytes: Seq<u8>, from: int)
    requires
        0 <= from,
        forall|j: int| from <= j ==> !terminator_at(bytes, j),
    ensures
        first_terminator(bytes, from) is None,
    decreases bytes.len() - from,
{
    if from + 4 <= bytes.len() {
        lemma_terminator_absent(bytes, from + 1);
    }
}

/// Where the bytes read so far are cut into header and body: behind the
/// first terminator; or, without one, at the end of the bytes once they
/// have reached the limit. `None`: more must be read.
pub open spec fn split_point(all: Seq<u8>) -> Option<int> {
    match first_terminator(all, 0) {
        Some(i) => Some(i + 4),
        None => if all.len() >= HEADER_LIMIT {
            Some(all.len() as int)
        } else {
            None
        },
    }
}

/// The length of the longest start of the terminator, short of the whole,
/// that `bytes` ends with: the part of a terminator that the end of a
/// read may have cut off.
pub open spec fn cut_window(bytes: Seq<u8>) -> nat {
    let n = bytes.len() as int;
    if n >= 3 && bytes[n - 3] == 13 && bytes[n - 2] == 10 && bytes[n - 1] == 13 {
        3
    } else if n >= 2 && bytes[n - 2] == 13 && bytes[n - 1] == 10 {
        2
    } else if n >= 1 && bytes[n - 1] == 13 {
        1
    } else {
        0
    }
}

/// The chunks in one piece.
pub open spec fn joined(chunks: Seq<Seq<u8>>) -> Seq<u8>
    decreases chunks.len(),
{
    if chunks.len() == 0 {
        Seq::empty()
    } else {
        chunks[0] + joined(chunks.drop_first())
    }
}

/// The byte sequences that a vector of chunks holds.
pub open spec fn chunk_views(chunks: Seq<Vec<u8>>) -> Seq<Seq<u8>> {
    chunks.map_values(|c: Vec<u8>| c@)
}

/// The bytes that the scanner holds once the reads `chunks` have come in,
/// one after the other, for as long as the cut was not found.
pub open spec fn scan_reads(bytes: Seq<u8>, chunks: Seq<Seq<u8>>) -> Seq<u8>
    decreases chunks.len(),
{
    if chunks.len() == 0 || split_point(bytes) is Some {
        bytes
    } else {
        scan_reads(bytes + chunks[0], chunks.drop_first())
    }
}

/// The four bytes that end the header block.
pub open spec fn terminator() -> Seq<u8> {
    seq![13u8, 10u8, 13u8, 10u8]
}

/// A terminator that two reads share is found. Let the block be `head`
/// and the terminator, which stands nowhere earlier in it, and let the
/// first read end after `k` of the terminator's bytes, short of the limit.
/// Then after the first read the scanner waits, asking for just the `4 - k`
/// bytes that the terminator lacks; and after the second read, which brings
/// those bytes and perhaps `rest`, the cut is behind the terminator: the
/// header is the block, the leftover is `rest`.
pub proof fn lemma_straddling_terminator(head: Seq<u8>, k: int, rest: Seq<u8>)
    requires
        1 <= k <= 3,
        first_terminator(head + terminator(), 0) == Some(head.len() as int),
        head.len() + k < HEADER_LIMIT,
    ensures
        split_point(head + terminator().subrange(0, k)) is None,
        cut_window(head + terminator().subrange(0, k)) == k,
        split_point((head + terminator().subrange(0, k)) + (terminator().subrange(k, 4) + rest))
            == Some((head.len() + 4) as int),
        ({
            let all = (head + terminator().subrange(0, k)) + (terminator().subrange(k, 4) + rest);
            let cut = (head.len() + 4) as int;
            all.subrange(0, cut) == head + terminator() && all.subrange(cut, all.len() as int)
                == rest
        }),
        scan_reads(
            Seq::empty(),
            seq![head + terminator().subrange(0, k), terminator().subrange(k, 4) + rest],
        ) == (head + terminator().subrange(0, k)) + (terminator().subrange(k, 4) + rest),
{
    let n = head.len() as int;
    let block = head + terminator();
    let first = head + terminator().subrange(0, k);
    let all = first + (terminator().subrange(k, 4) + rest);
    lemma_first_terminator(block, 0);
    assert(all =~= block + rest);
    assert(all.subrange(0, n + 4) =~= block);
    assert(all.subrange(n + 4, all.len() as int) =~= rest);
    assert forall|j: int| 0 <= j implies !terminator_at(first, j) by {
        if terminator_at(first, j) {
            assert(first[j] == block[j]);
            assert(first[j + 1] == block[j + 1]);
            assert(first[j + 2] == block[j + 2]);
            assert(first[j + 3] == block[j + 3]);
            assert(terminator_at(block, j));
        }
    }
    lemma_terminator_absent(first, 0);
    assert forall|j: int| 0 <= j < n implies !terminator_at(all, j) by {
        if terminator_at(all, j) {
            assert(all[j] == block[j]);
            assert(all[j + 1] == block[j + 1]);
            assert(all[j + 2] == block[j + 2]);
            assert(all[j + 3] == block[j + 3]);
            assert(terminator_at(block, j));
        }
    }
    assert(terminator_at(all, n)) by {
        assert(all[n] == block[n]);
        assert(all[n + 1] == block[n + 1]);
        assert(all[n + 2] == block[n + 2]);
        assert(all[n + 3] == block[n + 3]);
    }
    lemma_terminator_found(all, 0, n);
    assert(scan_reads(Seq::empty(), seq![first, terminator().subrange(k, 4) + rest]) == all) by {
        let second = terminator().subrange(k, 4) + rest;
        let reads = seq![first, second];
        lemma_terminator_absent(Seq::<u8>::empty(), 0);
        assert(Seq::<u8>::empty() + reads[0] =~= first);
        assert(reads.drop_first() =~= seq![second]);
        assert(seq![second].drop_first() =~= Seq::<Seq<u8>>::empty());
        assert(scan_reads(all, Seq::<Seq<u8>>::empty()) == all);
        assert(scan_reads(first, seq![second]) == scan_reads(
            first + second,
            seq![second].drop_first(),
        ));
    }
    assert(cut_window(first) == k) by {
        let m = first.len() as int;
        assert(first[n] == 13);
        if k == 1 {
            if m >= 3 && first[m - 3] == 13 && first[m - 2] == 10 {
                assert(block[n - 2] == first[m - 3]);
                assert(block[n - 1] == first[m - 2]);
                assert(block[n] == 13);
                assert(block[n + 1] == 10);
                assert(terminator_at(block, n - 2));
            }
        } else if k == 2 {
            assert(first[n + 1] == 10);
        } else {
            assert(first[n + 1] == 10);
            assert(first[n + 2] == 13);
        }
    }
}

/// The header block as text, and the bytes of the body that were read
/// along with it.
pub struct HeaderScanResult {
    pub header_text: String,
    pub leftover_body_bytes: Vec<u8>,
}

/// The bytes read so far, among which the terminator has not turned up.
pub struct HeaderScanner {
    buffer: Vec<u8>,
}

/// How far the scan has come.
pub enum ScanStep {
    More(HeaderScanner),
    Done(HeaderScanResult),
    Failed(HttpError),
}

/// What a scan gives once `all` has been read.
pub open spec fn scanned(all: Seq<u8>, r: ScanStep) -> bool {
    match split_point(all) {
        None => r matches ScanStep::More(s) && s.wf() && s.bytes() == all,
        Some(e) => if valid_utf8(all.subrange(0, e)) {
            r matches ScanStep::Done(res) && res.header_text@ == decode_utf8(all.subrange(0, e))
                && res.leftover_body_bytes@ == all.subrange(e, all.len() as int)
        } else {
            r == ScanStep::Failed(HttpError::Encoding)
        },
    }
}

impl HeaderScanner {
    /// The bytes read so far.
    pub closed spec fn bytes(&self) -> Seq<u8> {
        self.buffer@
    }

    /// A scanner holds bytes that must be added to.
    pub closed spec fn wf(&self) -> bool {
        split_point(self.buffer@) is None
    }

    /// A scanner holds fewer bytes than the limit, and no terminator.
    pub proof fn lemma_open(&self)
        requires
            self.wf(),
        ensures
            self.bytes().len() < HEADER_LIMIT,
            first_terminator(self.bytes(), 0) is None,
    {
    }

    /// A scanner that has read nothing.
    pub fn new() -> (s: HeaderScanner)
        ensures
            s.wf(),
            s.bytes() == Seq::<u8>::empty(),
    {
        HeaderScanner { buffer: Vec::new() }
    }

    /// The number of bytes to ask the connection for. Where the bytes end
    /// with the start of a terminator, only what the terminator still lacks
    /// is asked for, so that no body is read with it; else a whole chunk.
    pub fn wanted(&self) -> (n: usize)
        ensures
            n == if cut_window(self.bytes()) > 0 {
                4 - cut_window(self.bytes())
            } else {
                READ_CHUNK as int
            },
    {
        let n: usize = self.buffer.len();
        if n >= 3 && self.buffer[n - 3] == 13 && self.buffer[n - 2] == 10 && self.buffer[n - 1]
            == 13 {
            1
        } else if n >= 2 && self.buffer[n - 2] == 13 && self.buffer[n - 1] == 10 {
            2
        } else if n >= 1 && self.buffer[n - 1] == 13 {
            3
        } else {
            READ_CHUNK
        }
    }

    /// Takes the bytes of one read and looks for the end of the block in
    /// all that has been read.
    pub fn feed(self, chunk: &[u8]) -> (r: ScanStep)
        requires
            self.wf(),
        ensures
            scanned(self.bytes() + chunk@, r),
    {
        let HeaderScanner { buffer } = self;
        let mut buffer = buffer;
        let ghost before = buffer@;
        let old_len: usize = buffer.len();
        buffer.extend_from_slice(chunk);
        let ghost all = buffer@;
        proof {
            assert(all =~= before + chunk@);
            lemma_first_terminator(before, 0);
        }
        let n: usize = buffer.len();
        let start: usize = if old_len >= 3 {
            old_len - 3
        } else {
            0
        };
        let mut i: usize = start;
        let mut found: Option<usize> = None;
        proof {
            assert forall|j: int| 0 <= j < start implies !terminator_at(all, j) by {
                if terminator_at(all, j) {
                    assert(before[j] == all[j]);
                    assert(before[j + 1] == all[j + 1]);
                    assert(before[j + 2] == all[j + 2]);
                    assert(before[j + 3] == all[j + 3]);
                    assert(terminator_at(before, j));
                }
            }
        }
        while found.is_none() && n >= 4 && i <= n - 4
            invariant
                n == all.len(),
                buffer@ == all,
                match found {
                    Some(k) => k == i && terminator_at(all, k as int),
                    None => true,
                },
                forall|j: int| 0 <= j < i ==> !terminator_at(all, j),
            decreases n - i + (if found is None { 1int } else { 0int }),
        {
            if buffer[i] == 13 && buffer[i + 1] == 10 && buffer[i + 2] == 13 && buffer[i + 3]
                == 10 {
                found = Some(i);
            } else {
                i += 1;
            }
        }
        proof {
            match found {
                Some(k) => {
                    lemma_terminator_found(all, 0, k as int);
                },
                None => {
                    lemma_terminator_absent(all, 0);
                },
            }
        }
        let cut: usize = match found {
            Some(k) => k + 4,
            None => {
                if n < HEADER_LIMIT {
                    return ScanStep::More(HeaderScanner { buffer });
                }
                n
            },
        };
        let rest = buffer.split_off(cut);
        match String::from_utf8(buffer) {
            Ok(text) => ScanStep::Done(
                HeaderScanResult { header_text: text, leftover_body_bytes: rest },
            ),
            Err(_) => ScanStep::Failed(HttpError::Encoding),
        }
    }
}

/// Runs a scan over the reads `chunks`, taken in turn for as long as the
/// cut has not been found.
pub fn read_header(chunks: &Vec<Vec<u8>>) -> (r: ScanStep)
    ensures
        scanned(scan_reads(Seq::empty(), chunk_views(chunks@)), r),
{
    let ghost all = chunk_views(chunks@);
    let ghost end = scan_reads(Seq::empty(), all);
    let mut scanner = HeaderScanner::new();
    let mut i: usize = 0;
    proof {
        assert(all.skip(0) =~= all);
    }
    loop
        invariant
            i <= chunks@.len(),
            all == chunk_views(chunks@),
            end == scan_reads(Seq::empty(), all),
            scanner.wf(),
            end == scan_reads(scanner.bytes(), all.skip(i as int)),
        decreases chunks@.len() - i,
    {
        if i >= chunks.len() {
            return ScanStep::More(scanner);
        }
        let ghost before = scanner;
        proof {
            assert(all.skip(i as int)[0] == chunks@[i as int]@);
            assert(all.skip(i as int).drop_first() =~= all.skip(i + 1));
        }
        match scanner.feed(chunks[i].as_slice()) {
            ScanStep::More(s) => {
                scanner = s;
                i += 1;
            },
            other => {
                proof {
                    let bytes = before.bytes() + chunks@[i as int]@;
                    assert(end == scan_reads(bytes, all.skip(i + 1)));
                    assert(split_point(bytes) is Some);
                }
                return other;
            },
        }
    }
}

} // verus!
