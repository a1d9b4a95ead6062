//! Cutting a text into pieces at a separator, and into lines.

use crate::text::{copy_range, find, first_occurrence, lemma_first_char, lemma_first_occurrence};
use vstd::prelude::*;

verus! {

/// The texts that a vector of character vectors holds.
pub open spec fn texts(v: Seq<Vec<char>>) -> Seq<Seq<char>> {
    v.map_values(|p: Vec<char>| p@)
}

/// The pieces of `s[from..]` that lie between the occurrences of `pat`,
/// found from left to right without overlap. There is always at least one
/// piece; a piece may be empty.
pub open spec fn pieces_from(s: Seq<char>, pat: Seq<char>, from: int) -> Seq<Seq<char>>
    decreases s.len() + 1 - from,
    when pat.len() > 0 && 0 <= from
{
    match first_occurrence(s, pat, from) {
        None => seq![s.subrange(from, s.len() as int)],
        Some(i) => {
            proof {
                lemma_first_occurrence(s, pat, from);
            }
            seq![s.subrange(from, i)] + pieces_from(s, pat, i + pat.len())
        },
    }
}

/// The pieces of `s` between the occurrences of `pat`.
pub open spec fn pieces(s: Seq<char>, pat: Seq<char>) -> Seq<Seq<char>> {
    pieces_from(s, pat, 0)
}

/// The texts `parts`, with `pat` between each two neighbours.
pub open spec fn join(parts: Seq<Seq<char>>, pat: Seq<char>) -> Seq<char>
    decreases parts.len(),
{
    if parts.len() == 0 {
        Seq::empty()
    } else if parts.len() == 1 {
        parts[0]
    } else {
        parts[0] + pat + join(parts.drop_first(), pat)
    }
}

/// Cutting loses nothing: the pieces of `s[from..]`, put together again
/// with the separator between them, are `s[from..]`.
pub proof fn lemma_pieces_join(s: Seq<char>, pat: Seq<char>, from: int)
    requires
        pat.len() > 0,
        0 <= from <= s.len(),
    ensures
        pieces_from(s, pat, from).len() >= 1,
        join(pieces_from(s, pat, from), pat) == s.subrange(from, s.len() as int),
    decreases s.len() - from,
{
    lemma_first_occurrence(s, pat, from);
    match first_occurrence(s, pat, from) {
        None => {},
        Some(i) => {
            let rest = pieces_from(s, pat, i + pat.len());
            lemma_pieces_join(s, pat, i + pat.len());
            let all = seq![s.subrange(from, i)] + rest;
            assert(all.drop_first() =~= rest);
            assert(s.subrange(i, i + pat.len()) == pat);
            assert(s.subrange(from, i) + pat + s.subrange(i + pat.len(), s.len() as int)
                =~= s.subrange(from, s.len() as int));
        },
    }
}

/// As `pieces_from`, but with at most `limit` pieces: the last one holds
/// the rest of the text, separators included.
pub open spec fn pieces_upto_from(s: Seq<char>, pat: Seq<char>, from: int, limit: nat) -> Seq<
    Seq<char>,
>
    decreases limit,
{
    if limit <= 1 {
        seq![s.subrange(from, s.len() as int)]
    } else {
        match first_occurrence(s, pat, from) {
            None => seq![s.subrange(from, s.len() as int)],
            Some(i) => seq![s.subrange(from, i)] + pieces_upto_from(
                s,
                pat,
                i + pat.len(),
                (limit - 1) as nat,
            ),
        }
    }
}

/// The first `limit` pieces of `s`, the last of them holding all the rest.
pub open spec fn pieces_upto(s: Seq<char>, pat: Seq<char>, limit: nat) -> Seq<Seq<char>> {
    pieces_upto_from(s, pat, 0, limit)
}

/// Cuts `s` at every occurrence of `pat`.
pub fn split(s: &Vec<char>, pat: &Vec<char>) -> (out: Vec<Vec<char>>)
    requires
        pat@.len() > 0,
    ensures
        texts(out@) == pieces(s@, pat@),
        out@.len() >= 1,
{
    let mut out: Vec<Vec<char>> = Vec::new();
    let n: usize = s.len();
    let mut pos: usize = 0;
    loop
        invariant
            n == s@.len(),
            pos <= s@.len(),
            pat@.len() > 0,
            pieces(s@, pat@) == texts(out@) + pieces_from(s@, pat@, pos as int),
        decreases s@.len() - pos,
    {
        let ghost before = texts(out@);
        proof {
            lemma_first_occurrence(s@, pat@, pos as int);
        }
        match find(s, pat, pos) {
            None => {
                let piece = copy_range(s, pos, s.len());
                out.push(piece);
                proof {
                    assert(texts(out@) =~= before + seq![piece@]);
                }
                return out;
            },
            Some(i) => {
                let piece = copy_range(s, pos, i);
                out.push(piece);
                proof {
                    assert(texts(out@) =~= before + seq![piece@]);
                    assert(before + (seq![piece@] + pieces_from(s@, pat@, i + pat@.len()))
                        =~= (before + seq![piece@]) + pieces_from(s@, pat@, i + pat@.len()));
                }
                pos = i + pat.len();
            },
        }
    }
}

/// Cuts `s` at the first `limit - 1` occurrences of `pat`.
pub fn split_upto(s: &Vec<char>, pat: &Vec<char>, limit: usize) -> (out: Vec<Vec<char>>)
    requires
        pat@.len() > 0,
        limit >= 1,
    ensures
        texts(out@) == pieces_upto(s@, pat@, limit as nat),
        1 <= out@.len() <= limit,
{
    let mut out: Vec<Vec<char>> = Vec::new();
    let mut pos: usize = 0;
    let mut left: usize = limit;
    let n: usize = s.len();
    loop
        invariant
            n == s@.len(),
            pos <= s@.len(),
            pat@.len() > 0,
            1 <= left <= limit,
            out@.len() == limit - left,
            pieces_upto(s@, pat@, limit as nat) == texts(out@) + pieces_upto_from(
                s@,
                pat@,
                pos as int,
                left as nat,
            ),
        decreases left,
    {
        let ghost before = texts(out@);
        proof {
            lemma_first_occurrence(s@, pat@, pos as int);
        }
        let found = if left > 1 {
            find(s, pat, pos)
        } else {
            None
        };
        match found {
            None => {
                let piece = copy_range(s, pos, s.len());
                out.push(piece);
                proof {
                    assert(texts(out@) =~= before + seq![piece@]);
                }
                return out;
            },
            Some(i) => {
                let piece = copy_range(s, pos, i);
                out.push(piece);
                proof {
                    assert(texts(out@) =~= before + seq![piece@]);
                    let rest = pieces_upto_from(s@, pat@, i + pat@.len(), (left - 1) as nat);
                    assert(before + (seq![piece@] + rest) =~= (before + seq![piece@]) + rest);
                }
                pos = i + pat.len();
                left -= 1;
            },
        }
    }
}

/// A line without the carriage return at its end, if it has one.
pub open spec fn without_cr(line: Seq<char>) -> Seq<char> {
    if line.len() > 0 && line.last() == '\r' {
        line.drop_last()
    } else {
        line
    }
}

/// The lines of `s[from..]`. A line ends at a line feed, or at the end of
/// the text; the line feed and a carriage return just before it are not
/// part of the line. A line feed at the very end of the text starts no
/// further line, and the empty text has no line at all.
pub open spec fn lines_from(s: Seq<char>, from: int) -> Seq<Seq<char>>
    decreases s.len() - from,
{
    if from < 0 || from >= s.len() {
        Seq::empty()
    } else {
        match first_occurrence(s, seq!['\n'], from) {
            None => seq![s.subrange(from, s.len() as int)],
            Some(i) => {
                proof {
                    lemma_first_occurrence(s, seq!['\n'], from);
                }
                seq![without_cr(s.subrange(from, i))] + lines_from(s, i + 1)
            },
        }
    }
}

/// The lines of `s`.
pub open spec fn lines(s: Seq<char>) -> Seq<Seq<char>> {
    lines_from(s, 0)
}

/// Where `c` stands at `end` and nowhere in `s[from..end]`, the first
/// piece from `from` on is `s[from..end]`, and the others are the pieces
/// from `end + 1` on.
pub proof fn lemma_piece_at(s: Seq<char>, c: char, from: int, end: int)
    requires
        0 <= from <= end < s.len(),
        s[end] == c,
        forall|j: int| from <= j < end ==> s[j] != c,
    ensures
        pieces_from(s, seq![c], from) == seq![s.subrange(from, end)] + pieces_from(
            s,
            seq![c],
            end + 1,
        ),
{
    lemma_first_char(s, c, from, end);
}

/// Where a line feed stands at `end` and nowhere in `s[from..end]`, the
/// first line from `from` on is `s[from..end]` without the carriage
/// return at its end, and the others are the lines from `end + 1` on.
pub proof fn lemma_line_at(s: Seq<char>, from: int, end: int)
    requires
        0 <= from <= end < s.len(),
        s[end] == '\n',
        forall|j: int| from <= j < end ==> s[j] != '\n',
    ensures
        lines_from(s, from) == seq![without_cr(s.subrange(from, end))] + lines_from(s, end + 1),
{
    lemma_first_char(s, '\n', from, end);
}

/// Cuts `s` into its lines.
pub fn split_lines(s: &Vec<char>) -> (out: Vec<Vec<char>>)
    ensures
        texts(out@) == lines(s@),
{
    let feed: Vec<char> = vec!['\n'];
    proof {
        assert(feed@ =~= seq!['\n']);
    }
    let mut out: Vec<Vec<char>> = Vec::new();
    let n: usize = s.len();
    let mut pos: usize = 0;
    proof {
        assert(texts(out@) =~= Seq::<Seq<char>>::empty());
    }
    while pos < n
        invariant
            n == s@.len(),
            pos <= n,
            feed@ == seq!['\n'],
            lines(s@) == texts(out@) + lines_from(s@, pos as int),
        decreases n - pos,
    {
        let ghost before = texts(out@);
        proof {
            lemma_first_occurrence(s@, feed@, pos as int);
        }
        match find(s, &feed, pos) {
            None => {
                let piece = copy_range(s, pos, n);
                out.push(piece);
                proof {
                    assert(texts(out@) =~= before + seq![piece@]);
                }
                return out;
            },
            Some(i) => {
                let end: usize = if i > pos && s[i - 1] == '\r' {
                    i - 1
                } else {
                    i
                };
                let piece = copy_range(s, pos, end);
                out.push(piece);
                proof {
                    let line = s@.subrange(pos as int, i as int);
                    if i > pos {
                        assert(line.last() == s@[i - 1]);
                    }
                    assert(piece@ =~= without_cr(line));
                    assert(texts(out@) =~= before + seq![piece@]);
                    let rest = lines_from(s@, i + 1);
                    assert(before + (seq![piece@] + rest) =~= (before + seq![piece@]) + rest);
                }
                pos = i + 1;
            },
        }
    }
    proof {
        assert(texts(out@) + Seq::<Seq<char>>::empty() =~= texts(out@));
    }
    out
}

} // verus!
