//! Query strings: `key=value` segments joined by `&`.

use crate::fields::FormFields;
use crate::split::{pieces, split, texts};
use crate::text::{
    chars_of, copy_range, find, first_occurrence, lemma_first_occurrence, lemma_no_char, trim,
    trimmed,
};
use vstd::prelude::*;

verus! {

/// The key of one segment: what stands before its first `=`, or the whole
/// segment where it has none, without the whitespace around it.
pub open spec fn segment_key(seg: Seq<char>) -> Seq<char> {
    match first_occurrence(seg, seq!['='], 0) {
        Some(i) => trimmed(seg.subrange(0, i)),
        None => trimmed(seg),
    }
}

/// The value of one segment: what follows its first `=`, without the
/// whitespace around it; empty where the segment has no `=`.
pub open spec fn segment_value(seg: Seq<char>) -> Seq<char> {
    match first_occurrence(seg, seq!['='], 0) {
        Some(i) => trimmed(seg.subrange(i + 1, seg.len() as int)),
        None => Seq::empty(),
    }
}

/// The mapping that the first `n` segments give, a later segment
/// replacing an earlier one with the same key.
pub open spec fn segment_fields(segments: Seq<Seq<char>>, n: int) -> Map<Seq<char>, Seq<char>>
    decreases n,
{
    if n <= 0 {
        Map::empty()
    } else {
        segment_fields(segments, n - 1).insert(
            segment_key(segments[n - 1]),
            segment_value(segments[n - 1]),
        )
    }
}

/// The mapping that a query string stands for.
pub open spec fn query_fields(raw: Seq<char>) -> Map<Seq<char>, Seq<char>> {
    let segments = pieces(raw, seq!['&']);
    segment_fields(segments, segments.len() as int)
}

/// The empty query string stands for one entry: the empty key with the
/// empty value.
pub proof fn lemma_empty_query()
    ensures
        query_fields(Seq::empty()) == Map::<Seq<char>, Seq<char>>::empty().insert(
            Seq::empty(),
            Seq::empty(),
        ),
{
    let none = Seq::<char>::empty();
    lemma_no_char(none, '&', 0);
    lemma_no_char(none, '=', 0);
    assert(none.subrange(0, 0) =~= none);
    assert(pieces(none, seq!['&']) =~= seq![none]);
    assert(trimmed(none) =~= none);
    assert(segment_fields(seq![none], 0) == Map::<Seq<char>, Seq<char>>::empty());
}

/// Decodes the characters of a query string.
pub fn parse_query(raw: &Vec<char>) -> (out: FormFields)
    ensures
        out.wf(),
        out@ == query_fields(raw@),
{
    let amp: Vec<char> = vec!['&'];
    let eq: Vec<char> = vec!['='];
    proof {
        assert(amp@ =~= seq!['&']);
        assert(eq@ =~= seq!['=']);
    }
    let segments = split(raw, &amp);
    let mut out = FormFields::new();
    let mut n: usize = 0;
    while n < segments.len()
        invariant
            n <= segments@.len(),
            eq@ == seq!['='],
            out.wf(),
            out@ == segment_fields(texts(segments@), n as int),
        decreases segments@.len() - n,
    {
        let seg = &segments[n];
        proof {
            lemma_first_occurrence(seg@, eq@, 0);
            assert(texts(segments@)[n as int] == seg@);
        }
        match find(seg, &eq, 0) {
            Some(i) => {
                let end: usize = seg.len();
                assert(i + 1 <= end) by {
                    assert(eq@.len() == 1);
                }
                let key = trim(&copy_range(seg, 0, i));
                let value = trim(&copy_range(seg, i + 1, end));
                out.insert(key, value);
            },
            None => {
                let key = trim(seg);
                let value: Vec<char> = Vec::new();
                proof {
                    assert(value@ =~= Seq::<char>::empty());
                }
                out.insert(key, value);
            },
        }
        n += 1;
    }
    out
}

/// Decodes a query string. Every text is a query string: each segment has
/// a key, if only the empty one, so the result is always `Some`.
pub fn parse_parameters(raw: &str) -> (r: Option<FormFields>)
    ensures
        r is Some,
        r.unwrap().wf(),
        r.unwrap()@ == query_fields(raw@),
{
    let chars = chars_of(raw);
    Some(parse_query(&chars))
}

} // verus!
