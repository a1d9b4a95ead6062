//! Multipart form bodies: sections set apart by a boundary marker, each
//! with a header line that names a field, and the field's value.

use crate::fields::FormFields;
use crate::split::{pieces, pieces_upto, split, split_upto, texts};
use crate::text::{chars_of, copy_range, matches_at, occurs_at, trim, trimmed};
use vstd::prelude::*;

verus! {

/// The text that sets the sections apart: a line break and the first three
/// hyphens of the boundary line. The rest of the boundary is not looked at.
pub open spec fn section_mark() -> Seq<char> {
    seq!['\r', '\n', '-', '-', '-']
}

/// A line break.
pub open spec fn line_break() -> Seq<char> {
    seq!['\r', '\n']
}

/// The start of the clause that gives a field's name.
pub open spec fn name_mark() -> Seq<char> {
    seq!['n', 'a', 'm', 'e', '=']
}

/// The name that the clauses `clauses[from..]` of a header line give: that
/// of the first clause which, once trimmed, starts with `name=`. The name
/// stands between the character after `name=` and the clause's last
/// character, which are taken to be its quotes. `Some` of the empty text
/// where no clause gives a name; `None` where the clause that does is
/// shorter than seven characters.
pub open spec fn name_in(clauses: Seq<Seq<char>>, from: int) -> Option<Seq<char>>
    decreases clauses.len() - from,
{
    if from < 0 || from >= clauses.len() {
        Some(Seq::empty())
    } else {
        let clause = trimmed(clauses[from]);
        if occurs_at(clause, name_mark(), 0) {
            if clause.len() >= 7 {
                Some(clause.subrange(6, clause.len() - 1))
            } else {
                None
            }
        } else {
            name_in(clauses, from + 1)
        }
    }
}

/// The field name that a header line gives.
pub open spec fn field_name(line: Seq<char>) -> Option<Seq<char>> {
    name_in(pieces(line, seq![';']), 0)
}

/// What one section gives. `None`: the section is malformed.
/// `Some(None)`: it is well formed and holds no field.
/// `Some(Some((name, value)))`: it holds this field.
///
/// The section is cut at its first three line breaks. What stands before
/// the first break is the rest of the boundary line and is passed over.
/// The next fragment is the header line and must be there. Where nothing
/// follows the header line the section holds no field. Where an empty
/// line follows, the value is all that comes after it. Where another line
/// follows, the value is what comes after the line behind that one.
pub open spec fn section_field(section: Seq<char>) -> Option<Option<(Seq<char>, Seq<char>)>> {
    let frags = pieces_upto(section, line_break(), 4);
    if frags.len() < 2 {
        None
    } else {
        match field_name(frags[1]) {
            None => None,
            Some(name) => {
                if frags.len() < 3 {
                    Some(None)
                } else if frags.len() < 4 {
                    None
                } else if frags[2].len() == 0 {
                    Some(Some((name, frags[3])))
                } else {
                    let rest = pieces_upto(frags[3], line_break(), 2);
                    if rest.len() < 2 {
                        None
                    } else {
                        Some(Some((name, rest[1])))
                    }
                }
            },
        }
    }
}

/// The mapping that the first `n` sections give, a later field replacing
/// an earlier one of the same name; `None` where one of them is malformed.
pub open spec fn sections_fields(sections: Seq<Seq<char>>, n: int) -> Option<
    Map<Seq<char>, Seq<char>>,
>
    decreases n,
{
    if n <= 0 {
        Some(Map::empty())
    } else {
        match (sections_fields(sections, n - 1), section_field(sections[n - 1])) {
            (Some(m), Some(Some((name, value)))) => Some(m.insert(name, value)),
            (Some(m), Some(None)) => Some(m),
            _ => None,
        }
    }
}

/// The mapping that a multipart body stands for, or `None` where a
/// section of it is malformed.
pub open spec fn upload_fields(body: Seq<char>) -> Option<Map<Seq<char>, Seq<char>>> {
    let sections = pieces(body, section_mark());
    sections_fields(sections, sections.len() as int)
}

/// Once a section is malformed, so is every longer run of sections.
pub proof fn lemma_sections_fail(sections: Seq<Seq<char>>, n: int, m: int)
    requires
        0 <= n <= m,
        sections_fields(sections, n) is None,
    ensures
        sections_fields(sections, m) is None,
    decreases m - n,
{
    if n < m {
        lemma_sections_fail(sections, n, m - 1);
    }
}

/// The field name that a header line gives.
pub fn read_name(line: &Vec<char>) -> (r: Option<Vec<char>>)
    ensures
        match r {
            Some(name) => field_name(line@) == Some(name@),
            None => field_name(line@) is None,
        },
{
    let semi: Vec<char> = vec![';'];
    let mark: Vec<char> = vec!['n', 'a', 'm', 'e', '='];
    proof {
        assert(semi@ =~= seq![';']);
        assert(mark@ =~= name_mark());
    }
    let clauses = split(line, &semi);
    let mut i: usize = 0;
    while i < clauses.len()
        invariant
            i <= clauses@.len(),
            mark@ == name_mark(),
            texts(clauses@) == pieces(line@, seq![';']),
            field_name(line@) == name_in(texts(clauses@), i as int),
        decreases clauses@.len() - i,
    {
        proof {
            assert(texts(clauses@)[i as int] == clauses@[i as int]@);
        }
        let clause = trim(&clauses[i]);
        if matches_at(&clause, &mark, 0) {
            if clause.len() >= 7 {
                return Some(copy_range(&clause, 6, clause.len() - 1));
            } else {
                return None;
            }
        }
        i += 1;
    }
    let name: Vec<char> = Vec::new();
    proof {
        assert(name@ =~= Seq::<char>::empty());
    }
    Some(name)
}

/// What one section gives: see `section_field`.
pub fn read_section(section: &Vec<char>) -> (r: Option<Option<(Vec<char>, Vec<char>)>>)
    ensures
        match r {
            None => section_field(section@) is None,
            Some(None) => section_field(section@) == Some(
                None::<(Seq<char>, Seq<char>)>,
            ),
            Some(Some(f)) => section_field(section@) == Some(Some((f.0@, f.1@))),
        },
{
    let crlf: Vec<char> = vec!['\r', '\n'];
    proof {
        assert(crlf@ =~= line_break());
    }
    let frags = split_upto(section, &crlf, 4);
    proof {
        assert(forall|i: int|
            0 <= i < frags@.len() ==> #[trigger] texts(frags@)[i] == frags@[i]@);
    }
    if frags.len() < 2 {
        return None;
    }
    let name = match read_name(&frags[1]) {
        None => {
            return None;
        },
        Some(name) => name,
    };
    if frags.len() < 3 {
        return Some(None);
    }
    if frags.len() < 4 {
        return None;
    }
    if frags[2].len() == 0 {
        let value = copy_range(&frags[3], 0, frags[3].len());
        proof {
            assert(value@ =~= frags@[3]@);
        }
        Some(Some((name, value)))
    } else {
        let rest = split_upto(&frags[3], &crlf, 2);
        proof {
            assert(forall|i: int|
                0 <= i < rest@.len() ==> #[trigger] texts(rest@)[i] == rest@[i]@);
        }
        if rest.len() < 2 {
            return None;
        }
        let value = copy_range(&rest[1], 0, rest[1].len());
        proof {
            assert(value@ =~= rest@[1]@);
        }
        Some(Some((name, value)))
    }
}

/// Decodes the characters of a multipart body.
pub fn parse_sections(body: &Vec<char>) -> (r: Option<FormFields>)
    ensures
        match r {
            Some(fields) => fields.wf() && upload_fields(body@) == Some(fields@),
            None => upload_fields(body@) is None,
        },
{
    let mark: Vec<char> = vec!['\r', '\n', '-', '-', '-'];
    proof {
        assert(mark@ =~= section_mark());
    }
    let sections = split(body, &mark);
    let mut out = FormFields::new();
    let mut n: usize = 0;
    while n < sections.len()
        invariant
            n <= sections@.len(),
            texts(sections@) == pieces(body@, section_mark()),
            out.wf(),
            sections_fields(texts(sections@), n as int) == Some(out@),
        decreases sections@.len() - n,
    {
        proof {
            assert(texts(sections@)[n as int] == sections@[n as int]@);
        }
        match read_section(&sections[n]) {
            None => {
                proof {
                    lemma_sections_fail(texts(sections@), n + 1, sections@.len() as int);
                }
                return None;
            },
            Some(None) => {},
            Some(Some(f)) => {
                out.insert(f.0, f.1);
            },
        }
        n += 1;
    }
    Some(out)
}

/// Decodes a multipart body.
pub fn parse_upload(body: &str) -> (r: Option<FormFields>)
    ensures
        match r {
            Some(fields) => fields.wf() && upload_fields(body@) == Some(fields@),
            None => upload_fields(body@) is None,
        },
{
    let chars = chars_of(body);
    parse_sections(&chars)
}

} // verus!
