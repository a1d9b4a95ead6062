//! An ordered mapping from names to values: keys are unique, a later
//! insertion under a key replaces the earlier value, and the entries are
//! kept sorted by key.

use crate::text::{chars_of, string_of};
use vstd::prelude::*;

verus! {

/// Whether `a[k..]` comes before `b[k..]` in the lexicographic order of
/// the characters' code points.
pub open spec fn before_from(a: Seq<char>, b: Seq<char>, k: int) -> bool
    decreases a.len() - k,
{
    if k < 0 || k >= b.len() {
        false
    } else if k >= a.len() {
        true
    } else if a[k] != b[k] {
        (a[k] as u32) < (b[k] as u32)
    } else {
        before_from(a, b, k + 1)
    }
}

/// The order of the keys: lexicographic by code point, a proper prefix
/// before the longer text.
pub open spec fn text_before(a: Seq<char>, b: Seq<char>) -> bool {
    before_from(a, b, 0)
}

pub proof fn lemma_before_irreflexive(a: Seq<char>, k: int)
    ensures
        !before_from(a, a, k),
    decreases a.len() - k,
{
    if 0 <= k < a.len() {
        lemma_before_irreflexive(a, k + 1);
    }
}

pub proof fn lemma_before_transitive(a: Seq<char>, b: Seq<char>, c: Seq<char>, k: int)
    requires
        before_from(a, b, k),
        before_from(b, c, k),
    ensures
        before_from(a, c, k),
    decreases a.len() - k,
{
    if k < a.len() && a[k] == b[k] && b[k] == c[k] {
        lemma_before_transitive(a, b, c, k + 1);
    }
}

/// How one text stands to another in the order of the keys.
#[derive(Clone, Copy, Debug, PartialEq, Eq, Structural)]
pub enum Place {
    Before,
    Same,
    After,
}

/// Where `a` stands relative to `b`.
pub fn place(a: &Vec<char>, b: &Vec<char>) -> (r: Place)
    ensures
        r == Place::Before <==> text_before(a@, b@),
        r == Place::Same <==> a@ == b@,
        r == Place::After <==> text_before(b@, a@),
{
    let mut k: usize = 0;
    proof {
        lemma_before_irreflexive(a@, 0);
    }
    while k < a.len() && k < b.len()
        invariant
            k <= a@.len(),
            k <= b@.len(),
            a@.subrange(0, k as int) == b@.subrange(0, k as int),
            text_before(a@, b@) == before_from(a@, b@, k as int),
            text_before(b@, a@) == before_from(b@, a@, k as int),
        decreases a@.len() - k,
    {
        if a[k] != b[k] {
            proof {
                assert(a@ != b@);
            }
            if (a[k] as u32) < (b[k] as u32) {
                return Place::Before;
            } else {
                proof {
                    // different characters have different code points
                    vstd::utf8::char_u32_cast(a@[k as int], a@[k as int] as u32);
                    vstd::utf8::char_u32_cast(b@[k as int], b@[k as int] as u32);
                }
                return Place::After;
            }
        }
        proof {
            assert(a@.subrange(0, k + 1) =~= a@.subrange(0, k as int).push(a@[k as int]));
            assert(b@.subrange(0, k + 1) =~= b@.subrange(0, k as int).push(b@[k as int]));
        }
        k += 1;
    }
    if k < b.len() {
        Place::Before
    } else if k < a.len() {
        Place::After
    } else {
        proof {
            assert(a@ =~= a@.subrange(0, k as int));
            assert(b@ =~= b@.subrange(0, k as int));
            lemma_before_irreflexive(a@, 0);
        }
        Place::Same
    }
}

/// One entry of the mapping.
struct Field {
    key: Vec<char>,
    value: Vec<char>,
}

/// An ordered mapping from names to values.
pub struct FormFields {
    entries: Vec<Field>,
}

impl View for FormFields {
    type V = Map<Seq<char>, Seq<char>>;

    /// The mapping that the entries stand for.
    closed spec fn view(&self) -> Map<Seq<char>, Seq<char>> {
        Map::new(
            |k: Seq<char>| self.position(k) is Some,
            |k: Seq<char>| self.entries@[self.position(k).unwrap()].value@,
        )
    }
}

impl FormFields {
    /// The keys in the order of the entries.
    pub closed spec fn keys(&self) -> Seq<Seq<char>> {
        self.entries@.map_values(|f: Field| f.key@)
    }

    /// The values in the order of the entries.
    pub closed spec fn values(&self) -> Seq<Seq<char>> {
        self.entries@.map_values(|f: Field| f.value@)
    }

    /// The index of the entry under `k`, if there is one.
    closed spec fn position(&self, k: Seq<char>) -> Option<int> {
        if exists|i: int| 0 <= i < self.entries@.len() && self.entries@[i].key@ == k {
            Some(choose|i: int| 0 <= i < self.entries@.len() && self.entries@[i].key@ == k)
        } else {
            None
        }
    }

    /// The entries are sorted by key, strictly: no key occurs twice.
    pub closed spec fn wf(&self) -> bool {
        forall|i: int, j: int|
            0 <= i < j < self.entries@.len() ==> text_before(
                #[trigger] self.entries@[i].key@,
                #[trigger] self.entries@[j].key@,
            )
    }

    /// Keys and values run in parallel, the keys ascend strictly, and the
    /// view holds exactly these entries.
    pub proof fn lemma_entries(&self)
        requires
            self.wf(),
        ensures
            self.keys().len() == self.values().len(),
            self@.dom().finite(),
            self@.len() == self.keys().len(),
            forall|i: int, j: int|
                0 <= i < j < self.keys().len() ==> text_before(
                    #[trigger] self.keys()[i],
                    #[trigger] self.keys()[j],
                ),
            forall|i: int|
                0 <= i < self.keys().len() ==> self@.contains_key(#[trigger] self.keys()[i])
                    && self@[self.keys()[i]] == self.values()[i],
            forall|k: Seq<char>| #[trigger]
                self@.contains_key(k) ==> exists|i: int|
                    0 <= i < self.keys().len() && self.keys()[i] == k,
    {
        assert forall|i: int| 0 <= i < self.keys().len() implies self@.contains_key(
            #[trigger] self.keys()[i],
        ) && self@[self.keys()[i]] == self.values()[i] by {
            self.lemma_position(i);
        }
        assert forall|k: Seq<char>| #[trigger] self@.contains_key(k) implies exists|i: int|
            0 <= i < self.keys().len() && self.keys()[i] == k by {
            let i = self.position(k).unwrap();
            assert(self.keys()[i] == k);
        }
        self.lemma_count(self.entries@.len() as int);
        assert(self@.dom() =~= self.first_keys(self.entries@.len() as int));
    }

    /// The keys of the first `n` entries.
    closed spec fn first_keys(&self, n: int) -> Set<Seq<char>> {
        Set::new(|k: Seq<char>| exists|i: int| 0 <= i < n && self.entries@[i].key@ == k)
    }

    proof fn lemma_count(&self, n: int)
        requires
            self.wf(),
            0 <= n <= self.entries@.len(),
        ensures
            self.first_keys(n).finite(),
            self.first_keys(n).len() == n,
        decreases n,
    {
        if n == 0 {
            assert(self.first_keys(0) =~= Set::empty());
        } else {
            self.lemma_count(n - 1);
            let last = self.entries@[n - 1].key@;
            assert(!self.first_keys(n - 1).contains(last)) by {
                if self.first_keys(n - 1).contains(last) {
                    let i = choose|i: int| 0 <= i < n - 1 && self.entries@[i].key@ == last;
                    assert(text_before(self.entries@[i].key@, self.entries@[n - 1].key@));
                    lemma_before_irreflexive(last, 0);
                }
            }
            assert(self.first_keys(n) =~= self.first_keys(n - 1).insert(last)) by {
                assert forall|k: Seq<char>| self.first_keys(n).contains(k) implies self.first_keys(
                    n - 1,
                ).insert(last).contains(k) by {
                    let i = choose|i: int| 0 <= i < n && self.entries@[i].key@ == k;
                    if i < n - 1 {
                        assert(self.first_keys(n - 1).contains(k));
                    }
                }
                assert forall|k: Seq<char>|
                    self.first_keys(n - 1).insert(last).contains(k) implies self.first_keys(
                    n,
                ).contains(k) by {
                    if k == last {
                        assert(self.entries@[n - 1].key@ == k);
                    } else {
                        let i = choose|i: int| 0 <= i < n - 1 && self.entries@[i].key@ == k;
                        assert(0 <= i < n && self.entries@[i].key@ == k);
                    }
                }
            }
        }
    }

    /// The entry at index `i` is the one found under its key.
    proof fn lemma_position(&self, i: int)
        requires
            self.wf(),
            0 <= i < self.entries@.len(),
        ensures
            self.position(self.entries@[i].key@) == Some(i),
    {
        let k = self.entries@[i].key@;
        let j = choose|j: int| 0 <= j < self.entries@.len() && self.entries@[j].key@ == k;
        lemma_before_irreflexive(k, 0);
        if j < i {
            assert(text_before(self.entries@[j].key@, self.entries@[i].key@));
        } else if i < j {
            assert(text_before(self.entries@[i].key@, self.entries@[j].key@));
        }
    }

    /// The empty mapping.
    pub fn new() -> (out: FormFields)
        ensures
            out.wf(),
            out@ == Map::<Seq<char>, Seq<char>>::empty(),
    {
        let out = FormFields { entries: Vec::new() };
        proof {
            assert(out@ =~= Map::<Seq<char>, Seq<char>>::empty());
        }
        out
    }

    /// The number of entries.
    pub fn len(&self) -> (n: usize)
        requires
            self.wf(),
        ensures
            n == self@.len(),
            n == self.keys().len(),
    {
        proof {
            self.lemma_entries();
        }
        self.entries.len()
    }

    /// Whether the mapping holds no entry.
    pub fn is_empty(&self) -> (r: bool)
        requires
            self.wf(),
        ensures
            r == (self@ == Map::<Seq<char>, Seq<char>>::empty()),
    {
        proof {
            self.lemma_entries();
            if self.entries@.len() == 0 {
                assert(self@ =~= Map::<Seq<char>, Seq<char>>::empty());
            } else {
                assert(self@.contains_key(self.keys()[0]));
            }
        }
        self.entries.len() == 0
    }

    /// Puts `value` under `key`, in place of the value that stood there.
    pub fn insert(&mut self, key: Vec<char>, value: Vec<char>)
        requires
            old(self).wf(),
        ensures
            final(self).wf(),
            final(self)@ == old(self)@.insert(key@, value@),
    {
        let ghost before = *self;
        let mut i: usize = 0;
        while i < self.entries.len()
            invariant
                *self == before,
                before == *old(self),
                before.wf(),
                i <= self.entries@.len(),
                forall|j: int| 0 <= j < i ==> text_before(#[trigger] self.entries@[j].key@, key@),
            decreases self.entries@.len() - i,
        {
            match place(&self.entries[i].key, &key) {
                Place::Before => {
                    i += 1;
                },
                Place::Same => {
                    self.entries.set(i, Field { key, value });
                    proof {
                        assert(self.wf()) by {
                            assert forall|a: int, b: int|
                                0 <= a < b < self.entries@.len() implies text_before(
                                #[trigger] self.entries@[a].key@,
                                #[trigger] self.entries@[b].key@,
                            ) by {
                                assert(self.entries@[a].key@ == before.entries@[a].key@);
                                assert(self.entries@[b].key@ == before.entries@[b].key@);
                                assert(text_before(
                                    before.entries@[a].key@,
                                    before.entries@[b].key@,
                                ));
                            }
                        }
                        self.lemma_replaced(before, i as int);
                    }
                    return ;
                },
                Place::After => {
                    self.entries.insert(i, Field { key, value });
                    proof {
                        self.lemma_added(before, i as int);
                    }
                    return ;
                },
            }
        }
        self.entries.insert(i, Field { key, value });
        proof {
            self.lemma_added(before, i as int);
        }
    }

    /// Puts `value` under `key`, both given as strings.
    pub fn put(&mut self, key: &str, value: &str)
        requires
            old(self).wf(),
        ensures
            final(self).wf(),
            final(self)@ == old(self)@.insert(key@, value@),
    {
        self.insert(chars_of(key), chars_of(value));
    }

    /// The value under `key`, if the mapping holds one.
    pub fn lookup(&self, key: &Vec<char>) -> (r: Option<&Vec<char>>)
        requires
            self.wf(),
        ensures
            match r {
                Some(v) => self@.contains_key(key@) && self@[key@] == v@,
                None => !self@.contains_key(key@),
            },
    {
        let mut i: usize = 0;
        while i < self.entries.len()
            invariant
                self.wf(),
                i <= self.entries@.len(),
                forall|j: int| 0 <= j < i ==> (#[trigger] self.entries@[j]).key@ != key@,
            decreases self.entries@.len() - i,
        {
            match place(&self.entries[i].key, key) {
                Place::Same => {
                    proof {
                        self.lemma_position(i as int);
                    }
                    return Some(&self.entries[i].value);
                },
                _ => {
                    i += 1;
                },
            }
        }
        None
    }

    /// The value under `key`, if the mapping holds one.
    pub fn get(&self, key: &str) -> (r: Option<String>)
        requires
            self.wf(),
        ensures
            match r {
                Some(v) => self@.contains_key(key@) && self@[key@] == v@,
                None => !self@.contains_key(key@),
            },
    {
        let k = chars_of(key);
        match self.lookup(&k) {
            Some(v) => Some(string_of(v.as_slice(), 0, v.len())),
            None => None,
        }
    }

    /// Whether the mapping holds an entry under `key`.
    pub fn contains_key(&self, key: &str) -> (r: bool)
        requires
            self.wf(),
        ensures
            r == self@.contains_key(key@),
    {
        let k = chars_of(key);
        self.lookup(&k).is_some()
    }

    /// The entries as pairs of strings, in ascending order of their keys.
    pub fn entries(&self) -> (out: Vec<(String, String)>)
        requires
            self.wf(),
        ensures
            out@.len() == self.keys().len(),
            out@.len() == self.values().len(),
            forall|i: int|
                0 <= i < out@.len() ==> (#[trigger] out@[i]).0@ == self.keys()[i] && out@[i].1@
                    == self.values()[i],
    {
        let mut out: Vec<(String, String)> = Vec::new();
        let mut i: usize = 0;
        while i < self.entries.len()
            invariant
                i <= self.entries@.len(),
                out@.len() == i,
                forall|j: int|
                    0 <= j < i ==> (#[trigger] out@[j]).0@ == self.entries@[j].key@ && out@[j].1@
                        == self.entries@[j].value@,
            decreases self.entries@.len() - i,
        {
            let f = &self.entries[i];
            let k = string_of(f.key.as_slice(), 0, f.key.len());
            let v = string_of(f.value.as_slice(), 0, f.value.len());
            proof {
                assert(f.key@.subrange(0, f.key@.len() as int) =~= f.key@);
                assert(f.value@.subrange(0, f.value@.len() as int) =~= f.value@);
            }
            out.push((k, v));
            i += 1;
        }
        out
    }

    /// A new entry at index `i`, between the smaller keys and the larger
    /// ones, keeps the order and is an insertion under its key.
    proof fn lemma_added(&self, before: FormFields, i: int)
        requires
            before.wf(),
            0 <= i <= before.entries@.len(),
            self.entries@ == before.entries@.insert(i, self.entries@[i]),
            forall|j: int|
                0 <= j < i ==> text_before(
                    #[trigger] before.entries@[j].key@,
                    self.entries@[i].key@,
                ),
            i < before.entries@.len() ==> text_before(
                self.entries@[i].key@,
                before.entries@[i].key@,
            ),
        ensures
            self.wf(),
            self@ == before@.insert(self.entries@[i].key@, self.entries@[i].value@),
    {
        let k = self.entries@[i].key@;
        assert(self.wf()) by {
            assert forall|a: int, b: int| 0 <= a < b < self.entries@.len() implies text_before(
                #[trigger] self.entries@[a].key@,
                #[trigger] self.entries@[b].key@,
            ) by {
                if b < i {
                    assert(self.entries@[a] == before.entries@[a]);
                    assert(self.entries@[b] == before.entries@[b]);
                    assert(text_before(before.entries@[a].key@, before.entries@[b].key@));
                } else if b == i {
                    assert(self.entries@[a] == before.entries@[a]);
                } else if a < i {
                    assert(self.entries@[a] == before.entries@[a]);
                    assert(self.entries@[b] == before.entries@[b - 1]);
                    assert(text_before(before.entries@[a].key@, before.entries@[b - 1].key@));
                } else if a == i {
                    assert(self.entries@[b] == before.entries@[b - 1]);
                    if i < b - 1 {
                        assert(text_before(before.entries@[i].key@, before.entries@[b - 1].key@));
                        lemma_before_transitive(
                            k,
                            before.entries@[i].key@,
                            before.entries@[b - 1].key@,
                            0,
                        );
                    }
                } else {
                    assert(self.entries@[a] == before.entries@[a - 1]);
                    assert(self.entries@[b] == before.entries@[b - 1]);
                    assert(text_before(before.entries@[a - 1].key@, before.entries@[b - 1].key@));
                }
            }
        }
        let target = before@.insert(k, self.entries@[i].value@);
        assert forall|x: Seq<char>| self@.contains_key(x) <==> target.contains_key(x) by {
            if self@.contains_key(x) {
                let j = self.position(x).unwrap();
                if j < i {
                    assert(before.entries@[j].key@ == x);
                } else if j > i {
                    assert(before.entries@[j - 1].key@ == x);
                }
            }
            if target.contains_key(x) && x != k {
                let j = before.position(x).unwrap();
                if j < i {
                    assert(self.entries@[j].key@ == x);
                } else {
                    assert(self.entries@[j + 1].key@ == x);
                }
            }
            if x == k {
                assert(self.entries@[i].key@ == x);
            }
        }
        assert forall|x: Seq<char>| self@.contains_key(x) implies self@[x] == target[x] by {
            let j = self.position(x).unwrap();
            self.lemma_position(j);
            lemma_before_irreflexive(k, 0);
            if j < i {
                before.lemma_position(j);
                assert(text_before(self.entries@[j].key@, self.entries@[i].key@));
            } else if j > i {
                before.lemma_position(j - 1);
                assert(text_before(self.entries@[i].key@, self.entries@[j].key@));
            }
        }
        assert(self@ =~= target);
    }

    /// Replacing the value of entry `i` is an insertion under its key.
    proof fn lemma_replaced(&self, before: FormFields, i: int)
        requires
            before.wf(),
            self.wf(),
            0 <= i < before.entries@.len(),
            self.entries@.len() == before.entries@.len(),
            self.entries@[i].key@ == before.entries@[i].key@,
            forall|j: int|
                0 <= j < before.entries@.len() && j != i ==> self.entries@[j]
                    == before.entries@[j],
        ensures
            self@ == before@.insert(self.entries@[i].key@, self.entries@[i].value@),
    {
        let k = self.entries@[i].key@;
        let target = before@.insert(k, self.entries@[i].value@);
        assert forall|x: Seq<char>| self@.contains_key(x) <==> target.contains_key(x) by {
            if self@.contains_key(x) {
                let j = self.position(x).unwrap();
                assert(before.entries@[j].key@ == x);
            }
            if target.contains_key(x) && x != k {
                let j = before.position(x).unwrap();
                assert(self.entries@[j].key@ == x);
            }
            if x == k {
                assert(self.entries@[i].key@ == x);
            }
        }
        assert forall|x: Seq<char>| self@.contains_key(x) implies self@[x] == target[x] by {
            let j = self.position(x).unwrap();
            self.lemma_position(j);
            if j != i {
                before.lemma_position(j);
                lemma_before_irreflexive(k, 0);
                if j < i {
                    assert(text_before(self.entries@[j].key@, self.entries@[i].key@));
                } else {
                    assert(text_before(self.entries@[i].key@, self.entries@[j].key@));
                }
            }
        }
        assert(self@ =~= target);
    }
}

} // verus!
