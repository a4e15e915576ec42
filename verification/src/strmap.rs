use vstd::prelude::*;

verus! {

/// The character-sequence view of one `(key, value)` entry.
pub type EntryView = (Seq<char>, Seq<char>);

/// First-match lookup in an association sequence.
pub open spec fn lookup(m: Seq<EntryView>, k: Seq<char>) -> Option<Seq<char>>
    decreases m.len(),
{
    if m.len() == 0 {
        None
    } else if m[0].0 == k {
        Some(m[0].1)
    } else {
        lookup(m.drop_first(), k)
    }
}

/// Insertion with last-write-wins semantics: the first entry with the same
/// key is replaced in place; otherwise the new entry goes to the end.
pub open spec fn spec_insert(m: Seq<EntryView>, k: Seq<char>, v: Seq<char>) -> Seq<EntryView>
    decreases m.len(),
{
    if m.len() == 0 {
        seq![(k, v)]
    } else if m[0].0 == k {
        seq![(k, v)] + m.drop_first()
    } else {
        seq![m[0]] + spec_insert(m.drop_first(), k, v)
    }
}

/// No two entries share a key.
pub open spec fn distinct_keys(m: Seq<EntryView>) -> bool {
    forall|i: int, j: int| 0 <= i < j < m.len() ==> m[i].0 != m[j].0
}

/// ASCII lowercasing of one character; anything outside `A`..`Z` is kept.
pub open spec fn lower_char(c: char) -> char {
    if 'A' <= c && c <= 'Z' {
        ((c as u8 + 32) as u8) as char
    } else {
        c
    }
}

/// ASCII lowercasing of a character sequence.
pub open spec fn lower_chars(s: Seq<char>) -> Seq<char> {
    Seq::new(s.len(), |i: int| lower_char(s[i]))
}

pub proof fn lemma_lookup_found(m: Seq<EntryView>, k: Seq<char>, i: int)
    requires
        0 <= i < m.len(),
        m[i].0 == k,
        forall|j: int| 0 <= j < i ==> m[j].0 != k,
    ensures
        lookup(m, k) == Some(m[i].1),
    decreases m.len(),
{
    if i > 0 {
        lemma_lookup_found(m.drop_first(), k, i - 1);
    }
}

pub proof fn lemma_lookup_absent(m: Seq<EntryView>, k: Seq<char>)
    requires
        forall|j: int| 0 <= j < m.len() ==> m[j].0 != k,
    ensures
        lookup(m, k) is None,
    decreases m.len(),
{
    if m.len() > 0 {
        lemma_lookup_absent(m.drop_first(), k);
    }
}

/// An ordered string-to-string mapping with at most one value per key;
/// inserting under an existing key overwrites in place.
#[derive(Debug)]
pub struct StrMap {
    entries: Vec<(String, String)>,
}

impl View for StrMap {
    type V = Seq<EntryView>;

    closed spec fn view(&self) -> Seq<EntryView> {
        self.entries@.map_values(|p: (String, String)| (p.0@, p.1@))
    }
}

impl StrMap {
    pub fn new() -> (r: StrMap)
        ensures
            r@ == Seq::<EntryView>::empty(),
            distinct_keys(r@),
    {
        let r = StrMap { entries: Vec::new() };
        proof {
            assert(r@ =~= Seq::<EntryView>::empty());
        }
        r
    }

    pub fn len(&self) -> (r: usize)
        ensures
            r == self@.len(),
    {
        self.entries.len()
    }

    pub fn key_at(&self, i: usize) -> (r: &str)
        requires
            i < self@.len(),
        ensures
            r@ == self@[i as int].0,
    {
        self.entries[i].0.as_str()
    }

    pub fn value_at(&self, i: usize) -> (r: &str)
        requires
            i < self@.len(),
        ensures
            r@ == self@[i as int].1,
    {
        self.entries[i].1.as_str()
    }

    /// Replaces the value under `k` if present, else appends the entry.
    pub fn insert(&mut self, k: String, v: String)
        ensures
            final(self)@ == spec_insert(old(self)@, k@, v@),
            distinct_keys(old(self)@) ==> distinct_keys(final(self)@),
    {
        let ghost m0 = self@;
        let mut i: usize = 0;
        while i < self.entries.len()
            invariant
                i <= self.entries.len(),
                self@ == m0,
                m0 == old(self)@,
                forall|j: int| 0 <= j < i ==> m0[j].0 != k@,
            decreases self.entries.len() - i,
        {
            if str_eq(self.entries[i].0.as_str(), k.as_str()) {
                let ghost kv = k@;
                let ghost vv = v@;
                self.entries.set(i, (k, v));
                proof {
                    lemma_insert_at(m0, kv, vv, i as int);
                    assert(self@ =~= m0.update(i as int, (kv, vv)));
                    if distinct_keys(m0) {
                        lemma_insert_distinct(m0, kv, vv);
                    }
                }
                return ;
            }
            i = i + 1;
        }
        self.entries.push((k, v));
        proof {
            lemma_insert_absent(m0, k@, v@);
            assert(self@ =~= m0.push((k@, v@)));
            if distinct_keys(m0) {
                lemma_insert_distinct(m0, k@, v@);
            }
        }
    }

    /// Exact-key lookup.
    pub fn get(&self, k: &str) -> (r: Option<&str>)
        ensures
            match r {
                Some(v) => lookup(self@, k@) == Some(v@),
                None => lookup(self@, k@) is None,
            },
    {
        let mut i: usize = 0;
        while i < self.entries.len()
            invariant
                i <= self.entries.len(),
                forall|j: int| 0 <= j < i ==> self@[j].0 != k@,
            decreases self.entries.len() - i,
        {
            if str_eq(self.entries[i].0.as_str(), k) {
                proof {
                    lemma_lookup_found(self@, k@, i as int);
                }
                return Some(self.entries[i].1.as_str());
            }
            i = i + 1;
        }
        proof {
            lemma_lookup_absent(self@, k@);
        }
        None
    }

    /// Lookup of the ASCII-lowercased query key.
    pub fn get_lowered(&self, k: &str) -> (r: Option<&str>)
        ensures
            match r {
                Some(v) => lookup(self@, lower_chars(k@)) == Some(v@),
                None => lookup(self@, lower_chars(k@)) is None,
            },
    {
        let mut i: usize = 0;
        while i < self.entries.len()
            invariant
                i <= self.entries.len(),
                forall|j: int| 0 <= j < i ==> self@[j].0 != lower_chars(k@),
            decreases self.entries.len() - i,
        {
            if str_eq_lowered(self.entries[i].0.as_str(), k) {
                proof {
                    lemma_lookup_found(self@, lower_chars(k@), i as int);
                }
                return Some(self.entries[i].1.as_str());
            }
            i = i + 1;
        }
        proof {
            lemma_lookup_absent(self@, lower_chars(k@));
        }
        None
    }
}

proof fn lemma_insert_at(m: Seq<EntryView>, k: Seq<char>, v: Seq<char>, i: int)
    requires
        0 <= i < m.len(),
        m[i].0 == k,
        forall|j: int| 0 <= j < i ==> m[j].0 != k,
    ensures
        spec_insert(m, k, v) == m.update(i, (k, v)),
    decreases m.len(),
{
    if i == 0 {
        assert(spec_insert(m, k, v) =~= m.update(0, (k, v)));
    } else {
        lemma_insert_at(m.drop_first(), k, v, i - 1);
        assert(spec_insert(m, k, v) =~= m.update(i, (k, v)));
    }
}

pub proof fn lemma_insert_absent(m: Seq<EntryView>, k: Seq<char>, v: Seq<char>)
    requires
        forall|j: int| 0 <= j < m.len() ==> m[j].0 != k,
    ensures
        spec_insert(m, k, v) == m.push((k, v)),
    decreases m.len(),
{
    if m.len() == 0 {
        assert(spec_insert(m, k, v) =~= m.push((k, v)));
    } else {
        lemma_insert_absent(m.drop_first(), k, v);
        assert(spec_insert(m, k, v) =~= m.push((k, v)));
    }
}

pub proof fn lemma_insert_distinct(m: Seq<EntryView>, k: Seq<char>, v: Seq<char>)
    requires
        distinct_keys(m),
    ensures
        distinct_keys(spec_insert(m, k, v)),
        lookup(spec_insert(m, k, v), k) == Some(v),
    decreases m.len(),
{
    if m.len() == 0 {
        let r = spec_insert(m, k, v);
        assert(r[0] == (k, v));
        assert(lookup(r, k) == Some(v));
    } else if m[0].0 == k {
        let r = spec_insert(m, k, v);
        assert(r[0] == (k, v));
        assert(lookup(r, k) == Some(v));
        assert(forall|j: int| 1 <= j < r.len() ==> r[j] == m[j]);
        assert(forall|j: int| 1 <= j < r.len() ==> r[j].0 != k);
    } else {
        assert(distinct_keys(m.drop_first())) by {
            assert(forall|i: int, j: int|
                0 <= i < j < m.drop_first().len() ==> m.drop_first()[i] == m[i + 1]
                    && m.drop_first()[j] == m[j + 1]);
        }
        lemma_insert_distinct(m.drop_first(), k, v);
        let r = spec_insert(m, k, v);
        let rr = spec_insert(m.drop_first(), k, v);
        assert(forall|j: int| 1 <= j < r.len() ==> r[j] == rr[j - 1]);
        assert forall|j: int| 1 <= j < r.len() implies r[j].0 != m[0].0 by {
            lemma_insert_keys(m.drop_first(), k, v, j - 1);
        }
        assert(r[0] == m[0]);
        assert(r.drop_first() =~= rr);
        assert(lookup(r, k) == lookup(rr, k));
    }
}

/// Every key of `spec_insert(m, k, v)` is `k` or a key of `m`.
proof fn lemma_insert_keys(m: Seq<EntryView>, k: Seq<char>, v: Seq<char>, j: int)
    requires
        0 <= j < spec_insert(m, k, v).len(),
    ensures
        spec_insert(m, k, v)[j].0 == k || exists|i: int|
            0 <= i < m.len() && m[i].0 == spec_insert(m, k, v)[j].0,
    decreases m.len(),
{
    if m.len() == 0 {
    } else if m[0].0 == k {
        if j > 0 {
            assert(spec_insert(m, k, v)[j] == m[j]);
        }
    } else {
        if j > 0 {
            lemma_insert_keys(m.drop_first(), k, v, j - 1);
            assert(spec_insert(m, k, v)[j] == spec_insert(m.drop_first(), k, v)[j - 1]);
        }
    }
}

/// Character-for-character string equality.
pub fn str_eq(a: &str, b: &str) -> (r: bool)
    ensures
        r == (a@ == b@),
{
    let n = a.unicode_len();
    let m = b.unicode_len();
    if n != m {
        return false;
    }
    let mut i: usize = 0;
    while i < n
        invariant
            i <= n,
            n == a@.len(),
            n == b@.len(),
            forall|j: int| 0 <= j < i ==> a@[j] == b@[j],
        decreases n - i,
    {
        if a.get_char(i) != b.get_char(i) {
            return false;
        }
        i = i + 1;
    }
    proof {
        assert(a@ =~= b@);
    }
    true
}

/// ASCII lowercasing of one character.
pub fn char_to_lower(c: char) -> (r: char)
    ensures
        r == lower_char(c),
{
    let v = c as u32;
    if 65 <= v && v <= 90 {
        ((v + 32) as u8) as char
    } else {
        c
    }
}

/// Whether `a` equals the ASCII-lowercased form of `b`.
pub fn str_eq_lowered(a: &str, b: &str) -> (r: bool)
    ensures
        r == (a@ == lower_chars(b@)),
{
    let n = a.unicode_len();
    let m = b.unicode_len();
    if n != m {
        return false;
    }
    let mut i: usize = 0;
    while i < n
        invariant
            i <= n,
            n == a@.len(),
            n == b@.len(),
            forall|j: int| 0 <= j < i ==> a@[j] == lower_char(b@[j]),
        decreases n - i,
    {
        if a.get_char(i) != char_to_lower(b.get_char(i)) {
            return false;
        }
        i = i + 1;
    }
    proof {
        assert(a@ =~= lower_chars(b@));
    }
    true
}

} // verus!
