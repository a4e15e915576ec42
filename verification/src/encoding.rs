use vstd::prelude::*;

verus! {

/// The content-coding tokens the negotiator recognizes.
#[derive(Debug, PartialEq, Eq, Structural, Clone, Copy)]
pub enum Encoding {
    Gzip,
    Compress,
    Deflate,
    Br,
    Zstd,
    Dcb,
    Dcz,
    Identity,
    Any,
}

/// An encoding preference: a token and its quality weight, expressed in
/// thousandths so that `1000` stands for a quality of one.
#[derive(Debug, PartialEq, Eq, Structural, Clone, Copy)]
pub struct EncodingVal {
    pub encoding: Encoding,
    pub quality: u16,
}

/// The encoding named by a token, if any; tokens are matched exactly.
pub open spec fn spec_parse_encoding(t: Seq<char>) -> Option<Encoding> {
    if t == "gzip"@ {
        Some(Encoding::Gzip)
    } else if t == "compress"@ {
        Some(Encoding::Compress)
    } else if t == "deflate"@ {
        Some(Encoding::Deflate)
    } else if t == "br"@ {
        Some(Encoding::Br)
    } else if t == "zstd"@ {
        Some(Encoding::Zstd)
    } else if t == "dcb"@ {
        Some(Encoding::Dcb)
    } else if t == "dcz"@ {
        Some(Encoding::Dcz)
    } else if t == "identity"@ {
        Some(Encoding::Identity)
    } else if t == "*"@ {
        Some(Encoding::Any)
    } else {
        None
    }
}

/// The wire token of each encoding.
pub open spec fn spec_token(e: Encoding) -> Seq<char> {
    match e {
        Encoding::Gzip => "gzip"@,
        Encoding::Compress => "compress"@,
        Encoding::Deflate => "deflate"@,
        Encoding::Br => "br"@,
        Encoding::Zstd => "zstd"@,
        Encoding::Dcb => "dcb"@,
        Encoding::Dcz => "dcz"@,
        Encoding::Identity => "identity"@,
        Encoding::Any => "*"@,
    }
}

impl Encoding {
    /// Reads an encoding from its token.
    pub fn parse(t: &str) -> (r: Option<Encoding>)
        ensures
            r == spec_parse_encoding(t@),
    {
        if crate::strmap::str_eq(t, "gzip") {
            Some(Encoding::Gzip)
        } else if crate::strmap::str_eq(t, "compress") {
            Some(Encoding::Compress)
        } else if crate::strmap::str_eq(t, "deflate") {
            Some(Encoding::Deflate)
        } else if crate::strmap::str_eq(t, "br") {
            Some(Encoding::Br)
        } else if crate::strmap::str_eq(t, "zstd") {
            Some(Encoding::Zstd)
        } else if crate::strmap::str_eq(t, "dcb") {
            Some(Encoding::Dcb)
        } else if crate::strmap::str_eq(t, "dcz") {
            Some(Encoding::Dcz)
        } else if crate::strmap::str_eq(t, "identity") {
            Some(Encoding::Identity)
        } else if crate::strmap::str_eq(t, "*") {
            Some(Encoding::Any)
        } else {
            None
        }
    }

    /// The token under which this encoding is sent on the wire.
    pub fn token(&self) -> (r: String)
        ensures
            r@ == spec_token(*self),
    {
        match self {
            Encoding::Gzip => String::from_str("gzip"),
            Encoding::Compress => String::from_str("compress"),
            Encoding::Deflate => String::from_str("deflate"),
            Encoding::Br => String::from_str("br"),
            Encoding::Zstd => String::from_str("zstd"),
            Encoding::Dcb => String::from_str("dcb"),
            Encoding::Dcz => String::from_str("dcz"),
            Encoding::Identity => String::from_str("identity"),
            Encoding::Any => String::from_str("*"),
        }
    }
}

/// A character the token scanner accepts: ASCII word characters, `*`, `-`.
pub open spec fn is_tok_char(c: char) -> bool {
    ('a' <= c && c <= 'z') || ('A' <= c && c <= 'Z') || ('0' <= c && c <= '9') || c == '_' || c
        == '*' || c == '-'
}

/// Whitespace as the quality grammar skips it after a semicolon.
pub open spec fn is_space_char(c: char) -> bool {
    c == ' ' || c == '\t' || c == '\n' || c == '\r' || c == '\u{b}' || c == '\u{c}'
}

/// A decimal digit.
pub open spec fn is_q_digit(c: char) -> bool {
    '0' <= c && c <= '9'
}

/// The character classes the scanner takes maximal runs of.
pub open spec fn char_class(k: int, c: char) -> bool {
    if k == 0 {
        is_tok_char(c)
    } else if k == 1 {
        is_space_char(c)
    } else if k == 2 {
        is_q_digit(c)
    } else {
        c == '0'
    }
}

/// The length of the maximal prefix of `s` within class `k`.
pub open spec fn run_len(k: int, s: Seq<char>) -> int
    decreases s.len(),
{
    if s.len() > 0 && char_class(k, s[0]) {
        1 + run_len(k, s.drop_first())
    } else {
        0
    }
}

pub proof fn lemma_run_len(k: int, s: Seq<char>)
    ensures
        0 <= run_len(k, s) <= s.len(),
        forall|j: int| 0 <= j < run_len(k, s) ==> char_class(k, s[j]),
        run_len(k, s) < s.len() ==> !char_class(k, s[run_len(k, s)]),
    decreases s.len(),
{
    if s.len() > 0 && char_class(k, s[0]) {
        lemma_run_len(k, s.drop_first());
        assert(forall|j: int| 1 <= j < s.len() ==> s[j] == s.drop_first()[j - 1]);
    }
}

proof fn lemma_run_len_is(k: int, s: Seq<char>, i: int)
    requires
        0 <= i <= s.len(),
        forall|j: int| 0 <= j < i ==> char_class(k, s[j]),
        i < s.len() ==> !char_class(k, s[i]),
    ensures
        run_len(k, s) == i,
    decreases s.len(),
{
    if s.len() > 0 && char_class(k, s[0]) {
        lemma_run_len_is(k, s.drop_first(), i - 1);
    }
}

/// The digit of `d` at place `i`, or zero past its end.
pub open spec fn digit_at(d: Seq<char>, i: int) -> int {
    if 0 <= i < d.len() {
        d[i] as int - 48
    } else {
        0
    }
}

/// A fraction's first three digits read as thousandths.
pub open spec fn frac_thousandths(d: Seq<char>) -> int {
    digit_at(d, 0) * 100 + digit_at(d, 1) * 10 + digit_at(d, 2)
}

/// A quality number as the grammar allows it — `0`, `0.` digits, `1`, or
/// `1.` zeros — read greedily: how many characters it takes and its value
/// in thousandths. `None` when no quality number starts here.
pub open spec fn spec_q_value(s: Seq<char>) -> Option<(int, u16)> {
    if s.len() == 0 {
        None
    } else if s[0] == '0' {
        if s.len() >= 3 && s[1] == '.' && is_q_digit(s[2]) {
            let dl = run_len(2, s.skip(2));
            Some(((2 + dl), frac_thousandths(s.skip(2).take(dl)) as u16))
        } else {
            Some((1, 0u16))
        }
    } else if s[0] == '1' {
        if s.len() >= 3 && s[1] == '.' && s[2] == '0' {
            let zl = run_len(3, s.skip(2));
            Some(((2 + zl), 1000u16))
        } else {
            Some((1, 1000u16))
        }
    } else {
        None
    }
}

/// The quality suffix a token may carry: a semicolon, optional whitespace,
/// `q=`, then a quality number. How many characters it takes and the
/// quality, or `None` when the suffix is absent or malformed.
pub open spec fn spec_q_suffix(s: Seq<char>) -> Option<(int, u16)> {
    if s.len() == 0 || s[0] != ';' {
        None
    } else {
        let p = 1 + run_len(1, s.skip(1));
        if p + 1 >= s.len() {
            None
        } else if s[p] != 'q' || s[p + 1] != '=' {
            None
        } else {
            match spec_q_value(s.skip(p + 2)) {
                None => None,
                Some((used, q)) => Some((p + 2 + used, q)),
            }
        }
    }
}

proof fn lemma_q_value_bounds(s: Seq<char>)
    ensures
        spec_q_value(s) matches Some(u) ==> 0 < u.0 <= s.len(),
{
    if s.len() > 0 {
        lemma_run_len(2, s.skip(2));
        lemma_run_len(3, s.skip(2));
    }
}

proof fn lemma_q_suffix_bounds(s: Seq<char>)
    ensures
        spec_q_suffix(s) matches Some(u) ==> 0 < u.0 <= s.len(),
{
    if s.len() > 0 && s[0] == ';' {
        lemma_run_len(1, s.skip(1));
        let p = 1 + run_len(1, s.skip(1));
        if p + 1 < s.len() && s[p] == 'q' && s[p + 1] == '=' {
            lemma_run_len(2, s.skip(p + 2).skip(2));
            lemma_run_len(3, s.skip(p + 2).skip(2));
        }
    }
}

/// The entries an Accept-Encoding header yields: the scanner walks the
/// string, takes each maximal run of token characters as a token, reads a
/// quality suffix if one immediately follows (otherwise the quality is
/// one), and skips everything else.
pub open spec fn spec_scan(s: Seq<char>) -> Seq<(Seq<char>, u16)>
    decreases s.len(),
    via spec_scan_dec
{
    if s.len() == 0 {
        Seq::empty()
    } else if !is_tok_char(s[0]) {
        spec_scan(s.drop_first())
    } else {
        let tl = run_len(0, s);
        let tok = s.take(tl);
        let after = s.skip(tl);
        match spec_q_suffix(after) {
            Some((used, q)) => seq![(tok, q)] + spec_scan(after.skip(used)),
            None => seq![(tok, 1000u16)] + spec_scan(after),
        }
    }
}

#[via_fn]
proof fn spec_scan_dec(s: Seq<char>) {
    if s.len() > 0 && is_tok_char(s[0]) {
        lemma_run_len(0, s);
        lemma_q_suffix_bounds(s.skip(run_len(0, s)));
    }
}


/// Whether `c` is in scanner class `k`.
fn char_in_class(k: u8, c: char) -> (r: bool)
    ensures
        r == char_class(k as int, c),
{
    if k == 0 {
        ('a' <= c && c <= 'z') || ('A' <= c && c <= 'Z') || ('0' <= c && c <= '9') || c == '_'
            || c == '*' || c == '-'
    } else if k == 1 {
        c == ' ' || c == '\t' || c == '\n' || c == '\r' || c == '\u{b}' || c == '\u{c}'
    } else if k == 2 {
        '0' <= c && c <= '9'
    } else {
        c == '0'
    }
}

/// The end of the maximal run of class-`k` characters starting at `from`.
fn run_from(s: &str, from: usize, k: u8) -> (r: usize)
    requires
        from <= s@.len(),
    ensures
        from <= r <= s@.len(),
        r - from == run_len(k as int, s@.skip(from as int)),
{
    let n = s.unicode_len();
    let mut i = from;
    while i < n && char_in_class(k, s.get_char(i))
        invariant
            from <= i <= n,
            n == s@.len(),
            forall|j: int| from <= j < i ==> char_class(k as int, s@[j]),
        decreases n - i,
    {
        i = i + 1;
    }
    proof {
        let u = s@.skip(from as int);
        assert(forall|j: int| 0 <= j < u.len() ==> u[j] == s@[j + from]);
        lemma_run_len_is(k as int, u, i - from);
    }
    i
}

/// Reads a quality number, returning how many characters it takes and the
/// quality in thousandths.
fn q_value(s: &str) -> (r: Option<(usize, u16)>)
    ensures
        match r {
            Some(u) => spec_q_value(s@) == Some((u.0 as int, u.1)),
            None => spec_q_value(s@) is None,
        },
{
    let n = s.unicode_len();
    if n == 0 {
        return None;
    }
    let c0 = s.get_char(0);
    if c0 == '0' {
        if n >= 3 && s.get_char(1) == '.' && char_in_class(2, s.get_char(2)) {
            let de = run_from(s, 2, 2);
            proof {
                lemma_run_len(2, s@.skip(2));
                assert(forall|j: int| 0 <= j < s@.len() - 2 ==> s@.skip(2)[j] == s@[j + 2]);
            }
            let d0 = (s.get_char(2) as u32 - 48) as u16;
            let d1: u16 = if de > 3 {
                (s.get_char(3) as u32 - 48) as u16
            } else {
                0
            };
            let d2: u16 = if de > 4 {
                (s.get_char(4) as u32 - 48) as u16
            } else {
                0
            };
            let q = d0 * 100 + d1 * 10 + d2;
            proof {
                let d = s@.skip(2).take(de - 2);
                assert(forall|j: int| 0 <= j < d.len() ==> d[j] == s@[j + 2]);
                assert(q == frac_thousandths(d));
            }
            Some((de, q))
        } else {
            Some((1, 0))
        }
    } else if c0 == '1' {
        if n >= 3 && s.get_char(1) == '.' && s.get_char(2) == '0' {
            let ze = run_from(s, 2, 3);
            Some((ze, 1000))
        } else {
            Some((1, 1000))
        }
    } else {
        None
    }
}

/// Reads a quality suffix — `;`, optional whitespace, `q=`, a quality
/// number — returning how many characters it takes and the quality.
fn q_suffix(s: &str) -> (r: Option<(usize, u16)>)
    ensures
        match r {
            Some(u) => spec_q_suffix(s@) == Some((u.0 as int, u.1)),
            None => spec_q_suffix(s@) is None,
        },
{
    let n = s.unicode_len();
    if n == 0 {
        return None;
    }
    if s.get_char(0) != ';' {
        return None;
    }
    let p = run_from(s, 1, 1);
    if p >= n || p + 1 >= n {
        return None;
    }
    if s.get_char(p) != 'q' {
        return None;
    }
    if s.get_char(p + 1) != '=' {
        return None;
    }
    let v = s.substring_char(p + 2, n);
    proof {
        assert(v@ =~= s@.skip(p + 2));
    }
    match q_value(v) {
        None => None,
        Some((used, q)) => {
            proof {
                lemma_q_value_bounds(v@);
                assert(spec_q_value(s@.skip(p + 2)) == Some((used as int, q)));
            }
            Some((p + 2 + used, q))
        },
    }
}

/// Scans an Accept-Encoding header value into its raw entries: each token
/// the scanner finds, with its quality in thousandths (one when absent).
pub fn scan_accept_encoding(header: &str) -> (r: Vec<(String, u16)>)
    ensures
        r@.len() == spec_scan(header@).len(),
        forall|i: int|
            0 <= i < r@.len() ==> r@[i].0@ == spec_scan(header@)[i].0 && r@[i].1 == spec_scan(
                header@,
            )[i].1,
{
    let n = header.unicode_len();
    let mut out: Vec<(String, u16)> = Vec::new();
    let ghost mut done: Seq<(Seq<char>, u16)> = Seq::empty();
    proof {
        assert(header@.skip(0) =~= header@);
    }
    let mut pos: usize = 0;
    while pos < n
        invariant
            pos <= n,
            n == header@.len(),
            done.len() == out@.len(),
            forall|i: int|
                0 <= i < done.len() ==> out@[i].0@ == done[i].0 && out@[i].1 == done[i].1,
            spec_scan(header@) == done + spec_scan(header@.skip(pos as int)),
        decreases n - pos,
    {
        let c = header.get_char(pos);
        if !char_in_class(0, c) {
            proof {
                assert(header@.skip(pos as int).drop_first() =~= header@.skip(pos + 1));
            }
            pos = pos + 1;
        } else {
            let te = run_from(header, pos, 0);
            proof {
                lemma_run_len(0, header@.skip(pos as int));
            }
            let tok = header.substring_char(pos, te).to_owned();
            let after = header.substring_char(te, n);
            proof {
                assert(after@ =~= header@.skip(pos as int).skip(te - pos));
                assert(after@ =~= header@.skip(te as int));
                assert(tok@ =~= header@.skip(pos as int).take(te - pos));
            }
            let qr = q_suffix(after);
            let used: usize;
            let q: u16;
            match qr {
                Some(u) => {
                    used = u.0;
                    q = u.1;
                },
                None => {
                    used = 0;
                    q = 1000;
                },
            }
            proof {
                lemma_q_suffix_bounds(after@);
            }
            let ghost pos0 = pos as int;
            out.push((tok, q));
            pos = te + used;
            proof {
                let u0 = header@.skip(pos0);
                done = done.push((u0.take(te - pos0), q));
                assert(after@.skip(used as int) =~= header@.skip(pos as int));
                assert(spec_scan(header@) == done + spec_scan(header@.skip(pos as int)));
            }
        }
    }
    proof {
        assert(spec_scan(header@.skip(n as int)) =~= Seq::<(Seq<char>, u16)>::empty());
        assert(spec_scan(header@) =~= done);
    }
    out
}


/// No two preferences name the same encoding.
pub open spec fn distinct_encodings(m: Seq<EncodingVal>) -> bool {
    forall|i: int, j: int| 0 <= i < j < m.len() ==> m[i].encoding != m[j].encoding
}

/// First-match lookup by encoding.
pub open spec fn enc_lookup(m: Seq<EncodingVal>, e: Encoding) -> Option<EncodingVal>
    decreases m.len(),
{
    if m.len() == 0 {
        None
    } else if m[0].encoding == e {
        Some(m[0])
    } else {
        enc_lookup(m.drop_first(), e)
    }
}

/// Insertion keyed by encoding, overwriting in place; duplicates overwrite.
pub open spec fn enc_insert(m: Seq<EncodingVal>, v: EncodingVal) -> Seq<EncodingVal>
    decreases m.len(),
{
    if m.len() == 0 {
        seq![v]
    } else if m[0].encoding == v.encoding {
        seq![v] + m.drop_first()
    } else {
        seq![m[0]] + enc_insert(m.drop_first(), v)
    }
}

proof fn lemma_enc_lookup_found(m: Seq<EncodingVal>, e: Encoding, i: int)
    requires
        0 <= i < m.len(),
        m[i].encoding == e,
        forall|j: int| 0 <= j < i ==> m[j].encoding != e,
    ensures
        enc_lookup(m, e) == Some(m[i]),
    decreases m.len(),
{
    if i > 0 {
        lemma_enc_lookup_found(m.drop_first(), e, i - 1);
    }
}

proof fn lemma_enc_lookup_absent(m: Seq<EncodingVal>, e: Encoding)
    requires
        forall|j: int| 0 <= j < m.len() ==> m[j].encoding != e,
    ensures
        enc_lookup(m, e) is None,
    decreases m.len(),
{
    if m.len() > 0 {
        lemma_enc_lookup_absent(m.drop_first(), e);
    }
}

proof fn lemma_enc_insert_keys(m: Seq<EncodingVal>, v: EncodingVal, j: int)
    requires
        0 <= j < enc_insert(m, v).len(),
    ensures
        enc_insert(m, v)[j].encoding == v.encoding || exists|i: int|
            0 <= i < m.len() && m[i].encoding == enc_insert(m, v)[j].encoding,
    decreases m.len(),
{
    if m.len() == 0 {
    } else if m[0].encoding == v.encoding {
        if j > 0 {
            assert(enc_insert(m, v)[j] == m[j]);
        }
    } else {
        if j > 0 {
            lemma_enc_insert_keys(m.drop_first(), v, j - 1);
            assert(enc_insert(m, v)[j] == enc_insert(m.drop_first(), v)[j - 1]);
        }
    }
}

proof fn lemma_enc_insert_distinct(m: Seq<EncodingVal>, v: EncodingVal)
    requires
        distinct_encodings(m),
    ensures
        distinct_encodings(enc_insert(m, v)),
    decreases m.len(),
{
    if m.len() == 0 {
    } else if m[0].encoding == v.encoding {
        let r = enc_insert(m, v);
        assert(forall|j: int| 1 <= j < r.len() ==> r[j] == m[j]);
    } else {
        assert(distinct_encodings(m.drop_first())) by {
            assert(forall|i: int, j: int|
                0 <= i < j < m.drop_first().len() ==> m.drop_first()[i] == m[i + 1]
                    && m.drop_first()[j] == m[j + 1]);
        }
        lemma_enc_insert_distinct(m.drop_first(), v);
        let r = enc_insert(m, v);
        let rr = enc_insert(m.drop_first(), v);
        assert(forall|j: int| 1 <= j < r.len() ==> r[j] == rr[j - 1]);
        assert forall|j: int| 1 <= j < r.len() implies r[j].encoding != m[0].encoding by {
            lemma_enc_insert_keys(m.drop_first(), v, j - 1);
        }
    }
}

proof fn lemma_enc_insert_at(m: Seq<EncodingVal>, v: EncodingVal, i: int)
    requires
        0 <= i < m.len(),
        m[i].encoding == v.encoding,
        forall|j: int| 0 <= j < i ==> m[j].encoding != v.encoding,
    ensures
        enc_insert(m, v) == m.update(i, v),
    decreases m.len(),
{
    if i == 0 {
        assert(enc_insert(m, v) =~= m.update(0, v));
    } else {
        lemma_enc_insert_at(m.drop_first(), v, i - 1);
        assert(enc_insert(m, v) =~= m.update(i, v));
    }
}

proof fn lemma_enc_insert_absent(m: Seq<EncodingVal>, v: EncodingVal)
    requires
        forall|j: int| 0 <= j < m.len() ==> m[j].encoding != v.encoding,
    ensures
        enc_insert(m, v) == m.push(v),
    decreases m.len(),
{
    if m.len() == 0 {
        assert(enc_insert(m, v) =~= m.push(v));
    } else {
        lemma_enc_insert_absent(m.drop_first(), v);
        assert(enc_insert(m, v) =~= m.push(v));
    }
}

/// A set of encoding preferences keyed by encoding: at most one entry per
/// encoding, a repeated insertion overwriting in place.
#[derive(Debug)]
pub struct EncodingMap {
    entries: Vec<EncodingVal>,
}

impl View for EncodingMap {
    type V = Seq<EncodingVal>;

    closed spec fn view(&self) -> Seq<EncodingVal> {
        self.entries@
    }
}

impl EncodingMap {
    pub fn new() -> (r: EncodingMap)
        ensures
            r@ == Seq::<EncodingVal>::empty(),
            distinct_encodings(r@),
    {
        let r = EncodingMap { entries: Vec::new() };
        proof {
            assert(r@ =~= Seq::<EncodingVal>::empty());
        }
        r
    }

    pub fn len(&self) -> (r: usize)
        ensures
            r == self@.len(),
    {
        self.entries.len()
    }

    /// Replaces the entry for the same encoding if present, else appends.
    pub fn insert(&mut self, v: EncodingVal)
        ensures
            final(self)@ == enc_insert(old(self)@, v),
            distinct_encodings(old(self)@) ==> distinct_encodings(final(self)@),
    {
        let ghost m0 = self@;
        let mut i: usize = 0;
        while i < self.entries.len()
            invariant
                i <= self.entries.len(),
                self@ == m0,
                m0 == old(self)@,
                forall|j: int| 0 <= j < i ==> m0[j].encoding != v.encoding,
            decreases self.entries.len() - i,
        {
            if self.entries[i].encoding == v.encoding {
                self.entries.set(i, v);
                proof {
                    lemma_enc_insert_at(m0, v, i as int);
                    assert(self@ =~= m0.update(i as int, v));
                    if distinct_encodings(m0) {
                        lemma_enc_insert_distinct(m0, v);
                    }
                }
                return ;
            }
            i = i + 1;
        }
        self.entries.push(v);
        proof {
            lemma_enc_insert_absent(m0, v);
            assert(self@ =~= m0.push(v));
            if distinct_encodings(m0) {
                lemma_enc_insert_distinct(m0, v);
            }
        }
    }

    /// Whether a preference for `e` is present.
    pub fn contains_key(&self, e: Encoding) -> (r: bool)
        ensures
            r == (enc_lookup(self@, e) is Some),
    {
        let mut i: usize = 0;
        while i < self.entries.len()
            invariant
                i <= self.entries.len(),
                forall|j: int| 0 <= j < i ==> self@[j].encoding != e,
            decreases self.entries.len() - i,
        {
            if self.entries[i].encoding == e {
                proof {
                    lemma_enc_lookup_found(self@, e, i as int);
                }
                return true;
            }
            i = i + 1;
        }
        proof {
            lemma_enc_lookup_absent(self@, e);
        }
        false
    }

    /// The preference recorded for `e`, if any.
    pub fn get(&self, e: Encoding) -> (r: Option<EncodingVal>)
        ensures
            r == enc_lookup(self@, e),
    {
        let mut i: usize = 0;
        while i < self.entries.len()
            invariant
                i <= self.entries.len(),
                forall|j: int| 0 <= j < i ==> self@[j].encoding != e,
            decreases self.entries.len() - i,
        {
            if self.entries[i].encoding == e {
                proof {
                    lemma_enc_lookup_found(self@, e, i as int);
                }
                return Some(self.entries[i]);
            }
            i = i + 1;
        }
        proof {
            lemma_enc_lookup_absent(self@, e);
        }
        None
    }
}

/// The preference set that a sequence of scanned entries builds up over
/// `acc`: known tokens are inserted with their quality, unknown tokens are
/// skipped.
pub open spec fn spec_add_prefs(
    acc: Seq<EncodingVal>,
    entries: Seq<(Seq<char>, u16)>,
) -> Seq<EncodingVal>
    decreases entries.len(),
{
    if entries.len() == 0 {
        acc
    } else {
        let rest = entries.drop_first();
        match spec_parse_encoding(entries[0].0) {
            Some(e) => spec_add_prefs(
                enc_insert(acc, EncodingVal { encoding: e, quality: entries[0].1 }),
                rest,
            ),
            None => spec_add_prefs(acc, rest),
        }
    }
}

/// The preference set an Accept-Encoding header value denotes.
pub open spec fn spec_prefs(h: Seq<char>) -> Seq<EncodingVal> {
    spec_add_prefs(Seq::empty(), spec_scan(h))
}

/// Parses an Accept-Encoding header value into the preference set it
/// denotes: each recognized token with its quality weight, duplicates
/// overwriting, unknown tokens skipped so one bad entry does not spoil
/// the rest.
pub fn parse_accept_encoding(header: &str) -> (r: EncodingMap)
    ensures
        r@ == spec_prefs(header@),
        distinct_encodings(r@),
{
    let entries = scan_accept_encoding(header);
    let ghost full = spec_scan(header@);
    let mut map = EncodingMap::new();
    let n = entries.len();
    let mut i: usize = 0;
    proof {
        assert(full.skip(0) =~= full);
    }
    while i < n
        invariant
            i <= n,
            n == entries@.len(),
            n == full.len(),
            forall|j: int|
                0 <= j < n ==> entries@[j].0@ == full[j].0 && entries@[j].1 == full[j].1,
            spec_prefs(header@) == spec_add_prefs(map@, full.skip(i as int)),
            distinct_encodings(map@),
        decreases n - i,
    {
        proof {
            assert(full.skip(i as int)[0] == full[i as int]);
            assert(full.skip(i as int).drop_first() =~= full.skip(i + 1));
        }
        let tok: &str = entries[i].0.as_str();
        let q = entries[i].1;
        match Encoding::parse(tok) {
            Some(e) => {
                map.insert(EncodingVal { encoding: e, quality: q });
            },
            None => {},
        }
        i = i + 1;
    }
    proof {
        assert(full.skip(n as int) =~= Seq::<(Seq<char>, u16)>::empty());
    }
    map
}


} // verus!
