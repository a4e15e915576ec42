use vstd::prelude::*;
use vstd::utf8::{decode_utf8, encode_utf8, valid_utf8};

use crate::Response;
use crate::method::{bytes_eq, spec_parse_method, Method};
use crate::request::Request;
use crate::strmap::{distinct_keys, lookup, spec_insert, EntryView, StrMap};

verus! {

/// The decimal digits of `n`, most significant first, as ASCII bytes.
pub open spec fn dec_bytes(n: nat) -> Seq<u8>
    decreases n,
{
    if n < 10 {
        seq![(n + 48) as u8]
    } else {
        dec_bytes(n / 10) + seq![((n % 10) + 48) as u8]
    }
}

/// The decimal digits of `n`, most significant first, as characters.
pub open spec fn dec_chars(n: nat) -> Seq<char>
    decreases n,
{
    if n < 10 {
        seq![(((n + 48) as u8) as char)]
    } else {
        dec_chars(n / 10) + seq![((((n % 10) + 48) as u8) as char)]
    }
}

/// The bytes of one serialized header line, `Key: Value` plus CRLF.
pub open spec fn spec_header_line(e: EntryView) -> Seq<u8> {
    encode_utf8(e.0) + encode_utf8(": "@) + encode_utf8(e.1) + encode_utf8("\r\n"@)
}

/// The bytes of a header block: one line per entry, in entry order.
pub open spec fn spec_header_lines(hs: Seq<EntryView>) -> Seq<u8>
    decreases hs.len(),
{
    if hs.len() == 0 {
        Seq::empty()
    } else {
        spec_header_line(hs[0]) + spec_header_lines(hs.drop_first())
    }
}

/// The wire form of a response: the status line, the header lines in
/// mapping order, then either a Content-Length header, a blank line and
/// the body, or just the blank line when there is no body.
pub open spec fn spec_encode(
    code: u16,
    msg: Seq<char>,
    hs: Seq<EntryView>,
    content: Option<Seq<u8>>,
) -> Seq<u8> {
    encode_utf8("HTTP/1.1 "@) + dec_bytes(code as nat) + encode_utf8(" "@) + encode_utf8(msg)
        + encode_utf8("\r\n"@) + spec_header_lines(hs) + (match content {
        Some(c) => encode_utf8("Content-Length: "@) + dec_bytes(c.len()) + encode_utf8("\r\n"@)
            + encode_utf8("\r\n"@) + c,
        None => encode_utf8("\r\n"@),
    })
}

/// The view of an optional body.
pub open spec fn opt_view(content: Option<Vec<u8>>) -> Option<Seq<u8>> {
    match content {
        Some(c) => Some(c@),
        None => None,
    }
}

/// Appends the UTF-8 bytes of a string.
fn push_str_bytes(out: &mut Vec<u8>, s: &str)
    ensures
        final(out)@ == old(out)@ + encode_utf8(s@),
{
    out.extend_from_slice(s.as_bytes());
}

/// Appends the decimal digits of `n`.
fn push_dec(out: &mut Vec<u8>, n: usize)
    ensures
        final(out)@ == old(out)@ + dec_bytes(n as nat),
    decreases n,
{
    if n < 10 {
        out.push((n as u8) + 48);
        proof {
            assert(out@ =~= old(out)@ + dec_bytes(n as nat));
        }
    } else {
        push_dec(out, n / 10);
        out.push(((n % 10) as u8) + 48);
        proof {
            assert(out@ =~= old(out)@ + dec_bytes(n as nat));
        }
    }
}

proof fn lemma_header_lines_push(hs: Seq<EntryView>, e: EntryView)
    ensures
        spec_header_lines(hs.push(e)) == spec_header_lines(hs) + spec_header_line(e),
    decreases hs.len(),
{
    reveal_with_fuel(spec_header_lines, 3);
    if hs.len() == 0 {
        assert(hs.push(e)[0] == e);
        assert(hs.push(e).drop_first() =~= Seq::empty());
        assert(spec_header_lines(hs.push(e)) =~= spec_header_lines(hs) + spec_header_line(e));
    } else {
        lemma_header_lines_push(hs.drop_first(), e);
        assert(hs.push(e)[0] == hs[0]);
        assert(hs.push(e).drop_first() =~= hs.drop_first().push(e));
        assert(spec_header_lines(hs.push(e)) =~= spec_header_lines(hs) + spec_header_line(e));
    }
}

/// Serializes a response into its HTTP/1.1 wire bytes.
pub fn serialize_response(response: &Response) -> (r: Vec<u8>)
    ensures
        r@ == spec_encode(
            response.status.code_num,
            response.status.message@,
            response.headers@,
            opt_view(response.content),
        ),
{
    let mut out: Vec<u8> = Vec::new();
    push_str_bytes(&mut out, "HTTP/1.1 ");
    push_dec(&mut out, response.status.code_num as usize);
    push_str_bytes(&mut out, " ");
    push_str_bytes(&mut out, response.status.message.as_str());
    push_str_bytes(&mut out, "\r\n");
    let ghost status_part = out@;

    let n = response.headers.len();
    let mut i: usize = 0;
    while i < n
        invariant
            i <= n,
            n == response.headers@.len(),
            out@ == status_part + spec_header_lines(response.headers@.take(i as int)),
        decreases n - i,
    {
        push_str_bytes(&mut out, response.headers.key_at(i));
        push_str_bytes(&mut out, ": ");
        push_str_bytes(&mut out, response.headers.value_at(i));
        push_str_bytes(&mut out, "\r\n");
        proof {
            let hs = response.headers@;
            lemma_header_lines_push(hs.take(i as int), hs[i as int]);
            assert(hs.take(i + 1) =~= hs.take(i as int).push(hs[i as int]));
            assert(out@ =~= status_part + spec_header_lines(hs.take(i + 1)));
        }
        i = i + 1;
    }
    proof {
        assert(response.headers@.take(n as int) =~= response.headers@);
    }

    match &response.content {
        Some(c) => {
            push_str_bytes(&mut out, "Content-Length: ");
            push_dec(&mut out, c.len());
            push_str_bytes(&mut out, "\r\n");
            push_str_bytes(&mut out, "\r\n");
            out.extend_from_slice(c.as_slice());
        },
        None => {
            push_str_bytes(&mut out, "\r\n");
        },
    }
    proof {
        assert(out@ =~= spec_encode(
            response.status.code_num,
            response.status.message@,
            response.headers@,
            opt_view(response.content),
        ));
    }
    out
}

/// Why a request failed to decode; every kind is answered with a 400.
#[derive(Debug, PartialEq, Eq, Structural, Clone, Copy)]
pub enum DecodeError {
    /// The start line does not have exactly three space-separated tokens.
    BadStartLine,
    /// The method token is neither `GET` nor `POST`.
    UnknownMethod,
    /// The version token is not `HTTP/1.1`.
    UnsupportedVersion,
    /// The target token is not UTF-8 text.
    TargetNotText,
    /// A header line has no colon.
    MalformedHeader,
    /// A header key or value is not UTF-8 text.
    HeaderNotText,
    /// A Content-Length value is not a decimal number that fits in `usize`.
    BadContentLength,
}

/// ASCII whitespace, the bytes that trimming removes.
pub open spec fn is_ws(b: u8) -> bool {
    b == 9 || b == 10 || b == 12 || b == 13 || b == 32
}

/// ASCII lowercasing of one byte.
pub open spec fn lower_u8(b: u8) -> u8 {
    if 65 <= b && b <= 90 {
        (b + 32) as u8
    } else {
        b
    }
}

/// ASCII lowercasing of a byte sequence.
pub open spec fn lower_bytes(s: Seq<u8>) -> Seq<u8> {
    Seq::new(s.len(), |i: int| lower_u8(s[i]))
}

/// The first index of `b` in `s`, or `s.len()` if absent.
pub open spec fn find_byte(s: Seq<u8>, b: u8) -> int
    decreases s.len(),
{
    if s.len() == 0 {
        0
    } else if s[0] == b {
        0
    } else {
        1 + find_byte(s.drop_first(), b)
    }
}

pub proof fn lemma_find_byte(s: Seq<u8>, b: u8)
    ensures
        0 <= find_byte(s, b) <= s.len(),
        find_byte(s, b) < s.len() ==> s[find_byte(s, b)] == b,
        forall|j: int| 0 <= j < find_byte(s, b) ==> s[j] != b,
    decreases s.len(),
{
    if s.len() > 0 && s[0] != b {
        lemma_find_byte(s.drop_first(), b);
        assert(forall|j: int| 1 <= j < s.len() ==> s[j] == s.drop_first()[j - 1]);
    }
}

proof fn lemma_find_byte_is(s: Seq<u8>, b: u8, i: int)
    requires
        0 <= i <= s.len(),
        i < s.len() ==> s[i] == b,
        forall|j: int| 0 <= j < i ==> s[j] != b,
        i == s.len() ==> forall|j: int| 0 <= j < s.len() ==> s[j] != b,
    ensures
        find_byte(s, b) == i,
    decreases s.len(),
{
    if s.len() > 0 && s[0] != b {
        lemma_find_byte_is(s.drop_first(), b, i - 1);
    }
}

/// The first index of `b` in `s`, or the length if absent.
pub fn find_u8(s: &[u8], b: u8) -> (r: usize)
    ensures
        r == find_byte(s@, b),
{
    let n = s.len();
    let mut i: usize = 0;
    while i < n
        invariant
            i <= n,
            n == s@.len(),
            forall|j: int| 0 <= j < i ==> s@[j] != b,
        decreases n - i,
    {
        if s[i] == b {
            proof {
                lemma_find_byte_is(s@, b, i as int);
            }
            return i;
        }
        i = i + 1;
    }
    proof {
        lemma_find_byte_is(s@, b, n as int);
    }
    n
}

/// The length of the first line: everything through the first newline,
/// or the whole sequence when no newline is present.
pub open spec fn line_len(s: Seq<u8>) -> int {
    if find_byte(s, 10) == s.len() {
        s.len() as int
    } else {
        find_byte(s, 10) + 1
    }
}

pub proof fn lemma_line_len(s: Seq<u8>)
    ensures
        0 <= line_len(s) <= s.len(),
        s.len() > 0 ==> 1 <= line_len(s),
{
    lemma_find_byte(s, 10);
}

/// `s` without leading ASCII whitespace.
pub open spec fn spec_trim_start(s: Seq<u8>) -> Seq<u8>
    decreases s.len(),
{
    if s.len() > 0 && is_ws(s[0]) {
        spec_trim_start(s.drop_first())
    } else {
        s
    }
}

/// `s` without trailing ASCII whitespace.
pub open spec fn spec_trim_end(s: Seq<u8>) -> Seq<u8>
    decreases s.len(),
{
    if s.len() > 0 && is_ws(s.last()) {
        spec_trim_end(s.drop_last())
    } else {
        s
    }
}

/// `s` without leading or trailing ASCII whitespace.
pub open spec fn spec_trim(s: Seq<u8>) -> Seq<u8> {
    spec_trim_end(spec_trim_start(s))
}

/// Trims ASCII whitespace from both ends.
pub fn trim_bytes(s: &[u8]) -> (r: &[u8])
    ensures
        r@ == spec_trim(s@),
{
    let n = s.len();
    proof {
        assert(s@.skip(0) =~= s@);
    }
    let mut a: usize = 0;
    while a < n && (s[a] == 9 || s[a] == 10 || s[a] == 12 || s[a] == 13 || s[a] == 32)
        invariant
            a <= n,
            n == s@.len(),
            spec_trim_start(s@) == spec_trim_start(s@.skip(a as int)),
        decreases n - a,
    {
        proof {
            assert(s@.skip(a as int).drop_first() =~= s@.skip(a + 1));
        }
        a = a + 1;
    }
    proof {
        assert(spec_trim_start(s@) == s@.skip(a as int));
        assert(s@.skip(a as int).take(n - a) =~= s@.skip(a as int));
    }
    let mut b: usize = n;
    while b > a && (s[b - 1] == 9 || s[b - 1] == 10 || s[b - 1] == 12 || s[b - 1] == 13 || s[b
        - 1] == 32)
        invariant
            a <= b <= n,
            n == s@.len(),
            spec_trim_start(s@) == s@.skip(a as int),
            spec_trim_end(s@.skip(a as int)) == spec_trim_end(s@.skip(a as int).take(b - a)),
        decreases b,
    {
        proof {
            let u = s@.skip(a as int);
            assert(u.take(b - a).last() == s@[b - 1]);
            assert(u.take(b - a).drop_last() =~= u.take(b - 1 - a));
        }
        b = b - 1;
    }
    proof {
        let u = s@.skip(a as int);
        if b > a {
            assert(u.take(b - a).last() == s@[b - 1]);
        }
        assert(spec_trim_end(u.take(b - a)) == u.take(b - a));
        assert(s@.subrange(a as int, b as int) =~= u.take(b - a));
    }
    &s[a..b]
}

/// ASCII-lowercases a byte slice.
pub fn lower_slice(s: &[u8]) -> (r: Vec<u8>)
    ensures
        r@ == lower_bytes(s@),
{
    let n = s.len();
    let mut out: Vec<u8> = Vec::new();
    let mut i: usize = 0;
    while i < n
        invariant
            i <= n,
            n == s@.len(),
            out@.len() == i,
            forall|j: int| 0 <= j < i ==> out@[j] == lower_u8(s@[j]),
        decreases n - i,
    {
        let c = s[i];
        if 65 <= c && c <= 90 {
            out.push(c + 32);
        } else {
            out.push(c);
        }
        i = i + 1;
    }
    proof {
        assert(out@ =~= lower_bytes(s@));
    }
    out
}

/// Splitting on a separator byte; empty pieces are kept.
pub open spec fn spec_split(s: Seq<u8>, sep: u8) -> Seq<Seq<u8>>
    decreases s.len(),
    via spec_split_dec
{
    let i = find_byte(s, sep);
    if i == s.len() {
        seq![s]
    } else {
        seq![s.take(i)] + spec_split(s.skip(i + 1), sep)
    }
}

#[via_fn]
proof fn spec_split_dec(s: Seq<u8>, sep: u8) {
    lemma_find_byte(s, sep);
}

/// Splits on a separator byte, keeping empty pieces.
pub fn split_byte<'a>(s: &'a [u8], sep: u8) -> (r: Vec<&'a [u8]>)
    ensures
        r@.len() == spec_split(s@, sep).len(),
        forall|i: int| 0 <= i < r@.len() ==> r@[i]@ == spec_split(s@, sep)[i],
{
    let mut r: Vec<&[u8]> = Vec::new();
    let mut rest: &[u8] = s;
    let ghost mut done: Seq<Seq<u8>> = Seq::empty();
    loop
        invariant_except_break
            done.len() == r@.len(),
            forall|i: int| 0 <= i < done.len() ==> r@[i]@ == done[i],
            spec_split(s@, sep) == done + spec_split(rest@, sep),
        ensures
            r@.len() == spec_split(s@, sep).len(),
            forall|i: int| 0 <= i < r@.len() ==> r@[i]@ == spec_split(s@, sep)[i],
        decreases rest@.len(),
    {
        let i = find_u8(rest, sep);
        proof {
            lemma_find_byte(rest@, sep);
        }
        if i == rest.len() {
            r.push(rest);
            proof {
                done = done.push(rest@);
                assert(spec_split(rest@, sep) =~= seq![rest@]);
                assert(spec_split(s@, sep) =~= done);
                assert(forall|k: int|
                    0 <= k < done.len() ==> #[trigger] spec_split(s@, sep)[k] == done[k]);
            }
            break ;
        } else {
            let ghost old_done = done;
            let piece = &rest[0..i];
            r.push(piece);
            rest = &rest[i + 1..rest.len()];
            proof {
                done = done.push(piece@);
                assert(old_done + (seq![piece@] + spec_split(rest@, sep)) =~= done + spec_split(
                    rest@,
                    sep,
                ));
            }
        }
    }
    r
}

/// A character between `0` and `9`.
pub open spec fn is_digit_char(c: char) -> bool {
    '0' <= c && c <= '9'
}

/// Every character is a decimal digit.
pub open spec fn all_digits(s: Seq<char>) -> bool {
    forall|i: int| 0 <= i < s.len() ==> is_digit_char(s[i])
}

/// The value of a digit string read in base ten.
pub open spec fn dec_val(s: Seq<char>) -> int
    decreases s.len(),
{
    if s.len() == 0 {
        0
    } else {
        dec_val(s.drop_last()) * 10 + (s.last() as int - 48)
    }
}

/// The number a string of the shape `+?[0-9]+` denotes, if it has that shape.
pub open spec fn spec_parse_usize(v: Seq<char>) -> Option<int> {
    let body = if v.len() > 0 && v[0] == '+' {
        v.drop_first()
    } else {
        v
    };
    if body.len() > 0 && all_digits(body) {
        Some(dec_val(body))
    } else {
        None
    }
}

proof fn lemma_dec_val_nonneg(s: Seq<char>)
    requires
        all_digits(s),
    ensures
        dec_val(s) >= 0,
    decreases s.len(),
{
    if s.len() > 0 {
        assert(all_digits(s.drop_last()));
        lemma_dec_val_nonneg(s.drop_last());
    }
}

proof fn lemma_dec_val_prefix(s: Seq<char>, k: int)
    requires
        all_digits(s),
        0 <= k <= s.len(),
    ensures
        dec_val(s.take(k)) <= dec_val(s),
    decreases s.len(),
{
    if k == s.len() {
        assert(s.take(k) =~= s);
    } else {
        assert(all_digits(s.drop_last()));
        assert(s.drop_last() =~= s.take(s.len() - 1));
        lemma_dec_val_prefix(s.drop_last(), k);
        assert(s.drop_last().take(k) =~= s.take(k));
        lemma_dec_val_nonneg(s.drop_last());
        assert(is_digit_char(s.last()));
        assert(dec_val(s) >= dec_val(s.drop_last()));
    }
}

/// Reads a `usize` the way the standard parser does for unsigned numbers:
/// an optional leading plus sign, then one or more decimal digits.
pub fn parse_usize_str(v: &str) -> (r: Option<usize>)
    ensures
        match r {
            Some(m) => spec_parse_usize(v@) == Some(m as int),
            None => spec_parse_usize(v@) is None || (spec_parse_usize(v@) matches Some(n) && n
                > usize::MAX),
        },
{
    let n = v.unicode_len();
    let start: usize = if n > 0 && v.get_char(0) == '+' {
        1
    } else {
        0
    };
    let ghost body = if v@.len() > 0 && v@[0] == '+' {
        v@.drop_first()
    } else {
        v@
    };
    proof {
        assert(body =~= v@.skip(start as int));
    }
    if start >= n {
        return None;
    }
    let mut acc: usize = 0;
    let mut i: usize = start;
    while i < n
        invariant
            start <= i <= n,
            n == v@.len(),
            body == v@.skip(start as int),
            body == (if v@.len() > 0 && v@[0] == '+' {
                v@.drop_first()
            } else {
                v@
            }),
            forall|j: int| start <= j < i ==> is_digit_char(v@[j]),
            acc == dec_val(v@.subrange(start as int, i as int)),
        decreases n - i,
    {
        let c = v.get_char(i);
        let d = c as u32;
        if d < 48 || d > 57 {
            proof {
                assert(body[i - start] == v@[i as int]);
                assert(!is_digit_char(body[i - start]));
                assert(!all_digits(body));
                assert(spec_parse_usize(v@) is None);
            }
            return None;
        }
        let dd = (d - 48) as usize;
        if acc > (usize::MAX - dd) / 10 {
            proof {
                let p = v@.subrange(start as int, i + 1);
                assert(p.drop_last() =~= v@.subrange(start as int, i as int));
                assert(p.last() == v@[i as int]);
                assert(dec_val(p) == acc * 10 + dd);
                if all_digits(body) {
                    assert(p =~= body.take(i + 1 - start));
                    lemma_dec_val_prefix(body, i + 1 - start);
                    assert(dec_val(body) > usize::MAX);
                }
            }
            return None;
        }
        proof {
            let p = v@.subrange(start as int, i + 1);
            assert(p.drop_last() =~= v@.subrange(start as int, i as int));
            assert(p.last() == v@[i as int]);
        }
        acc = acc * 10 + dd;
        i = i + 1;
    }
    proof {
        assert(v@.subrange(start as int, n as int) =~= body);
        assert(all_digits(body));
        assert(body.len() > 0);
    }
    Some(acc)
}


/// What the start line yields: the method and the raw target bytes.
pub open spec fn spec_start_line(line: Seq<u8>) -> Result<(Method, Seq<u8>), DecodeError> {
    let parts = spec_split(spec_trim(line), 32);
    if parts.len() != 3 {
        Err(DecodeError::BadStartLine)
    } else {
        match spec_parse_method(parts[0]) {
            None => Err(DecodeError::UnknownMethod),
            Some(m) => if parts[2] != encode_utf8("HTTP/1.1"@) {
                Err(DecodeError::UnsupportedVersion)
            } else if !valid_utf8(parts[1]) {
                Err(DecodeError::TargetNotText)
            } else {
                Ok((m, parts[1]))
            },
        }
    }
}

/// Reads header lines from `s` into the accumulated mapping until a blank
/// line or the end of input, returning the mapping and what follows.
/// Keys are trimmed and ASCII-lowercased; values are trimmed; a repeated
/// key keeps the last value.
pub open spec fn spec_parse_headers(s: Seq<u8>, acc: Seq<EntryView>) -> Result<
    (Seq<EntryView>, Seq<u8>),
    DecodeError,
>
    decreases s.len(),
    via spec_parse_headers_dec
{
    if s.len() == 0 {
        Ok((acc, s))
    } else {
        let line = s.take(line_len(s));
        let rest = s.skip(line_len(s));
        let t = spec_trim(line);
        if t.len() == 0 {
            Ok((acc, rest))
        } else {
            let ci = find_byte(t, 58);
            if ci == t.len() {
                Err(DecodeError::MalformedHeader)
            } else {
                let kb = lower_bytes(spec_trim(t.take(ci)));
                let vb = spec_trim(t.skip(ci + 1));
                if valid_utf8(kb) && valid_utf8(vb) {
                    spec_parse_headers(rest, spec_insert(acc, decode_utf8(kb), decode_utf8(vb)))
                } else {
                    Err(DecodeError::HeaderNotText)
                }
            }
        }
    }
}

#[via_fn]
proof fn spec_parse_headers_dec(s: Seq<u8>, acc: Seq<EntryView>) {
    if s.len() > 0 {
        lemma_line_len(s);
    }
}

/// The declared body length: absent Content-Length means zero; a value
/// that is not a decimal number fitting `usize` is an error.
pub open spec fn spec_content_len(hs: Seq<EntryView>) -> Result<int, DecodeError> {
    match lookup(hs, "content-length"@) {
        None => Ok(0),
        Some(v) => match spec_parse_usize(v) {
            Some(cn) => if cn > usize::MAX {
                Err(DecodeError::BadContentLength)
            } else {
                Ok(cn)
            },
            None => Err(DecodeError::BadContentLength),
        },
    }
}

/// What decoding a whole input yields: the method, the target characters,
/// the folded header mapping, and the body — the declared number of bytes,
/// truncated to what the input still holds.
pub open spec fn spec_decode(input: Seq<u8>) -> Result<
    (Method, Seq<char>, Seq<EntryView>, Seq<u8>),
    DecodeError,
> {
    let line1 = input.take(line_len(input));
    let rest1 = input.skip(line_len(input));
    match spec_start_line(line1) {
        Err(e) => Err(e),
        Ok((m, urlb)) => match spec_parse_headers(rest1, Seq::empty()) {
            Err(e) => Err(e),
            Ok((hs, rest2)) => match spec_content_len(hs) {
                Err(e) => Err(e),
                Ok(cn) => {
                    let take_n = if cn < rest2.len() {
                        cn
                    } else {
                        rest2.len() as int
                    };
                    Ok((m, decode_utf8(urlb), hs, rest2.take(take_n)))
                },
            },
        },
    }
}

/// Relies on std's String::from_utf8: it succeeds exactly on valid UTF-8
/// input and returns the characters those bytes encode.
#[verifier::external_body]
fn bytes_to_string(v: &[u8]) -> (r: Option<String>)
    ensures
        r is Some <==> valid_utf8(v@),
        r matches Some(s) ==> s@ == decode_utf8(v@),
{
    match String::from_utf8(v.to_vec()) {
        Ok(s) => Some(s),
        Err(_) => None,
    }
}

/// Reads header lines until a blank line or the end of input, returning
/// the folded mapping and the bytes that follow the header section.
pub fn read_headers<'a>(s: &'a [u8]) -> (r: Result<(StrMap, &'a [u8]), DecodeError>)
    ensures
        match r {
            Ok(p) => spec_parse_headers(s@, Seq::empty()) == Ok::<_, DecodeError>((p.0@, p.1@))
                && distinct_keys(p.0@),
            Err(e) => spec_parse_headers(s@, Seq::empty()) == Err::<(Seq<EntryView>, Seq<u8>), _>(
                e,
            ),
        },
{
    let mut headers = StrMap::new();
    let mut rest: &[u8] = s;
    loop
        invariant_except_break
            spec_parse_headers(s@, Seq::empty()) == spec_parse_headers(rest@, headers@),
            distinct_keys(headers@),
        ensures
            spec_parse_headers(s@, Seq::empty()) == Ok::<_, DecodeError>((headers@, rest@)),
            distinct_keys(headers@),
        decreases rest@.len(),
    {
        if rest.len() == 0 {
            break ;
        }
        let nl2 = find_u8(rest, 10);
        proof {
            lemma_line_len(rest@);
        }
        let ll2 = if nl2 == rest.len() {
            nl2
        } else {
            nl2 + 1
        };
        let line = &rest[0..ll2];
        let next = &rest[ll2..rest.len()];
        proof {
            assert(line@ == rest@.take(line_len(rest@)));
            assert(next@ == rest@.skip(line_len(rest@)));
        }
        let t2 = trim_bytes(line);
        if t2.len() == 0 {
            rest = next;
            break ;
        }
        let ci = find_u8(t2, 58);
        proof {
            lemma_find_byte(t2@, 58);
        }
        if ci == t2.len() {
            proof {
                assert(spec_parse_headers(rest@, headers@) == Err::<(Seq<EntryView>, Seq<u8>), _>(
                    DecodeError::MalformedHeader,
                ));
            }
            return Err(DecodeError::MalformedHeader);
        }
        let kraw = trim_bytes(&t2[0..ci]);
        let kl = lower_slice(kraw);
        let vraw = trim_bytes(&t2[ci + 1..t2.len()]);
        proof {
            assert(kraw@ == spec_trim(t2@.take(ci as int)));
            assert(vraw@ == spec_trim(t2@.skip(ci + 1)));
            assert(kl@ == lower_bytes(spec_trim(t2@.take(ci as int))));
        }
        let k = match bytes_to_string(kl.as_slice()) {
            Some(k) => k,
            None => {
                proof {
                    assert(spec_parse_headers(rest@, headers@) == Err::<
                        (Seq<EntryView>, Seq<u8>),
                        _,
                    >(DecodeError::HeaderNotText));
                }
                return Err(DecodeError::HeaderNotText);
            },
        };
        let v = match bytes_to_string(vraw) {
            Some(v) => v,
            None => {
                proof {
                    assert(spec_parse_headers(rest@, headers@) == Err::<
                        (Seq<EntryView>, Seq<u8>),
                        _,
                    >(DecodeError::HeaderNotText));
                }
                return Err(DecodeError::HeaderNotText);
            },
        };
        let ghost before = headers@;
        headers.insert(k, v);
        proof {
            assert(spec_parse_headers(rest@, before) == spec_parse_headers(next@, headers@));
        }
        rest = next;
    }
    Ok((headers, rest))
}

/// The body length a header mapping declares.
pub fn content_length_of(headers: &StrMap) -> (r: Result<usize, DecodeError>)
    ensures
        match r {
            Ok(n) => spec_content_len(headers@) == Ok::<int, DecodeError>(n as int),
            Err(e) => spec_content_len(headers@) == Err::<int, DecodeError>(e),
        },
{
    match headers.get("content-length") {
        None => Ok(0),
        Some(cv) => match parse_usize_str(cv) {
            Some(m) => Ok(m),
            None => Err(DecodeError::BadContentLength),
        },
    }
}

/// Decodes one request from the bytes read off a connection.
pub fn decode_request(input: &[u8]) -> (r: Result<Request, DecodeError>)
    ensures
        match r {
            Ok(req) => spec_decode(input@) matches Ok(m) && req.method == m.0 && req.url@ == m.1
                && req.headers@ == m.2 && req.content@ == m.3 && distinct_keys(req.headers@),
            Err(e) => spec_decode(input@) == Err::<(Method, Seq<char>, Seq<EntryView>, Seq<u8>),
                DecodeError,
            >(e),
        },
{
    let nl = find_u8(input, 10);
    proof {
        lemma_line_len(input@);
    }
    let ll = if nl == input.len() {
        nl
    } else {
        nl + 1
    };
    let line1 = &input[0..ll];
    let rest1 = &input[ll..input.len()];
    proof {
        assert(line1@ == input@.take(line_len(input@)));
        assert(rest1@ == input@.skip(line_len(input@)));
    }

    let t = trim_bytes(line1);
    let parts = split_byte(t, 32);
    if parts.len() != 3 {
        return Err(DecodeError::BadStartLine);
    }
    let method = match Method::parse(parts[0]) {
        Some(m) => m,
        None => {
            return Err(DecodeError::UnknownMethod);
        },
    };
    if !bytes_eq(parts[2], "HTTP/1.1".as_bytes()) {
        return Err(DecodeError::UnsupportedVersion);
    }
    let url = match bytes_to_string(parts[1]) {
        Some(u) => u,
        None => {
            return Err(DecodeError::TargetNotText);
        },
    };
    let ghost urlb = parts@[1]@;
    proof {
        assert(spec_start_line(line1@) == Ok::<_, DecodeError>((method, urlb)));
    }

    let (headers, rest) = match read_headers(rest1) {
        Ok(p) => p,
        Err(e) => {
            return Err(e);
        },
    };

    let content_len: usize = match content_length_of(&headers) {
        Ok(n) => n,
        Err(e) => {
            return Err(e);
        },
    };

    let avail = rest.len();
    let take_n = if content_len < avail {
        content_len
    } else {
        avail
    };
    let mut content: Vec<u8> = Vec::new();
    content.extend_from_slice(&rest[0..take_n]);
    proof {
        assert(content@ =~= rest@.take(take_n as int));
    }

    Ok(Request { method, url, headers, content })
}


/// The offset just past the blank line that ends a header section, or
/// `None` while the input still lacks a complete, newline-terminated
/// header section.
pub open spec fn spec_header_end(s: Seq<u8>) -> Option<int>
    decreases s.len(),
    via spec_header_end_dec
{
    if s.len() == 0 {
        None
    } else if find_byte(s, 10) == s.len() {
        None
    } else {
        let l = line_len(s);
        if spec_trim(s.take(l)).len() == 0 {
            Some(l)
        } else {
            match spec_header_end(s.skip(l)) {
                None => None,
                Some(e) => Some(l + e),
            }
        }
    }
}

#[via_fn]
proof fn spec_header_end_dec(s: Seq<u8>) {
    if s.len() > 0 {
        lemma_line_len(s);
    }
}

/// How much input one request occupies, once that can be told: the length
/// of the head through its blank line, and the declared body length.
/// `None` while the head is still incomplete. A head whose headers will
/// not parse is reported with a body length of zero, since decoding it
/// fails before any body is read.
pub open spec fn spec_frame(input: Seq<u8>) -> Option<(int, int)> {
    if find_byte(input, 10) == input.len() {
        None
    } else {
        let l1 = line_len(input);
        match spec_header_end(input.skip(l1)) {
            None => None,
            Some(e) => match spec_parse_headers(input.skip(l1), Seq::empty()) {
                Ok(p) => match spec_content_len(p.0) {
                    Ok(cn) => Some((l1 + e, cn)),
                    Err(_) => Some((l1 + e, 0)),
                },
                Err(_) => Some((l1 + e, 0)),
            },
        }
    }
}

/// Reports, once the head is complete, how long the head is and how many
/// body bytes the request declares, so a caller reading from a stream
/// knows when it has one whole request.
pub fn frame_request(input: &[u8]) -> (r: Option<(usize, usize)>)
    ensures
        match r {
            Some(f) => spec_frame(input@) == Some((f.0 as int, f.1 as int)),
            None => spec_frame(input@) is None,
        },
{
    let nl = find_u8(input, 10);
    proof {
        lemma_find_byte(input@, 10);
    }
    if nl == input.len() {
        return None;
    }
    let l1 = nl + 1;
    proof {
        assert(l1 == line_len(input@));
    }
    let mut pos: usize = l1;
    loop
        invariant_except_break
            l1 <= pos <= input@.len(),
            l1 == line_len(input@),
            nl == find_byte(input@, 10),
            nl < input@.len(),
            l1 == nl + 1,
            match spec_header_end(input@.skip(pos as int)) {
                None => spec_header_end(input@.skip(l1 as int)) is None,
                Some(e) => spec_header_end(input@.skip(l1 as int)) == Some(pos - l1 + e),
            },
        decreases input@.len() - pos,
    {
        let rest = &input[pos..input.len()];
        if rest.len() == 0 {
            return None;
        }
        let nl2 = find_u8(rest, 10);
        proof {
            lemma_find_byte(rest@, 10);
            lemma_line_len(rest@);
        }
        if nl2 == rest.len() {
            return None;
        }
        let ll2 = nl2 + 1;
        let line = &rest[0..ll2];
        proof {
            assert(line@ == rest@.take(line_len(rest@)));
        }
        let t2 = trim_bytes(line);
        if t2.len() == 0 {
            let head = pos + ll2;
            proof {
                assert(spec_header_end(rest@) == Some(ll2 as int));
                assert(spec_header_end(input@.skip(l1 as int)) == Some(head - l1));
            }
            let tail = &input[l1..input.len()];
            let body_len: usize = match read_headers(tail) {
                Ok(p) => match content_length_of(&p.0) {
                    Ok(n) => n,
                    Err(_) => 0,
                },
                Err(_) => 0,
            };
            return Some((head, body_len));
        }
        proof {
            let u = input@.skip(pos as int);
            assert(u == rest@);
            assert(u.skip(ll2 as int) =~= input@.skip(pos + ll2));
            assert(spec_header_end(u) == match spec_header_end(u.skip(ll2 as int)) {
                None => None::<int>,
                Some(e) => Some(ll2 + e),
            });
        }
        pos = pos + ll2;
    }
}



proof fn lemma_dec_chars_value(n: nat)
    ensures
        dec_chars(n).len() >= 1,
        all_digits(dec_chars(n)),
        dec_val(dec_chars(n)) == n,
        dec_bytes(n).len() == dec_chars(n).len(),
        forall|i: int|
            0 <= i < dec_bytes(n).len() ==> #[trigger] dec_bytes(n)[i] == dec_chars(n)[i] as u8,
    decreases n,
{
    reveal_with_fuel(dec_val, 3);
    if n < 10 {
        let d = dec_chars(n);
        assert(d.len() == 1);
        assert(d[0] == (((n + 48) as u8) as char));
        assert(d.drop_last() =~= Seq::<char>::empty());
        assert(dec_val(d) == n);
    } else {
        lemma_dec_chars_value(n / 10);
        let d = dec_chars(n);
        let a = dec_chars(n / 10);
        assert(d == a + seq![((((n % 10) + 48) as u8) as char)]);
        assert(d.drop_last() =~= a);
        assert(d.last() as int - 48 == n % 10);
        assert(dec_val(d) == dec_val(a) * 10 + n % 10);
        assert(forall|i: int| 0 <= i < a.len() ==> d[i] == a[i]);
        assert(forall|i: int| 0 <= i < dec_bytes(n / 10).len() ==> #[trigger] dec_bytes(n)[i]
            == dec_bytes(n / 10)[i]);
    }
}

/// Law: the Content-Length that serialization emits names exactly the
/// body's length. The wire bytes of a response with body `c` carry the
/// digits of `c.len()` right after the `Content-Length: ` header name, and
/// reading those digits back as a number yields `c.len()` again.
pub proof fn lemma_content_length_round_trip(
    code: u16,
    msg: Seq<char>,
    hs: Seq<EntryView>,
    c: Seq<u8>,
)
    ensures
        spec_encode(code, msg, hs, Some(c)) == encode_utf8("HTTP/1.1 "@) + dec_bytes(code as nat)
            + encode_utf8(" "@) + encode_utf8(msg) + encode_utf8("\r\n"@) + spec_header_lines(hs)
            + encode_utf8("Content-Length: "@) + dec_bytes(c.len()) + encode_utf8("\r\n"@)
            + encode_utf8("\r\n"@) + c,
        dec_bytes(c.len()).len() == dec_chars(c.len()).len(),
        forall|i: int|
            0 <= i < dec_bytes(c.len()).len() ==> #[trigger] dec_bytes(c.len())[i] == dec_chars(
                c.len(),
            )[i] as u8,
        spec_parse_usize(dec_chars(c.len())) == Some(c.len() as int),
{
    lemma_dec_chars_value(c.len());
    let d = dec_chars(c.len());
    assert(is_digit_char(d[0]));
    assert(d[0] != '+');
    assert(spec_encode(code, msg, hs, Some(c)) =~= encode_utf8("HTTP/1.1 "@) + dec_bytes(
        code as nat,
    ) + encode_utf8(" "@) + encode_utf8(msg) + encode_utf8("\r\n"@) + spec_header_lines(hs)
        + encode_utf8("Content-Length: "@) + dec_bytes(c.len()) + encode_utf8("\r\n"@)
        + encode_utf8("\r\n"@) + c);
}

/// Law: a request that declares a body length it fully carries decodes to
/// that body, and serializing a response that echoes the body puts exactly
/// those bytes, unchanged, at the end of the wire output.
pub proof fn lemma_body_round_trip(
    input: Seq<u8>,
    m: (Method, Seq<char>, Seq<EntryView>, Seq<u8>),
    n: int,
    code: u16,
    msg: Seq<char>,
    hs2: Seq<EntryView>,
)
    requires
        spec_decode(input) == Ok::<(Method, Seq<char>, Seq<EntryView>, Seq<u8>), DecodeError>(m),
        spec_content_len(m.2) == Ok::<int, DecodeError>(n),
        m.3.len() == n,
    ensures
        ({
            let out = spec_encode(code, msg, hs2, Some(m.3));
            out.skip(out.len() - n) == m.3
        }),
{
    let out = spec_encode(code, msg, hs2, Some(m.3));
    assert(out.skip(out.len() - n) =~= m.3);
}


} // verus!
