use vstd::prelude::*;
use vstd::utf8::encode_utf8;

verus! {

/// The request methods the core accepts.
#[derive(Debug, PartialEq, Eq, Structural, Clone, Copy)]
pub enum Method {
    GET,
    POST,
}

/// The method named by a start-line token, if any.
pub open spec fn spec_parse_method(t: Seq<u8>) -> Option<Method> {
    if t == encode_utf8("GET"@) {
        Some(Method::GET)
    } else if t == encode_utf8("POST"@) {
        Some(Method::POST)
    } else {
        None
    }
}

impl Method {
    /// Reads a method from the raw bytes of a start-line token.
    pub fn parse(t: &[u8]) -> (r: Option<Method>)
        ensures
            r == spec_parse_method(t@),
    {
        if bytes_eq(t, "GET".as_bytes()) {
            Some(Method::GET)
        } else if bytes_eq(t, "POST".as_bytes()) {
            Some(Method::POST)
        } else {
            None
        }
    }
}

/// Byte-for-byte equality of two slices.
pub fn bytes_eq(a: &[u8], b: &[u8]) -> (r: bool)
    ensures
        r == (a@ == b@),
{
    if a.len() != b.len() {
        return false;
    }
    let n = a.len();
    let mut i: usize = 0;
    while i < n
        invariant
            i <= n,
            n == a@.len(),
            n == b@.len(),
            forall|j: int| 0 <= j < i ==> a@[j] == b@[j],
        decreases n - i,
    {
        if a[i] != b[i] {
            return false;
        }
        i = i + 1;
    }
    proof {
        assert(a@ =~= b@);
    }
    true
}

} // verus!
