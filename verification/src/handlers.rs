use vstd::prelude::*;
use vstd::utf8::encode_utf8;

use crate::request::RequestContext;
use crate::status::Status;
use crate::strmap::{lookup, lower_chars, spec_insert, StrMap};
use crate::{ok, Response};

verus! {

/// Answers the index route with an empty 200.
pub fn index(_r: &RequestContext) -> (r: Response)
    ensures
        r.status.code_num == 200,
        r.headers@.len() == 0,
        r.content is None,
{
    ok()
}

/// Echoes the `s` path variable as a plain-text body.
pub fn echo(r: &RequestContext) -> (resp: Response)
    requires
        lookup(r.url_vars@, "s"@) is Some,
    ensures
        resp.status.code_num == 200,
        resp.headers@ == spec_insert(Seq::empty(), "Content-Type"@, "text/plain"@),
        resp.content matches Some(c) && c@ == encode_utf8(lookup(r.url_vars@, "s"@)->0),
{
    let s = match r.get_var("s") {
        Some(s) => s,
        None => unreached(),
    };
    let mut headers = StrMap::new();
    headers.insert(String::from_str("Content-Type"), String::from_str("text/plain"));
    let mut body: Vec<u8> = Vec::new();
    body.extend_from_slice(s.as_bytes());
    proof {
        assert(body@ =~= encode_utf8(lookup(r.url_vars@, "s"@)->0));
    }
    Response { status: Status::ok(), headers, content: Some(body) }
}

/// Answers with the request's User-Agent header as a plain-text body.
pub fn user_agent(r: &RequestContext) -> (resp: Response)
    requires
        lookup(r.request.headers@, lower_chars("user-agent"@)) is Some,
    ensures
        resp.status.code_num == 200,
        resp.headers@ == spec_insert(Seq::empty(), "Content-Type"@, "text/plain"@),
        resp.content matches Some(c) && c@ == encode_utf8(
            lookup(r.request.headers@, lower_chars("user-agent"@))->0,
        ),
{
    let ua = match r.get_header("user-agent") {
        Some(v) => v,
        None => unreached(),
    };
    let mut headers = StrMap::new();
    headers.insert(String::from_str("Content-Type"), String::from_str("text/plain"));
    let mut body: Vec<u8> = Vec::new();
    body.extend_from_slice(ua.as_bytes());
    proof {
        assert(body@ =~= encode_utf8(lookup(r.request.headers@, lower_chars("user-agent"@))->0));
    }
    Response { status: Status::ok(), headers, content: Some(body) }
}

} // verus!
