use vstd::prelude::*;

use crate::encoding::Encoding;
use crate::method::Method;
use crate::strmap::{lookup, lower_chars, StrMap};

verus! {

/// A parsed request. Header keys are stored ASCII-lowercased and each key
/// holds the last value the wire carried for it.
#[derive(Debug)]
pub struct Request {
    pub method: Method,
    pub url: String,
    pub headers: StrMap,
    pub content: Vec<u8>,
}

impl Request {
    /// The header value under the ASCII-lowercased form of `k`, if any.
    pub fn get_header(&self, k: &str) -> (r: Option<&str>)
        ensures
            match r {
                Some(v) => lookup(self.headers@, lower_chars(k@)) == Some(v@),
                None => lookup(self.headers@, lower_chars(k@)) is None,
            },
    {
        self.headers.get_lowered(k)
    }
}

/// The per-dispatch carrier: the request, the path variables the router
/// extracted, and the slot middleware uses to hand the negotiated
/// content-coding on to the handler.
pub struct RequestContext {
    pub request: Request,
    pub url_vars: StrMap,
    pub negotiated: Option<Encoding>,
}

impl RequestContext {
    pub fn from(request: Request, url_vars: StrMap) -> (r: RequestContext)
        ensures
            r.request == request,
            r.url_vars@ == url_vars@,
            r.negotiated is None,
    {
        RequestContext { request, url_vars, negotiated: None }
    }

    /// The path variable extracted under `k`, if any.
    pub fn get_var(&self, k: &str) -> (r: Option<&str>)
        ensures
            match r {
                Some(v) => lookup(self.url_vars@, k@) == Some(v@),
                None => lookup(self.url_vars@, k@) is None,
            },
    {
        self.url_vars.get(k)
    }

    /// The request header value under the ASCII-lowercased form of `k`.
    pub fn get_header(&self, k: &str) -> (r: Option<&str>)
        ensures
            match r {
                Some(v) => lookup(self.request.headers@, lower_chars(k@)) == Some(v@),
                None => lookup(self.request.headers@, lower_chars(k@)) is None,
            },
    {
        self.request.get_header(k)
    }

    pub fn request(&self) -> (r: &Request)
        ensures
            *r == self.request,
    {
        &self.request
    }
}

} // verus!
