pub mod codec;
pub mod encoding;
pub mod handlers;
pub mod method;
pub mod middleware;
pub mod request;
pub mod router;
pub mod status;
pub mod strmap;

use vstd::prelude::*;

use crate::status::Status;
use crate::strmap::StrMap;

verus! {

/// A response: a status, a header mapping, and an optional body.
pub struct Response {
    pub status: Status,
    pub headers: StrMap,
    pub content: Option<Vec<u8>>,
}

impl Response {
    pub fn from_parts(status: Status, headers: StrMap, content: Option<Vec<u8>>) -> (r: Response)
        ensures
            r.status == status,
            r.headers == headers,
            r.content == content,
    {
        Response { status, headers, content }
    }
}

/// An empty 200 response.
pub fn ok() -> (r: Response)
    ensures
        r.status.code_num == 200,
        r.status.message@ == "OK"@,
        r.headers@.len() == 0,
        r.content is None,
{
    Response { status: Status::ok(), headers: StrMap::new(), content: None }
}

/// An empty 404 response.
pub fn not_found() -> (r: Response)
    ensures
        r.status.code_num == 404,
        r.status.message@ == "Not Found"@,
        r.headers@.len() == 0,
        r.content is None,
{
    Response { status: Status::not_found(), headers: StrMap::new(), content: None }
}

/// An empty 400 response.
pub fn bad_request() -> (r: Response)
    ensures
        r.status.code_num == 400,
        r.status.message@ == "Bad Request"@,
        r.headers@.len() == 0,
        r.content is None,
{
    Response { status: Status::bad_request(), headers: StrMap::new(), content: None }
}

} // verus!
