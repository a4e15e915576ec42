use vstd::prelude::*;

verus! {

/// An HTTP status: a numeric code paired with its reason phrase.
pub struct Status {
    pub code_num: u16,
    pub message: String,
}

impl Status {
    /// The generic constructor; any numeric code with any reason phrase.
    pub fn from_parts(code_num: u16, message: String) -> (r: Status)
        ensures
            r.code_num == code_num,
            r.message@ == message@,
    {
        Status { code_num, message }
    }

    pub fn ok() -> (r: Status)
        ensures
            r.code_num == 200,
            r.message@ == "OK"@,
    {
        Status { code_num: 200, message: String::from_str("OK") }
    }

    pub fn created() -> (r: Status)
        ensures
            r.code_num == 201,
            r.message@ == "Created"@,
    {
        Status { code_num: 201, message: String::from_str("Created") }
    }

    pub fn bad_request() -> (r: Status)
        ensures
            r.code_num == 400,
            r.message@ == "Bad Request"@,
    {
        Status { code_num: 400, message: String::from_str("Bad Request") }
    }

    pub fn not_found() -> (r: Status)
        ensures
            r.code_num == 404,
            r.message@ == "Not Found"@,
    {
        Status { code_num: 404, message: String::from_str("Not Found") }
    }
}

} // verus!
