use http_core::codec::decode_request;
use http_core::handlers;
use http_core::request::RequestContext;
use http_core::strmap::StrMap;

#[test]
fn index_answers_empty_ok() {
    let req = decode_request(b"GET / HTTP/1.1\r\n\r\n").unwrap();
    let ctx = RequestContext::from(req, StrMap::new());
    let resp = handlers::index(&ctx);
    assert_eq!(resp.status.code_num, 200);
    assert!(resp.content.is_none());
}

#[test]
fn echo_returns_the_variable_text() {
    let req = decode_request(b"GET /echo/hi HTTP/1.1\r\n\r\n").unwrap();
    let mut vars = StrMap::new();
    vars.insert("s".to_string(), "hi".to_string());
    let ctx = RequestContext::from(req, vars);
    let resp = handlers::echo(&ctx);
    assert_eq!(resp.status.code_num, 200);
    assert_eq!(resp.headers.get("Content-Type"), Some("text/plain"));
    assert_eq!(resp.content.unwrap(), b"hi".to_vec());
}

#[test]
fn user_agent_echoes_the_header() {
    let req =
        decode_request(b"GET /user-agent HTTP/1.1\r\nUser-Agent: probe/1.0\r\n\r\n").unwrap();
    let ctx = RequestContext::from(req, StrMap::new());
    let resp = handlers::user_agent(&ctx);
    assert_eq!(resp.status.code_num, 200);
    assert_eq!(resp.content.unwrap(), b"probe/1.0".to_vec());
}

#[test]
fn context_reads_request_and_variables() {
    let req = decode_request(b"GET /x HTTP/1.1\r\nHost: h\r\n\r\n").unwrap();
    let mut vars = StrMap::new();
    vars.insert("k".to_string(), "v".to_string());
    let ctx = RequestContext::from(req, vars);
    assert_eq!(ctx.get_var("k"), Some("v"));
    assert_eq!(ctx.get_var("other"), None);
    assert_eq!(ctx.get_header("HOST"), Some("h"));
    assert_eq!(ctx.request().url, "/x");
    assert!(ctx.negotiated.is_none());
}

#[test]
fn named_responses_carry_their_codes() {
    assert_eq!(http_core::ok().status.code_num, 200);
    assert_eq!(http_core::ok().status.message, "OK");
    assert_eq!(http_core::not_found().status.code_num, 404);
    assert_eq!(http_core::not_found().status.message, "Not Found");
    assert_eq!(http_core::bad_request().status.code_num, 400);
    assert_eq!(http_core::bad_request().status.message, "Bad Request");
    assert_eq!(http_core::status::Status::created().code_num, 201);
}
