use std::io::Read;

use http_core::codec::decode_request;
use http_core::handlers;
use http_core::method::Method;
use http_core::middleware::compression::{apply_compression, CompressionMw};
use http_core::middleware::MiddlewareKind;
use http_core::request::RequestContext;
use http_core::router::Router;
use http_core::status::Status;
use http_core::strmap::StrMap;
use http_core::Response;

fn gunzip(data: &[u8]) -> Vec<u8> {
    let mut out = Vec::new();
    flate2::read::GzDecoder::new(data).read_to_end(&mut out).unwrap();
    out
}

struct Echo;

impl http_core::middleware::Handler for Echo {
    fn handle(&self, ctx: &RequestContext) -> Response {
        if ctx.get_var("s").is_none() {
            // the route guarantees the variable; mirror a missing one as a
            // failed lookup would surface it
            panic!("missing path variable");
        }
        handlers::echo(ctx)
    }
}

fn router_with_echo() -> Router {
    let mut router = Router::new();
    router
        .add_handler(Method::GET, "/echo/<s>", Box::new(Echo))
        .unwrap();
    router
}

fn chain() -> Vec<MiddlewareKind> {
    vec![MiddlewareKind::Compression(CompressionMw {})]
}

#[test]
fn gzip_accepted_compresses_the_body() {
    let router = router_with_echo();
    let req =
        decode_request(b"GET /echo/abc HTTP/1.1\r\nAccept-Encoding: gzip\r\n\r\n").unwrap();
    let resp = router.dispatch(&chain(), req);
    assert_eq!(resp.status.code_num, 200);
    assert_eq!(resp.headers.get("Content-Encoding"), Some("gzip"));
    let body = resp.content.unwrap();
    assert_eq!(gunzip(&body), b"abc".to_vec());
}

#[test]
fn identity_leaves_the_body_alone() {
    let router = router_with_echo();
    let req =
        decode_request(b"GET /echo/abc HTTP/1.1\r\nAccept-Encoding: identity\r\n\r\n").unwrap();
    let resp = router.dispatch(&chain(), req);
    assert_eq!(resp.headers.get("Content-Encoding"), None);
    assert_eq!(resp.content.unwrap(), b"abc".to_vec());
}

#[test]
fn absent_header_means_identity() {
    let router = router_with_echo();
    let req = decode_request(b"GET /echo/xyz HTTP/1.1\r\n\r\n").unwrap();
    let resp = router.dispatch(&chain(), req);
    assert_eq!(resp.headers.get("Content-Encoding"), None);
    assert_eq!(resp.content.unwrap(), b"xyz".to_vec());
}

#[test]
fn bodyless_response_is_untouched() {
    let mut router = Router::new();
    struct NoBody;
    impl http_core::middleware::Handler for NoBody {
        fn handle(&self, _ctx: &RequestContext) -> Response {
            http_core::ok()
        }
    }
    router
        .add_handler(Method::GET, "/", Box::new(NoBody))
        .unwrap();
    let req = decode_request(b"GET / HTTP/1.1\r\nAccept-Encoding: gzip\r\n\r\n").unwrap();
    let resp = router.dispatch(&chain(), req);
    assert_eq!(resp.status.code_num, 200);
    assert!(resp.content.is_none());
    assert_eq!(resp.headers.get("Content-Encoding"), None);
}

#[test]
fn apply_compression_round_trips() {
    let resp = Response::from_parts(Status::ok(), StrMap::new(), Some(b"payload".to_vec()));
    let out = apply_compression(true, resp);
    assert_eq!(out.headers.get("Content-Encoding"), Some("gzip"));
    assert_eq!(gunzip(&out.content.unwrap()), b"payload".to_vec());

    let resp = Response::from_parts(Status::ok(), StrMap::new(), Some(b"payload".to_vec()));
    let out = apply_compression(false, resp);
    assert_eq!(out.headers.get("Content-Encoding"), None);
    assert_eq!(out.content.unwrap(), b"payload".to_vec());
}

#[test]
fn negotiation_skips_quality_on_unknown_tokens() {
    let req = decode_request(
        b"GET /echo/a HTTP/1.1\r\naccept-encoding: frob;q=0.2, gzip;q=0.7\r\n\r\n",
    )
    .unwrap();
    let ctx = RequestContext::from(req, StrMap::new());
    let m = CompressionMw::get_accepted_encodings(&ctx);
    assert!(m.contains_key(http_core::encoding::Encoding::Gzip));
    assert_eq!(m.len(), 1);
}

#[test]
fn absent_header_yields_identity_preference() {
    let req = decode_request(b"GET / HTTP/1.1\r\n\r\n").unwrap();
    let ctx = RequestContext::from(req, StrMap::new());
    let m = CompressionMw::get_accepted_encodings(&ctx);
    assert!(m.contains_key(http_core::encoding::Encoding::Identity));
    assert_eq!(m.len(), 1);
}
