use http_core::method::Method;
use http_core::request::RequestContext;
use http_core::router::{RouteError, Router};
use http_core::{ok, Response};

struct AlwaysOk;

impl http_core::middleware::Handler for AlwaysOk {
    fn handle(&self, _ctx: &RequestContext) -> Response {
        ok()
    }
}

#[test]
fn match_extracts_variables() {
    let mut router = Router::new();
    router
        .add_handler(Method::GET, "/echo/<s>", Box::new(AlwaysOk))
        .unwrap();
    router
        .add_handler(Method::GET, "/files/<dir>/<file>", Box::new(AlwaysOk))
        .unwrap();

    let (idx, vars) = router.match_route(Method::GET, "/echo/abc").unwrap();
    assert_eq!(idx, 0);
    assert_eq!(vars.get("s"), Some("abc"));
    assert_eq!(vars.len(), 1);

    let (idx, vars) = router.match_route(Method::GET, "/files/a1/b2").unwrap();
    assert_eq!(idx, 1);
    assert_eq!(vars.get("dir"), Some("a1"));
    assert_eq!(vars.get("file"), Some("b2"));
    assert_eq!(vars.len(), 2);
}

#[test]
fn first_registered_route_wins() {
    let mut router = Router::new();
    router
        .add_handler(Method::GET, "/files/<file>", Box::new(AlwaysOk))
        .unwrap();
    router
        .add_handler(Method::GET, "/files/special", Box::new(AlwaysOk))
        .unwrap();

    let (idx, vars) = router.match_route(Method::GET, "/files/special").unwrap();
    assert_eq!(idx, 0);
    assert_eq!(vars.get("file"), Some("special"));
}

#[test]
fn no_match_is_none() {
    let mut router = Router::new();
    router
        .add_handler(Method::GET, "/files/<file>", Box::new(AlwaysOk))
        .unwrap();
    assert!(router.match_route(Method::GET, "/nope").is_none());
    // a matching path under another method is still no match
    assert!(router.match_route(Method::POST, "/files/a").is_none());
}

#[test]
fn variables_take_one_nonempty_segment() {
    let mut router = Router::new();
    router
        .add_handler(Method::GET, "/echo/<s>", Box::new(AlwaysOk))
        .unwrap();
    assert!(router.match_route(Method::GET, "/echo/").is_none());
    assert!(router.match_route(Method::GET, "/echo/a?b").is_none());
    assert!(router.match_route(Method::GET, "/echo/a/b").is_none());
    assert!(router.match_route(Method::GET, "/echo/a").is_some());
}

#[test]
fn malformed_variable_stays_literal() {
    let mut router = Router::new();
    router
        .add_handler(Method::GET, "/p/<Up>", Box::new(AlwaysOk))
        .unwrap();
    // `<Up>` is no variable name, so it only matches itself
    assert!(router.match_route(Method::GET, "/p/<Up>").is_some());
    assert!(router.match_route(Method::GET, "/p/zzz").is_none());
}

#[test]
fn duplicate_variable_is_rejected() {
    let mut router = Router::new();
    let r = router.add_handler(Method::GET, "/x/<a>/<a>", Box::new(AlwaysOk));
    assert_eq!(r, Err(RouteError::DuplicateVariable));
    let r = router.add_handler(Method::GET, "/x/<a>/<b>", Box::new(AlwaysOk));
    assert!(r.is_ok());
}

#[test]
fn unknown_path_dispatches_to_404_with_empty_body() {
    let router = Router::new();
    let req = http_core::codec::decode_request(b"GET /nope HTTP/1.1\r\n\r\n").unwrap();
    let resp = router.dispatch(&[], req);
    assert_eq!(resp.status.code_num, 404);
    assert!(resp.content.is_none());
    assert_eq!(resp.headers.len(), 0);
}
