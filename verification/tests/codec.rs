use http_core::codec::{decode_request, frame_request, serialize_response, DecodeError};
use http_core::method::Method;
use http_core::status::Status;
use http_core::strmap::StrMap;
use http_core::Response;

#[test]
fn decode_simple_get() {
    let input = b"GET /index HTTP/1.1\r\nHost: example\r\n\r\n";
    let req = decode_request(input).unwrap();
    assert_eq!(req.method, Method::GET);
    assert_eq!(req.url, "/index");
    assert_eq!(req.get_header("Host"), Some("example"));
    assert_eq!(req.get_header("host"), Some("example"));
    assert!(req.content.is_empty());
}

#[test]
fn decode_post_with_body() {
    let input = b"POST /submit HTTP/1.1\r\nContent-Length: 5\r\n\r\nhello";
    let req = decode_request(input).unwrap();
    assert_eq!(req.method, Method::POST);
    assert_eq!(req.url, "/submit");
    assert_eq!(req.content, b"hello".to_vec());
}

#[test]
fn decode_truncated_body_is_best_effort() {
    let input = b"POST /x HTTP/1.1\r\nContent-Length: 10\r\n\r\nabc";
    let req = decode_request(input).unwrap();
    assert_eq!(req.content, b"abc".to_vec());
}

#[test]
fn decode_missing_version_is_rejected() {
    // a start line of two tokens only
    let input = b"GET /\r\n";
    assert!(matches!(decode_request(input), Err(DecodeError::BadStartLine)));
}

#[test]
fn decode_error_kinds() {
    assert!(matches!(decode_request(b"GET /\r\n\r\n"), Err(DecodeError::BadStartLine)));
    assert!(matches!(decode_request(b"PUT / HTTP/1.1\r\n\r\n"), Err(DecodeError::UnknownMethod)));
    assert!(matches!(
        decode_request(b"GET / HTTP/1.0\r\n\r\n"),
        Err(DecodeError::UnsupportedVersion)
    ));
    assert!(matches!(
        decode_request(b"GET / HTTP/1.1\r\nNoColonHere\r\n\r\n"),
        Err(DecodeError::MalformedHeader)
    ));
    assert!(matches!(
        decode_request(b"GET / HTTP/1.1\r\nContent-Length: abc\r\n\r\n"),
        Err(DecodeError::BadContentLength)
    ));
}

#[test]
fn decode_headers_trim_lowercase_last_write_wins() {
    let input = b"GET / HTTP/1.1\r\nX-Key:  a \r\nx-key: b\r\nOther:v\r\n\r\n";
    let req = decode_request(input).unwrap();
    assert_eq!(req.get_header("X-KEY"), Some("b"));
    assert_eq!(req.get_header("other"), Some("v"));
    assert_eq!(req.get_header("absent"), None);
}

#[test]
fn serialize_empty_ok_response() {
    let resp = Response::from_parts(Status::ok(), StrMap::new(), None);
    let out = serialize_response(&resp);
    assert_eq!(out, b"HTTP/1.1 200 OK\r\n\r\n".to_vec());
}

#[test]
fn serialize_with_headers_and_body() {
    let mut headers = StrMap::new();
    headers.insert("Content-Type".to_string(), "text/plain".to_string());
    let resp = Response::from_parts(Status::ok(), headers, Some(b"hello".to_vec()));
    let out = serialize_response(&resp);
    assert_eq!(
        out,
        b"HTTP/1.1 200 OK\r\nContent-Type: text/plain\r\nContent-Length: 5\r\n\r\nhello".to_vec()
    );
}

#[test]
fn body_round_trips_through_decode_and_encode() {
    // a declared body, fully available, echoed back by a response
    let input = b"POST /echo HTTP/1.1\r\nContent-Length: 11\r\n\r\nhello world";
    let req = decode_request(input).unwrap();
    assert_eq!(req.content, b"hello world".to_vec());
    let resp = Response::from_parts(Status::ok(), StrMap::new(), Some(req.content.clone()));
    let out = serialize_response(&resp);
    assert!(out.ends_with(b"hello world"));
    assert_eq!(
        out,
        b"HTTP/1.1 200 OK\r\nContent-Length: 11\r\n\r\nhello world".to_vec()
    );
}

#[test]
fn emitted_content_length_reads_back_as_body_length() {
    let body = vec![7u8; 42];
    let resp = Response::from_parts(Status::ok(), StrMap::new(), Some(body.clone()));
    let out = serialize_response(&resp);
    // the head is ASCII; read the Content-Length value back out of it
    let text_end = out.len() - body.len();
    let head = std::str::from_utf8(&out[..text_end]).unwrap();
    let line = head
        .lines()
        .find(|l| l.starts_with("Content-Length: "))
        .unwrap();
    let n: usize = line["Content-Length: ".len()..].parse().unwrap();
    assert_eq!(n, body.len());
}

#[test]
fn serialize_custom_status() {
    let resp = Response::from_parts(
        Status::from_parts(418, "I'm a teapot".to_string()),
        StrMap::new(),
        None,
    );
    let out = serialize_response(&resp);
    assert_eq!(out, b"HTTP/1.1 418 I'm a teapot\r\n\r\n".to_vec());
}

#[test]
fn frame_reports_head_and_body_length() {
    assert_eq!(frame_request(b"GET / HTTP"), None);
    assert_eq!(frame_request(b"GET / HTTP/1.1\r\nHost: x\r\n"), None);
    let whole = b"POST /x HTTP/1.1\r\nContent-Length: 5\r\n\r\n";
    assert_eq!(frame_request(whole), Some((whole.len(), 5)));
    let plain = b"GET / HTTP/1.1\r\n\r\n";
    assert_eq!(frame_request(plain), Some((plain.len(), 0)));
}

#[test]
fn decode_utf8_target() {
    let input = "GET /caf\u{e9} HTTP/1.1\r\n\r\n".as_bytes();
    let req = decode_request(input).unwrap();
    assert_eq!(req.url, "/caf\u{e9}");
}

#[test]
fn decode_invalid_utf8_target_is_rejected() {
    let input = b"GET /a\xFFb HTTP/1.1\r\n\r\n";
    assert!(matches!(decode_request(input), Err(DecodeError::TargetNotText)));
}

#[test]
fn decode_empty_input_is_a_bad_start_line() {
    assert!(matches!(decode_request(b""), Err(DecodeError::BadStartLine)));
}

#[test]
fn decode_oversized_content_length_is_rejected() {
    let input = b"GET / HTTP/1.1\r\nContent-Length: 99999999999999999999999\r\n\r\n";
    assert!(matches!(decode_request(input), Err(DecodeError::BadContentLength)));
}

#[test]
fn decode_plus_signed_content_length() {
    let input = b"POST / HTTP/1.1\r\nContent-Length: +3\r\n\r\nabcdef";
    let req = decode_request(input).unwrap();
    assert_eq!(req.content, b"abc".to_vec());
}
