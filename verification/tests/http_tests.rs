use std::sync::Arc;

use liveserve::cache::{CachedFile, IoErrorKind};
use liveserve::http::{bad_request, request_accepted, respond, HttpMethod};

fn b(s: &str) -> Vec<u8> {
    s.as_bytes().to_vec()
}

fn file(mtime: u64, bytes: &str) -> Arc<CachedFile> {
    Arc::new(CachedFile { mtime, bytes: b(bytes) })
}

#[test]
fn only_get_and_head_in_origin_form() {
    assert!(request_accepted(HttpMethod::Get, false));
    assert!(request_accepted(HttpMethod::Head, false));
    assert!(!request_accepted(HttpMethod::Other, false));
    assert!(!request_accepted(HttpMethod::Get, true));
    assert!(!request_accepted(HttpMethod::Head, true));
}

#[test]
fn refused_request_is_400() {
    let r = bad_request();
    assert_eq!(r.status, 400);
    assert!(r.body.is_empty());
    assert_eq!(r.content_length, None);
}

#[test]
fn served_file_is_200_with_headers() {
    let r = respond(HttpMethod::Get, Ok(file(777, "hello world\n")));
    assert_eq!(r.status, 200);
    assert_eq!(r.content_length, Some(12));
    assert_eq!(r.last_modified, Some(777));
    assert_eq!(r.body, b("hello world\n"));
}

#[test]
fn head_omits_body_keeps_headers() {
    let r = respond(HttpMethod::Head, Ok(file(777, "hello world\n")));
    assert_eq!(r.status, 200);
    assert_eq!(r.content_length, Some(12));
    assert_eq!(r.last_modified, Some(777));
    assert!(r.body.is_empty());
}

#[test]
fn missing_file_is_404() {
    let r = respond(HttpMethod::Get, Err(IoErrorKind::NotFound));
    assert_eq!(r.status, 404);
    assert_eq!(r.content_length, None);
    assert_eq!(r.last_modified, None);
    assert_eq!(r.body, b("<h1>HTTP 404 - Not Found</h1>"));
}

#[test]
fn forbidden_file_is_403() {
    let r = respond(HttpMethod::Get, Err(IoErrorKind::PermissionDenied));
    assert_eq!(r.status, 403);
    assert_eq!(r.body, b("<h1>HTTP 403 - Forbidden</h1>"));
}

#[test]
fn other_error_is_500_with_detail() {
    let r = respond(HttpMethod::Get, Err(IoErrorKind::Other(b("device gone"))));
    assert_eq!(r.status, 500);
    assert_eq!(
        r.body,
        b("<h1>HTTP 500 - Internal Server Error</h1><pre>device gone")
    );
}
