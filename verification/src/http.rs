//! Stateless translation of HTTP requests into cache fetches and responses.
//!
//! Only `GET` and `HEAD` in origin-form are served; anything else is a
//! `400` before the cache is touched. A fetch outcome maps to `200` with
//! `Content-Length` and `Last-Modified`, or to `404`, `403` or `500` with a
//! small HTML body. The wire framing itself — request parsing, header and
//! date formatting — is the surrounding application's; this module fixes
//! the status, the headers' values and the body bytes.

use vstd::prelude::*;
use vstd::string::StrSliceExecFns;
use vstd::string::StringSliceAdditionalSpecFns;
use std::sync::Arc;
use crate::cache::{CachedFile, IoErrorKind};

verus! {

/// The request method, reduced to what the responder distinguishes.
#[derive(Clone, Copy, Debug, PartialEq, Eq, Structural)]
pub enum HttpMethod {
    Get,
    Head,
    Other,
}

/// Everything the wire framing needs to write one response: the status, the
/// header values owed on a `200`, and the body bytes. `last_modified` is the
/// file's modification time in seconds; the framing renders it as an
/// RFC-compliant date.
pub struct HttpResponse {
    pub status: u16,
    pub content_length: Option<u64>,
    pub last_modified: Option<u64>,
    pub body: Vec<u8>,
}

/// A request reaches the cache only as `GET` or `HEAD` in origin-form.
pub fn request_accepted(method: HttpMethod, uri_is_absolute: bool) -> (r: bool)
    ensures
        r == ((method == HttpMethod::Get || method == HttpMethod::Head) && !uri_is_absolute),
{
    (method == HttpMethod::Get || method == HttpMethod::Head) && !uri_is_absolute
}

/// The `400` reply for a refused request; the cache is never consulted.
pub fn bad_request() -> (r: HttpResponse)
    ensures
        r.status == 400,
        r.content_length is None,
        r.last_modified is None,
        r.body@ == Seq::<u8>::empty(),
{
    HttpResponse { status: 400, content_length: None, last_modified: None, body: Vec::new() }
}

/// The body sent with a `404`.
pub open spec fn not_found_page() -> Seq<u8> {
    "<h1>HTTP 404 - Not Found</h1>".spec_bytes()
}

/// The body sent with a `403`.
pub open spec fn forbidden_page() -> Seq<u8> {
    "<h1>HTTP 403 - Forbidden</h1>".spec_bytes()
}

/// The prefix of the body sent with a `500`; the error's reporting text
/// follows it.
pub open spec fn server_error_page() -> Seq<u8> {
    "<h1>HTTP 500 - Internal Server Error</h1><pre>".spec_bytes()
}

/// Map a fetch outcome to the response: `200` with `Content-Length` and
/// `Last-Modified` for a served file (body only for `GET`), `404`, `403` or
/// `500` with a small HTML page for a failed read.
pub fn respond(method: HttpMethod, outcome: Result<Arc<CachedFile>, IoErrorKind>) -> (r:
    HttpResponse)
    ensures
        match outcome {
            Ok(f) => {
                &&& r.status == 200
                &&& r.content_length matches Some(l) && l == f.bytes@.len()
                &&& r.last_modified == Some(f.mtime)
                &&& r.body@ == if method == HttpMethod::Get {
                    f.bytes@
                } else {
                    Seq::<u8>::empty()
                }
            },
            Err(e) => {
                &&& r.content_length is None
                &&& r.last_modified is None
                &&& match e {
                    IoErrorKind::NotFound => r.status == 404 && r.body@ == not_found_page(),
                    IoErrorKind::PermissionDenied => r.status == 403 && r.body@
                        == forbidden_page(),
                    IoErrorKind::Other(detail) => r.status == 500 && r.body@ == server_error_page()
                        + detail@,
                }
            },
        },
{
    match outcome {
        Ok(f) => {
            let len = f.bytes.len();
            let body: Vec<u8> = if method == HttpMethod::Get {
                f.bytes.clone()
            } else {
                Vec::new()
            };
            HttpResponse {
                status: 200,
                content_length: Some(len as u64),
                last_modified: Some(f.mtime),
                body,
            }
        },
        Err(IoErrorKind::NotFound) => HttpResponse {
            status: 404,
            content_length: None,
            last_modified: None,
            body: "<h1>HTTP 404 - Not Found</h1>".as_bytes_vec(),
        },
        Err(IoErrorKind::PermissionDenied) => HttpResponse {
            status: 403,
            content_length: None,
            last_modified: None,
            body: "<h1>HTTP 403 - Forbidden</h1>".as_bytes_vec(),
        },
        Err(IoErrorKind::Other(detail)) => {
            let mut body = "<h1>HTTP 500 - Internal Server Error</h1><pre>".as_bytes_vec();
            let mut detail = detail;
            body.append(&mut detail);
            HttpResponse { status: 500, content_length: None, last_modified: None, body }
        },
    }
}

} // verus!
