//! The parts of the server that decide rather than do I/O.
use vstd::prelude::*;

use crate::context::Context;
use crate::http::content_type::default_content_type;
use crate::http::request::{Request, RequestReadError};
use crate::http::response::{has_default_envelope, Response};
use crate::http::status::Status;
use crate::route::{spec_search, RouteNode};

verus! {

/// Why serving failed.
#[derive(Debug)]
pub enum ServerError {
    BindError(std::io::Error),
    RequestReadError(RequestReadError),
    ResponseWriteError(std::io::Error),
}

/// The handler for a path that no route matches: an empty `404 Not Found`
/// response.
pub fn not_found(request: Request, context: Context) -> (r: Response)
    ensures
        r.status == Status::NotFound,
        r.body@.len() == 0,
        r.content_type == default_content_type(),
        has_default_envelope(r),
{
    Response::with_status(Status::NotFound)
}

/// The response to `request`: what the handler that `root` has for the
/// request's path answers, or the `404 Not Found` of [`not_found`] where
/// `root` has none.
pub fn dispatch<H: Fn(Request, Context) -> Response + Copy>(
    root: &RouteNode<H>,
    request: Request,
    context: Context,
) -> (r: Response)
    requires
        forall|h: H| #[trigger] call_requires(h, (request, context)),
    ensures
        match spec_search(*root, request@.uri.path) {
            Some(h) => call_ensures(h, (request, context), r),
            None => {
                &&& r.status == Status::NotFound
                &&& r.body@.len() == 0
                &&& r.content_type == default_content_type()
                &&& has_default_envelope(r)
            },
        },
{
    match root.search(request.path()) {
        Some(handler) => handler(request, context),
        None => not_found(request, context),
    }
}

} // verus!
