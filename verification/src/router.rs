//! Which handler answers a request.

use crate::http_request::{HttpRequest, Method, RequestView, Resource};
use crate::text::{find_char, find_in, lemma_skip_bounds, str_eq, to_chars};
use vstd::prelude::*;
use vstd::string::*;

verus! {

/// The handlers that answer requests.
#[derive(Debug, Clone, Copy, PartialEq, Eq, Structural)]
pub enum Handler {
    /// Answers requests to the web service, under `/api`.
    WebService,
    /// Answers requests for static pages.
    StaticPage,
    /// Answers that there is no such page.
    PageNotFound,
}

/// Whether `path` has a second segment: a slash sets its segments apart, so
/// it has one where it holds a slash.
pub open spec fn has_second_segment(path: Seq<char>) -> bool {
    find_char(path, '/', 0) < path.len()
}

/// The second segment of `path`: what stands between its first slash and
/// its second, or its end.
pub open spec fn second_segment(path: Seq<char>) -> Seq<char> {
    path.subrange(find_char(path, '/', 0) + 1, find_char(path, '/', find_char(path, '/', 0) + 1))
}

/// The handler that answers the request `r`: for a `GET`, the web service
/// if the second segment of the path is `api`, else the static pages; for
/// any other method, the answer that there is no such page.
pub open spec fn route_of(r: RequestView) -> Handler {
    if r.method == Method::Get {
        if second_segment(r.resource) == "api"@ {
            Handler::WebService
        } else {
            Handler::StaticPage
        }
    } else {
        Handler::PageNotFound
    }
}

/// Sends requests to their handlers.
pub struct Router;

impl Router {
    /// Whether `req` can be routed: any request but a `GET` whose path has
    /// no slash.
    pub fn can_route(req: &HttpRequest) -> (r: bool)
        ensures
            r == (req@.method == Method::Get ==> has_second_segment(req@.resource)),
    {
        match req.method {
            Method::Get => match &req.resource {
                Resource::Path(s) => {
                    let chars = to_chars(s.as_str());
                    let n = chars.len();
                    let slash = find_in(&chars, '/', 0, n);
                    assert(chars@.subrange(0, n as int) =~= chars@);
                    slash < n
                },
            },
            _ => true,
        }
    }

    /// The handler that answers `req`.
    pub fn route(req: &HttpRequest) -> (handler: Handler)
        requires
            req@.method == Method::Get ==> has_second_segment(req@.resource),
        ensures
            handler == route_of(req@),
    {
        match req.method {
            Method::Get => match &req.resource {
                Resource::Path(s) => {
                    let path = s.as_str();
                    let chars = to_chars(path);
                    let n = chars.len();
                    let first = find_in(&chars, '/', 0, n);
                    assert(chars@.subrange(0, n as int) =~= chars@);
                    proof {
                        lemma_skip_bounds(chars@, '/', first + 1);
                    }
                    let second = find_in(&chars, '/', first + 1, n);
                    if str_eq(path.substring_char(first + 1, second), "api") {
                        Handler::WebService
                    } else {
                        Handler::StaticPage
                    }
                },
            },
            _ => Handler::PageNotFound,
        }
    }
}

} // verus!
