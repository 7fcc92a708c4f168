//! The parts of a request that the library reads from its head.
use crate::cookie::{cookie_header_entries, CookieMap};
use crate::error::caused_by_client;
use crate::header::HeaderMap;
use crate::path_params::{wildcard_bindings, PathParamMap};
use crate::query::{query_params, QueryParamMap};
use crate::response::Response;
use crate::route_path::{parse_path, RoutePath, RoutePathMatched};
use crate::text::strings_view;
use vstd::prelude::*;

verus! {

/// What a request's head gives to handlers: its path, the path it matched,
/// and its parameters, headers and cookies.
#[derive(Debug)]
pub struct RequestParts {
    /// The request path.
    pub path: RoutePath,
    /// The matched path, with the text of each wildcard.
    pub matched_path: RoutePathMatched,
    /// The wildcard bindings of the matched path.
    pub path_params: PathParamMap,
    /// The query parameters.
    pub query: QueryParamMap,
    /// The headers.
    pub headers: HeaderMap,
    /// The cookies.
    pub cookies: CookieMap,
}

impl RequestParts {
    /// Reads the parts of a request: its path text, its query text if any,
    /// the path that routing matched, its headers as name and value pairs
    /// and the texts of its `Cookie` headers.
    pub fn new(
        path: &str,
        query: Option<&str>,
        matched_path: RoutePathMatched,
        header_pairs: &[(String, String)],
        cookie_headers: &[String],
    ) -> (r: Self)
        ensures
            r.path@ == parse_path(path@),
            r.matched_path@ == matched_path@,
            r.path_params@ == wildcard_bindings(matched_path@),
            r.query@ == match query {
                Some(q) => query_params(q@),
                None => Seq::empty(),
            },
            r.cookies@ == cookie_header_entries(strings_view(cookie_headers@)),
    {
        let path_params = PathParamMap::from_matched(&matched_path);
        let query = match query {
            Some(q) => QueryParamMap::parse(q),
            None => QueryParamMap::new(),
        };
        RequestParts {
            path: RoutePath::parse(path),
            matched_path,
            path_params,
            query,
            headers: HeaderMap::from_pairs(header_pairs),
            cookies: CookieMap::parse_headers(cookie_headers),
        }
    }
}

impl Response {
    /// Whether the response is a failure that the server caused, which is
    /// reported to the operator.
    pub fn is_reportable(&self) -> (r: bool)
        ensures
            r <==> (*self matches Response::Failure(e) && !caused_by_client(e)),
    {
        match self {
            Response::Failure(e) => e.source().is_server(),
            Response::Success(_) => false,
        }
    }
}

} // verus!
