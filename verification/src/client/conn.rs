//! What a client-side handler learns of the connection it serves: the URI,
//! and for a response its status and headers.

use crate::accessor::State;
use crate::headers::{ascii_text, first_value, get_header_in, header_entries, header_key, header_visible};
use crate::uri::UriParts;
use hyper::HeaderMap;
use vstd::prelude::*;

verus! {

/// Base connection information for client-side connections.
#[derive(Clone, Debug)]
#[verifier::reject_recursive_types(S)]
pub struct BaseConn<S = ()> {
    state: State<S>,
    uri: UriParts,
}

impl<S> BaseConn<S> {
    /// The URI of the connection.
    pub closed spec fn spec_uri(&self) -> UriParts {
        self.uri
    }

    /// The shared state.
    pub closed spec fn spec_state(&self) -> State<S> {
        self.state
    }

    /// Gathers the information of a connection.
    pub fn new(uri: UriParts, state: State<S>) -> (r: Self)
        ensures
            r.spec_uri() == uri,
            r.spec_state() == state,
    {
        BaseConn { state, uri }
    }

    /// The URI of the connection.
    pub fn uri(&self) -> (r: &UriParts)
        ensures
            *r == self.spec_uri(),
    {
        &self.uri
    }

    /// The path of the URI.
    pub fn path(&self) -> (r: &str)
        ensures
            r@ == self.spec_uri().parts().4,
    {
        self.uri.path()
    }

    /// The shared state.
    pub fn state(&self) -> (r: &State<S>)
        ensures
            *r == self.spec_state(),
    {
        &self.state
    }
}

/// Response connection information for client-side responses: status code and
/// headers.
#[derive(Clone, Debug)]
#[verifier::reject_recursive_types(S)]
pub struct ResponseConn<S = ()> {
    base: BaseConn<S>,
    status: u16,
    response_headers: HeaderMap,
}

impl<S> ResponseConn<S> {
    /// The connection information.
    pub closed spec fn spec_base(&self) -> BaseConn<S> {
        self.base
    }

    /// The status code.
    pub closed spec fn spec_status(&self) -> u16 {
        self.status
    }

    /// The response headers.
    pub closed spec fn spec_headers(&self) -> HeaderMap {
        self.response_headers
    }

    /// Gathers the information of a response.
    pub fn new(uri: UriParts, status: u16, response_headers: HeaderMap, state: State<S>) -> (r: Self)
        ensures
            r.spec_base().spec_uri() == uri,
            r.spec_base().spec_state() == state,
            r.spec_status() == status,
            r.spec_headers() == response_headers,
    {
        ResponseConn { base: BaseConn::new(uri, state), status, response_headers }
    }

    /// The connection information.
    pub fn base(&self) -> (r: &BaseConn<S>)
        ensures
            *r == self.spec_base(),
    {
        &self.base
    }

    /// The URI of the connection.
    pub fn as_uri(&self) -> (r: &UriParts)
        ensures
            *r == self.spec_base().spec_uri(),
    {
        self.base.uri()
    }

    /// Returns the HTTP status code.
    pub fn status(&self) -> (r: u16)
        ensures
            r == self.spec_status(),
    {
        self.status
    }

    /// Returns a response header value by name (case-insensitive), when it
    /// reads as text.
    pub fn get_header(&self, name: &str) -> (r: Option<&str>)
        ensures
            match header_key(name@) {
                Some(k) => match first_value(header_entries(self.spec_headers()), k) {
                    Some(v) => if header_visible(v) {
                        r matches Some(s) && s@ == ascii_text(v)
                    } else {
                        r is None
                    },
                    None => r is None,
                },
                None => r is None,
            },
    {
        get_header_in(&self.response_headers, name)
    }

    /// Returns all response headers.
    pub fn get_headers(&self) -> (r: &HeaderMap)
        ensures
            *r == self.spec_headers(),
    {
        &self.response_headers
    }
}

} // verus!
