//! What a server-side handler learns of the connection it serves: the request
//! URI and its query parameters, the client's address, the request headers,
//! and the shared state.

use crate::accessor::State;
use crate::headers::{first_value, get_header_in, header_entries, header_key, header_visible, ascii_text};
use crate::net::SocketAddress;
use crate::query::{
    query_argument, query_arguments, query_entries, query_get_all_arguments, query_get_argument,
    query_get_arguments, text_opt,
};
use crate::uri::UriParts;
use hyper::HeaderMap;
use vstd::prelude::*;

verus! {

/// Base connection information shared between WebSocket and HTTP connections.
#[derive(Clone, Debug)]
#[verifier::reject_recursive_types(S)]
pub struct BaseConn<S = ()> {
    uri: UriParts,
    socket_addr: SocketAddress,
    headers: HeaderMap,
    state: State<S>,
}

impl<S> BaseConn<S> {
    /// The request URI.
    pub closed spec fn spec_uri(&self) -> UriParts {
        self.uri
    }

    /// The client's address.
    pub closed spec fn spec_addr(&self) -> SocketAddress {
        self.socket_addr
    }

    /// The request headers.
    pub closed spec fn spec_headers(&self) -> HeaderMap {
        self.headers
    }

    /// The shared state.
    pub closed spec fn spec_state(&self) -> State<S> {
        self.state
    }

    /// The query of the request URI.
    pub open spec fn spec_query(&self) -> Option<Seq<char>> {
        self.spec_uri().parts().5
    }

    /// Gathers the information of a connection.
    pub fn new(uri: UriParts, socket_addr: SocketAddress, headers: HeaderMap, state: State<S>) -> (r: Self)
        ensures
            r.spec_uri() == uri,
            r.spec_addr() == socket_addr,
            r.spec_headers() == headers,
            r.spec_state() == state,
    {
        BaseConn { uri, socket_addr, headers, state }
    }

    /// Returns the client's socket address.
    pub fn get_addr(&self) -> (r: SocketAddress)
        ensures
            r == self.spec_addr(),
    {
        self.socket_addr
    }

    /// The request URI.
    pub fn uri(&self) -> (r: &UriParts)
        ensures
            *r == self.spec_uri(),
    {
        &self.uri
    }

    /// The path of the request URI.
    pub fn path(&self) -> (r: &str)
        ensures
            r@ == self.spec_uri().parts().4,
    {
        self.uri.path()
    }

    /// The query of the request URI, without the `?`.
    pub fn query(&self) -> (r: Option<&str>)
        ensures
            text_opt(r) == self.spec_query(),
    {
        self.uri.query()
    }

    /// Returns a single URL query parameter value by name (URL decoded): the
    /// value of its first occurrence, `None` when it does not occur.
    pub fn get_argument(&self, name: &str) -> (r: Option<String>)
        ensures
            match query_argument(self.spec_query(), name@) {
                Some(v) => r matches Some(s) && s@ == v,
                None => r is None,
            },
    {
        query_get_argument(self.uri.query(), name)
    }

    /// Returns all values (URL decoded) of the query parameter `name`, in order.
    pub fn get_arguments(&self, name: &str) -> (r: Vec<String>)
        ensures
            r@.len() == query_arguments(self.spec_query(), name@).len(),
            forall|i: int|
                0 <= i < r@.len() ==> #[trigger] r@[i]@ == query_arguments(self.spec_query(), name@)[i],
    {
        query_get_arguments(self.uri.query(), name)
    }

    /// Returns all query parameters (URL decoded) with the values of their
    /// first occurrences, in order of first appearance.
    pub fn get_all_arguments(&self) -> (r: Vec<(String, String)>)
        ensures
            r@.map_values(|e: (String, String)| (e.0@, e.1@)) == query_entries(self.spec_query()),
    {
        query_get_all_arguments(self.uri.query())
    }

    /// Returns a request header value by name (case-insensitive), when it
    /// reads as text.
    pub fn get_header(&self, name: &str) -> (r: Option<&str>)
        ensures
            match header_key(name@) {
                Some(k) => match first_value(header_entries(self.spec_headers()), k) {
                    Some(v) => if header_visible(v) {
                        r matches Some(s) && s@ == ascii_text(v)
                    } else {
                        r is None
                    },
                    None => r is None,
                },
                None => r is None,
            },
    {
        get_header_in(&self.headers, name)
    }

    /// Returns all request headers.
    pub fn get_headers(&self) -> (r: &HeaderMap)
        ensures
            *r == self.spec_headers(),
    {
        &self.headers
    }

    /// The shared state.
    pub fn state(&self) -> (r: &State<S>)
        ensures
            *r == self.spec_state(),
    {
        &self.state
    }
}

} // verus!
