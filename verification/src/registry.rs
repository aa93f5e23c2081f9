//! Route registries: each path is bound to one handler at a time.

use crate::table::Table;
use vstd::prelude::*;

verus! {

/// Why a route operation was refused.
#[derive(Debug, Clone, PartialEq, Eq)]
pub enum RouteError {
    /// The path is bound already.
    AlreadyBound(String),
    /// The path is not bound.
    NotBound(String),
}

/// Handlers by route path.
pub struct Routes<T> {
    table: Table<String, T>,
}

impl<T> Routes<T> {
    /// The bound paths and their handlers.
    pub closed spec fn map(&self) -> Map<Seq<char>, T> {
        self.table.map()
    }

    /// The registry is consistent.
    pub closed spec fn wf(&self) -> bool {
        self.table.wf()
    }

    /// A registry with no route.
    pub fn new() -> (r: Self)
        ensures
            r.wf(),
            r.map() == Map::<Seq<char>, T>::empty(),
    {
        Routes { table: Table::new() }
    }

    /// Whether `path` is bound.
    pub fn is_bound(&self, path: &str) -> (r: bool)
        requires
            self.wf(),
        ensures
            r == self.map().dom().contains(path@),
    {
        self.table.contains_key(&path.to_owned())
    }

    /// The handler bound to `path`, if any.
    pub fn route(&self, path: &str) -> (r: Option<&T>)
        requires
            self.wf(),
        ensures
            match r {
                Some(v) => self.map().dom().contains(path@) && self.map()[path@] == *v,
                None => !self.map().dom().contains(path@),
            },
    {
        self.table.get(&path.to_owned())
    }

    /// Binds `path` to `handler`.
    ///
    /// # Errors
    /// [`RouteError::AlreadyBound`] when the path is bound already; the
    /// registry is then unchanged.
    pub fn add_route(&mut self, path: &str, handler: T) -> (r: Result<(), RouteError>)
        requires
            old(self).wf(),
        ensures
            final(self).wf(),
            match r {
                Ok(()) => !old(self).map().dom().contains(path@) && final(self).map() == old(
                    self,
                ).map().insert(path@, handler),
                Err(e) => old(self).map().dom().contains(path@) && final(self).map() == old(
                    self,
                ).map() && (e matches RouteError::AlreadyBound(p) && p@ == path@),
            },
    {
        if self.table.insert_new(path.to_owned(), handler) {
            Ok(())
        } else {
            Err(RouteError::AlreadyBound(path.to_owned()))
        }
    }

    /// Unbinds `path`, giving its handler back.
    ///
    /// # Errors
    /// [`RouteError::NotBound`] when the path is not bound.
    pub fn remove_route(&mut self, path: &str) -> (r: Result<T, RouteError>)
        requires
            old(self).wf(),
        ensures
            final(self).wf(),
            final(self).map() == old(self).map().remove(path@),
            match r {
                Ok(v) => old(self).map().dom().contains(path@) && old(self).map()[path@] == v,
                Err(e) => !old(self).map().dom().contains(path@) && (e matches RouteError::NotBound(p)
                    && p@ == path@),
            },
    {
        match self.table.remove(&path.to_owned()) {
            Some(v) => Ok(v),
            None => Err(RouteError::NotBound(path.to_owned())),
        }
    }
}

/// Binding a free path and unbinding it gives the registry back as it was,
/// and the unbinding hands back the handler that was bound.
pub proof fn lemma_bind_then_unbind<T>(routes: Map<Seq<char>, T>, path: Seq<char>, handler: T)
    requires
        !routes.dom().contains(path),
    ensures
        routes.insert(path, handler).remove(path) == routes,
        routes.insert(path, handler)[path] == handler,
{
    assert(routes.insert(path, handler).remove(path) =~= routes);
}

/// A path can be bound only once: after a binding succeeds, binding the same
/// path again is refused (the path is in the registry).
pub proof fn lemma_bound_path_refused<T>(routes: Map<Seq<char>, T>, path: Seq<char>, handler: T)
    ensures
        routes.insert(path, handler).dom().contains(path),
{
}

/// Unbinding leaves the path free, so a second unbinding is refused.
pub proof fn lemma_unbound_path_refused<T>(routes: Map<Seq<char>, T>, path: Seq<char>)
    ensures
        !routes.remove(path).dom().contains(path),
{
}

/// Binding or unbinding one path leaves every other path as it was.
pub proof fn lemma_other_paths_untouched<T>(
    routes: Map<Seq<char>, T>,
    path: Seq<char>,
    other: Seq<char>,
    handler: T,
)
    requires
        path != other,
    ensures
        routes.insert(path, handler).dom().contains(other) == routes.dom().contains(other),
        routes.dom().contains(other) ==> routes.insert(path, handler)[other] == routes[other],
        routes.remove(path).dom().contains(other) == routes.dom().contains(other),
        routes.dom().contains(other) ==> routes.remove(path)[other] == routes[other],
{
}

} // verus!
