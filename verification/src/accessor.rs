//! The accessor handed to route handlers, and the shared state it reaches.

use std::ops::{Deref, DerefMut};
use std::sync::Arc;
use vstd::prelude::*;

verus! {

/// Declares `tokio::sync::RwLock`, the lock of the shared state, as an opaque
/// type.
#[verifier::external_type_specification]
#[verifier::external_body]
#[verifier::reject_recursive_types(T)]
pub struct ExRwLock<T: ?Sized>(tokio::sync::RwLock<T>);

/// Shared state, behind a read-write lock.
pub type State<S> = Arc<tokio::sync::RwLock<S>>;

/// A wrapper that gives handlers access to their connection.
#[derive(Clone, Debug)]
pub struct Accessor<I> {
    inner: I,
}

impl<I> Accessor<I> {
    /// The connection inside.
    pub closed spec fn inner(&self) -> I {
        self.inner
    }

    /// Wraps a connection.
    pub fn new(inner: I) -> (r: Self)
        ensures
            r.inner() == inner,
    {
        Accessor { inner }
    }

    /// The connection inside.
    pub fn get_ref(&self) -> (r: &I)
        ensures
            *r == self.inner(),
    {
        &self.inner
    }

    /// Gives the connection back.
    pub fn into_inner(self) -> (r: I)
        ensures
            r == self.inner(),
    {
        self.inner
    }
}

impl<I> Deref for Accessor<I> {
    type Target = I;

    fn deref(&self) -> (r: &I)
        ensures
            *r == self.inner(),
    {
        &self.inner
    }
}

impl<I> DerefMut for Accessor<I> {
    fn deref_mut(&mut self) -> (r: &mut I)
        ensures
            *r == old(self).inner(),
            final(self).inner() == *final(r),
    {
        &mut self.inner
    }
}

impl<I> From<I> for Accessor<I> {
    fn from(inner: I) -> (r: Self)
        ensures
            r.inner() == inner,
    {
        Accessor { inner }
    }
}

impl<I> vstd::std_specs::convert::FromSpecImpl<I> for Accessor<I> {
    open spec fn obeys_from_spec() -> bool {
        true
    }

    closed spec fn from_spec(inner: I) -> Self {
        Accessor { inner }
    }
}

} // verus!
