use std::sync::Arc;
use vstd::prelude::*;

verus! {

/// A value that is either owned or shared, read in the same way either way.
#[derive(Clone, Debug, PartialEq, Eq, Hash)]
pub enum Immutable<T: Clone> {
    Owned(T),
    Arc(Arc<T>),
}

impl<T: Clone> Immutable<T> {
    /// The value, whether owned or shared.
    pub open spec fn inner(&self) -> T {
        match self {
            Immutable::Owned(v) => *v,
            Immutable::Arc(v) => **v,
        }
    }

    /// Read access to the value.
    pub fn get_inner(&self) -> (r: &T)
        ensures
            *r == self.inner(),
    {
        match self {
            Immutable::Owned(v) => v,
            Immutable::Arc(v) => v,
        }
    }

    /// The value as a shared one: an owned value is moved into a new `Arc`,
    /// a shared one is handed on.
    pub fn to_arc(self) -> (r: Arc<T>)
        ensures
            *r == self.inner(),
            self matches Immutable::Arc(v) ==> r == v,
    {
        match self {
            Immutable::Owned(v) => Arc::new(v),
            Immutable::Arc(v) => v,
        }
    }

    /// The value in shared form: an owned value is moved into a new `Arc`.
    pub fn into_shared(self) -> (r: Immutable<T>)
        ensures
            r is Arc,
            r.inner() == self.inner(),
    {
        Immutable::Arc(self.to_arc())
    }

    /// The value as an owned one: an owned value is handed on, a shared one is cloned.
    pub fn into_owned(self) -> (r: T)
        ensures
            self is Owned ==> r == self.inner(),
            self is Arc ==> cloned(self.inner(), r),
    {
        match self {
            Immutable::Owned(v) => v,
            Immutable::Arc(v) => (*v).clone(),
        }
    }
}

impl<T: Clone> core::ops::Deref for Immutable<T> {
    type Target = T;

    fn deref(&self) -> (r: &T)
        ensures
            *r == self.inner(),
    {
        self.get_inner()
    }
}

} // verus!
