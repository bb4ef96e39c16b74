//! Wrappers that pair a value with the adapter that reads and writes it.
use vstd::prelude::*;

verus! {

/// Holds a value that is read and written with the adapter `A`.
pub struct As<T, A> {
    value: T,
    marker: core::marker::PhantomData<A>,
}

impl<T, A> As<T, A> {
    /// The wrapped value.
    pub closed spec fn inner(&self) -> T {
        self.value
    }

    /// Wraps a value.
    pub fn new(value: T) -> (r: As<T, A>)
        ensures
            r.inner() == value,
    {
        As { value, marker: core::marker::PhantomData }
    }

    /// Returns the wrapped value.
    pub fn into_inner(self) -> (r: T)
        ensures
            r == self.inner(),
    {
        self.value
    }
}

/// A value that is written with the adapter `A`.
pub struct SerializeAsRef<A, T> {
    marker: core::marker::PhantomData<A>,
    value: T,
}

impl<A, T> SerializeAsRef<A, T> {
    /// The wrapped value.
    pub closed spec fn inner(&self) -> T {
        self.value
    }

    /// Wraps a value.
    pub fn wrap(value: T) -> (r: SerializeAsRef<A, T>)
        ensures
            r.inner() == value,
    {
        SerializeAsRef { marker: core::marker::PhantomData, value }
    }

    /// Returns the wrapped value.
    pub fn get(&self) -> (r: &T)
        ensures
            *r == self.inner(),
    {
        &self.value
    }
}

} // verus!
