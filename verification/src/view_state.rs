//! A wrapper that keeps the state of a generated view private.
use vstd::prelude::*;
use core::marker::PhantomData;

verus! {

/// The state of a view for schema `S`, kept out of reach of the code
/// around it: it is read through `Deref` and changed only through `get_mut`.
pub struct ViewState<S, T> {
    value: T,
    schema: PhantomData<S>,
}

impl<S, T> ViewState<S, T> {
    /// The state held.
    pub closed spec fn inner(self) -> T {
        self.value
    }

    pub fn new(value: T) -> (r: Self)
        ensures
            r.inner() == value,
    {
        ViewState { value, schema: PhantomData }
    }

    pub fn get_mut(&mut self) -> (r: &mut T)
        ensures
            *r == old(self).inner(),
            final(self).inner() == *final(r),
    {
        &mut self.value
    }
}

impl<S, T> core::ops::Deref for ViewState<S, T> {
    type Target = T;

    fn deref(&self) -> (r: &T)
        ensures
            *r == self.inner(),
    {
        &self.value
    }
}

} // verus!
