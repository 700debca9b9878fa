use core::marker::PhantomData;
use vstd::prelude::*;

verus! {

/// A handle to a heap cell: a non-null address whose pointee type is fixed.
///
/// Addresses are plain integers; `0` plays the part of the null address.
/// The handle carries no ownership: copying it makes another alias of the
/// same cell, and two handles are the same exactly when their addresses are.
/// The marker ties the handle to its pointee type `T`.
pub struct JustNonNull<T> {
    inner: usize,
    _marker: PhantomData<T>,
}

impl<T> View for JustNonNull<T> {
    type V = int;

    closed spec fn view(&self) -> int {
        self.inner as int
    }
}

impl<T> JustNonNull<T> {
    #[verifier::type_invariant]
    spec fn non_null(&self) -> bool {
        self.inner != 0
    }

    /// Wraps `ptr`, or gives `None` when it is the null address.
    pub fn new(ptr: usize) -> (r: Option<Self>)
        ensures
            r is None <==> ptr == 0,
            r matches Some(h) ==> h@ == ptr as int,
    {
        if ptr == 0 {
            None
        } else {
            Some(JustNonNull { inner: ptr, _marker: PhantomData })
        }
    }

    /// Wraps the address of a live cell, which is never null.
    pub fn from_mut(ptr: usize) -> (r: Self)
        requires
            ptr != 0,
        ensures
            r@ == ptr as int,
    {
        JustNonNull { inner: ptr, _marker: PhantomData }
    }

    /// The address this handle denotes; never null.
    pub fn as_ptr(&self) -> (r: usize)
        ensures
            r as int == self@,
            r != 0,
    {
        proof {
            use_type_invariant(self);
        }
        self.inner
    }

}

impl<T> Clone for JustNonNull<T> {
    fn clone(&self) -> (r: Self)
        ensures
            r == *self,
    {
        *self
    }
}

impl<T> Copy for JustNonNull<T> {
}

impl<T> PartialEq for JustNonNull<T> {
    /// Two handles are equal when they denote the same address.
    fn eq(&self, other: &Self) -> (r: bool)
        ensures
            r == (self@ == other@),
    {
        self.inner == other.inner
    }
}

impl<T> vstd::std_specs::cmp::PartialEqSpecImpl for JustNonNull<T> {
    open spec fn obeys_eq_spec() -> bool {
        true
    }

    open spec fn eq_spec(&self, other: &Self) -> bool {
        self@ == other@
    }
}

} // verus!
