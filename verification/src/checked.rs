//! A cell granting shared or exclusive access to a value it owns, together
//! with helpers that narrow an access to a component of the value. Access
//! discipline — any number of readers or a single writer — is enforced by
//! the borrows themselves, so none of these operations can fail.

use vstd::prelude::*;

verus! {

/// A cell owning a value that callers read through shared access and
/// update through exclusive access.
pub struct RcCell<T> {
    pub inner: T,
}

impl<T> RcCell<T> {
    /// A cell holding `value`.
    pub fn new(value: T) -> (r: Self)
        ensures
            r.inner == value,
    {
        RcCell { inner: value }
    }

    /// Shared access to the contents.
    pub fn get(&self) -> (r: &T)
        ensures
            *r == self.inner,
    {
        &self.inner
    }

    /// Exclusive access to the contents.
    pub fn get_mut(&mut self) -> (r: &mut T)
        ensures
            *r == old(self).inner,
            final(self).inner == *final(r),
    {
        &mut self.inner
    }
}

/// A key handed out of an exclusive borrow: readable, never writable, so
/// the ordering the key takes part in cannot be disturbed.
pub struct RefKey<'a, T> {
    pub key: &'a T,
}

impl<'a, T> RefKey<'a, T> {
    /// Read the key.
    pub fn get(&self) -> (r: &T)
        ensures
            r == self.key,
    {
        self.key
    }
}

/// Narrow a shared borrow to a component picked by `f`.
pub fn map_ref<T, U, F: FnOnce(&T) -> &U>(orig: &T, f: F) -> (r: &U)
    requires
        f.requires((orig,)),
    ensures
        f.ensures((orig,), r),
{
    f(orig)
}

/// Split a shared borrow into two components picked by `f`.
pub fn split_ref<T, U, W, F: FnOnce(&T) -> (&U, &W)>(orig: &T, f: F) -> (r: (&U, &W))
    requires
        f.requires((orig,)),
    ensures
        f.ensures((orig,), r),
{
    f(orig)
}

/// Turn an exclusive borrow into a read-only key handle.
pub fn mut_to_key<'a, T>(orig: &'a mut T) -> (r: RefKey<'a, T>)
    ensures
        r.key == *old(orig),
{
    RefKey { key: &*orig }
}

} // verus!
