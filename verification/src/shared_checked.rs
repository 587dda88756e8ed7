//! A shared-access cell in which every access is individually accounted
//! for: shared borrows may coexist, an exclusive borrow stands alone. The
//! accounting is the borrow discipline itself, so no access can fail.

use vstd::prelude::*;

verus! {

/// A cell owning a value that callers read through shared borrows and
/// update through an exclusive borrow.
pub struct Shared<T> {
    pub inner: T,
}

impl<T> Shared<T> {
    /// A cell holding `value`.
    pub fn new(value: T) -> (r: Self)
        ensures
            r.inner == value,
    {
        Shared { inner: value }
    }

    /// A shared borrow of the contents.
    pub fn borrow(&self) -> (r: &T)
        ensures
            *r == self.inner,
    {
        &self.inner
    }

    /// The exclusive borrow of the contents.
    pub fn borrow_mut(&mut self) -> (r: &mut T)
        ensures
            *r == old(self).inner,
            final(self).inner == *final(r),
    {
        &mut self.inner
    }
}

/// A key handed out of an exclusive borrow: readable, never writable, so
/// the ordering the key takes part in cannot be disturbed.
pub struct RefKey<'a, T> {
    pub key: &'a T,
}

impl<'a, T> RefKey<'a, T> {
    /// Read the key.
    pub fn get(&self) -> (r: &T)
        ensures
            r == self.key,
    {
        self.key
    }
}

/// Narrow a shared borrow to a component picked by `f`.
pub fn map_ref<T, U, F: FnOnce(&T) -> &U>(orig: &T, f: F) -> (r: &U)
    requires
        f.requires((orig,)),
    ensures
        f.ensures((orig,), r),
{
    f(orig)
}

/// Split a shared borrow into two components picked by `f`.
pub fn split_ref<T, U, W, F: FnOnce(&T) -> (&U, &W)>(orig: &T, f: F) -> (r: (&U, &W))
    requires
        f.requires((orig,)),
    ensures
        f.ensures((orig,), r),
{
    f(orig)
}

/// Turn an exclusive borrow into a read-only key handle.
pub fn mut_to_key<'a, T>(orig: &'a mut T) -> (r: RefKey<'a, T>)
    ensures
        r.key == *old(orig),
{
    RefKey { key: &*orig }
}

} // verus!
