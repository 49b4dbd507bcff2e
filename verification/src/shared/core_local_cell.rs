//! A cell for a value that only one core touches, set once at start-up and
//! used afterwards.

use vstd::prelude::*;

verus! {

/// A slot that holds nothing until `set` puts a value into it.
pub struct CoreLocalCell<T> {
    inner: Option<T>,
}

impl<T> CoreLocalCell<T> {
    /// What the cell holds, if it has been set.
    pub closed spec fn value(&self) -> Option<T> {
        self.inner
    }

    /// An empty cell.
    pub fn new() -> (c: Self)
        ensures
            c.value() is None,
    {
        CoreLocalCell { inner: None }
    }

    /// Puts `v` into the cell, replacing what it held.
    pub fn set(&mut self, v: T)
        ensures
            final(self).value() == Some(v),
    {
        self.inner = Some(v);
    }

    /// The value in the cell; the cell must have been set.
    pub fn get(&self) -> (r: &T)
        requires
            self.value() is Some,
        ensures
            *r == self.value()->0,
    {
        self.inner.as_ref().unwrap()
    }

    /// The value in the cell, for updating; the cell must have been set.
    pub fn get_mut(&mut self) -> (r: &mut T)
        requires
            old(self).value() is Some,
        ensures
            *r == old(self).value()->0,
            final(self).value() == Some(*final(r)),
    {
        self.inner.as_mut().unwrap()
    }
}

} // verus!
