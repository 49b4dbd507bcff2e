//! A value that the cores share under the platform semaphore.

use vstd::prelude::*;

verus! {

/// A value guarded by a semaphore: it holds nothing until `init`, and is
/// reached through `lock`. Within the library the exclusive access that the
/// semaphore grants is the `&mut` borrow that `lock` takes.
pub struct Semaphore<T> {
    inner: Option<T>,
}

impl<T> Semaphore<T> {
    /// The guarded value, once `init` has put one in.
    pub closed spec fn value(&self) -> Option<T> {
        self.inner
    }

    /// A semaphore that guards nothing yet.
    pub fn new() -> (s: Self)
        ensures
            s.value() is None,
    {
        Semaphore { inner: None }
    }

    /// Puts `value` under the semaphore, replacing what it guarded.
    pub fn init(&mut self, value: T)
        ensures
            final(self).value() == Some(value),
    {
        self.inner = Some(value);
    }

    /// Exclusive access to the guarded value; `init` must have been called.
    pub fn lock(&mut self) -> (r: &mut T)
        requires
            old(self).value() is Some,
        ensures
            *r == old(self).value()->0,
            final(self).value() == Some(*final(r)),
    {
        self.inner.as_mut().unwrap()
    }

    /// Runs `f` on the guarded value under the semaphore and returns what
    /// `f` returns: the value afterwards is what `f` left behind. `init`
    /// must have been called.
    pub fn with_lock<F, R>(&mut self, f: F) -> (r: R)
        where
            F: FnOnce(&mut T) -> R,
        requires
            old(self).value() is Some,
            forall|v: &mut T| *v == old(self).value()->0 ==> #[trigger] f.requires((v,)),
        ensures
            final(self).value() is Some,
            exists|v: &mut T| {
                &&& *v == old(self).value()->0
                &&& *final(v) == final(self).value()->0
                &&& #[trigger] f.ensures((v,), r)
            },
    {
        let guard = self.lock();
        f(guard)
    }
}

} // verus!
