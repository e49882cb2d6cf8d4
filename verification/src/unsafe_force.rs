//! A value that is handed to another thread.
use vstd::prelude::*;

verus! {

/// Holds a value on its way to another thread.
pub struct Send<T>(T);

impl<T> Send<T> {
    /// The value held.
    pub closed spec fn inner(&self) -> T {
        self.0
    }

    /// Wraps a value for handing it on.
    pub fn new(t: T) -> (r: Self)
        ensures
            r.inner() == t,
    {
        Send(t)
    }

    /// The value, unwrapped again.
    pub fn unwrap(self) -> (r: T)
        ensures
            r == self.inner(),
    {
        self.0
    }
}

} // verus!
