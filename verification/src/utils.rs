//! Helpers.
use vstd::prelude::*;

verus! {

/// Holds an iterator that is meant to be walked once, to show its items.
pub struct DebugIterableOpaque<I> {
    one_use_inner: I,
}

impl<I> DebugIterableOpaque<I> {
    /// The iterator held.
    pub closed spec fn inner(&self) -> I {
        self.one_use_inner
    }

    /// Wraps `one_use_inner`.
    pub fn new(one_use_inner: I) -> (r: Self)
        ensures
            r.inner() == one_use_inner,
    {
        DebugIterableOpaque { one_use_inner }
    }
}

} // verus!
