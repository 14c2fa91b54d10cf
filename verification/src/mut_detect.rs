//! A small wrapper that records whether its inner value has been written
//! through one of the mutating accessors.

use vstd::prelude::*;

verus! {

/// Mutation detection around a value: every write through this wrapper
/// raises a sticky `mutated` flag until it is explicitly reset.
#[derive(Debug, Clone, Copy)]
pub struct MutDetect<T> {
    inner: T,
    mutated: bool,
}

impl<T> MutDetect<T> {
    /// Wraps a value; the flag starts lowered.
    pub fn new(inner: T) -> (r: Self)
        ensures
            r.value() == inner,
            !r.spec_mutated(),
    {
        MutDetect { inner, mutated: false }
    }

    /// The wrapped value.
    pub closed spec fn value(self) -> T {
        self.inner
    }

    /// Whether the inner value has been mutated since the last reset.
    pub fn mutated(&self) -> (r: bool)
        ensures
            r == self.spec_mutated(),
    {
        self.mutated
    }

    /// The mutation flag, for use in contracts.
    pub closed spec fn spec_mutated(self) -> bool {
        self.mutated
    }

    /// Reads the inner value without raising the flag.
    pub fn get(&self) -> (r: &T)
        ensures
            r == self.value(),
    {
        &self.inner
    }

    /// Overwrites the inner value and raises the flag.
    pub fn set(&mut self, new_value: T)
        ensures
            final (self).value() == new_value,
            final (self).spec_mutated(),
    {
        self.inner = new_value;
        self.mutated = true;
    }

    /// Lowers the flag.
    pub(crate) fn reset_mutation(&mut self)
        ensures
            final (self).value() == old(self).value(),
            !final (self).spec_mutated(),
    {
        self.mutated = false;
    }
}

impl MutDetect<crate::geom::Vec2> {
    /// Overwrites the inner value only if it differs from the current one;
    /// the flag is raised only on an actual change. Returns `true` if the
    /// value was replaced.
    pub fn set_if_ne(&mut self, new_value: crate::geom::Vec2) -> (r: bool)
        ensures
            r == (old(self).value() != new_value),
            final (self).value() == new_value,
            final (self).spec_mutated() == (old(self).spec_mutated() || old(self).value() != new_value),
    {
        if self.inner != new_value {
            self.inner = new_value;
            self.mutated = true;
            return true;
        }
        false
    }
}

} // verus!
