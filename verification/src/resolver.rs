//! The single-shot resolver: a promise that moves from pending to resolved
//! exactly once.  This is the value half of the primitive; the blocking
//! half (a condition variable that parks awaiting callers) lives with the
//! process plumbing outside the verified library, and reads the state
//! through `try_value`.

use vstd::prelude::*;

verus! {

/// A single-shot promise.  States: pending, then resolved with a value of
/// `T`.  The first `resolve` wins; later calls change nothing.
pub struct Resolver<T> {
    /// `None` while pending; `Some(v)` once resolved with `v`.
    pub state: Option<T>,
}

/// What `resolve` does to a resolver's state: the first value sticks.
pub open spec fn spec_resolve<T>(s: Option<T>, v: T) -> Option<T> {
    match s {
        Some(w) => Some(w),
        None => Some(v),
    }
}

impl<T> Resolver<T> {
    /// Whether a value has been stored.
    pub open spec fn is_resolved(self) -> bool {
        self.state is Some
    }

    /// A fresh, pending resolver.
    pub fn new() -> (r: Resolver<T>)
        ensures
            r.state is None,
    {
        Resolver { state: None }
    }

    /// Stores `v` if still pending; a no-op once resolved.  Never blocks
    /// and never fails.
    pub fn resolve(&mut self, v: T)
        ensures
            final(self).state == spec_resolve(old(self).state, v),
    {
        if self.state.is_none() {
            self.state = Some(v);
        }
    }

    /// The stored value, if any.  An awaiting caller polls this under its
    /// wakeup primitive; every caller observes the same value.
    pub fn try_value(&self) -> (r: Option<&T>)
        ensures
            r matches Some(v) ==> self.state == Some(*v),
            r is None <==> self.state is None,
    {
        self.state.as_ref()
    }
}

/// Resolvers are single-shot: the first `resolve(v)` stores `v` and any
/// later `resolve(w)` is a no-op, so the stored value is `v` forever.
pub proof fn lemma_resolver_single_shot<T>(s: Option<T>, v: T, w: T)
    ensures
        spec_resolve(s, v) is Some,
        spec_resolve(spec_resolve(s, v), w) == spec_resolve(s, v),
        s is None ==> spec_resolve(s, v) == Some(v),
{
}

} // verus!
