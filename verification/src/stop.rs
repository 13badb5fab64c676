//! The single-fire stop token shared by the HTTP listener, the server task
//! and the dispatch loop.

use vstd::prelude::*;

verus! {

/// A single-fire, broadcast shutdown signal with no data payload.
///
/// Invariant: once fired, firing again is a no-op; every waiter that
/// observes the token after the fire sees the fired state.
#[derive(Clone, Copy, Debug, PartialEq, Eq, Structural)]
pub struct StopToken {
    fired: bool,
}

impl StopToken {
    /// Whether the token has been fired.
    pub closed spec fn spec_fired(&self) -> bool {
        self.fired
    }

    /// The state after a fire.  It does not depend on the state before:
    /// that is what makes firing idempotent.
    pub closed spec fn fire_spec(self) -> StopToken {
        StopToken { fired: true }
    }

    /// A fresh, unfired token.
    pub fn new() -> (t: StopToken)
        ensures
            !t.spec_fired(),
    {
        StopToken { fired: false }
    }

    /// Fire the token.  Firing a fired token changes nothing.
    pub fn fire(&mut self)
        ensures
            *final(self) == old(self).fire_spec(),
            final(self).spec_fired(),
            old(self).spec_fired() ==> *final(self) == *old(self),
    {
        self.fired = true;
    }

    /// Observe the token, as every waiter does.
    pub fn is_fired(&self) -> (r: bool)
        ensures
            r == self.spec_fired(),
    {
        self.fired
    }
}

/// Firing the token once and firing it any number of times lead to the
/// same fired state.
pub proof fn lemma_fire_idempotent(t: StopToken)
    ensures
        t.fire_spec().fire_spec() == t.fire_spec(),
        t.fire_spec().spec_fired(),
{
}

} // verus!
