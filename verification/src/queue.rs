//! The internal update channel between the webhook listener and the
//! dispatch loop.

use std::collections::VecDeque;

use vstd::prelude::*;

use crate::update::Update;

verus! {

/// An unbounded FIFO channel of updates with a close flag.
///
/// Unbounded is this implementation's documented backpressure choice: an
/// enqueue is refused only once the channel is closed, and the listener
/// then answers the platform with a transient error instead of blocking
/// it.  Closing keeps the pending updates so the dispatch loop can drain
/// them; there is one producer (the webhook route) and one consumer (the
/// dispatch loop), so the delivery order is the enqueue order.
pub struct UpdateQueue {
    items: VecDeque<Update>,
    closed: bool,
}

impl View for UpdateQueue {
    type V = Seq<Update>;

    closed spec fn view(&self) -> Seq<Update> {
        self.items@
    }
}

impl UpdateQueue {
    /// Whether the channel is closed for new updates.
    pub closed spec fn spec_closed(&self) -> bool {
        self.closed
    }

    /// The same channel with the producer side closed and the pending
    /// updates retained.
    pub closed spec fn close_spec(self) -> UpdateQueue {
        UpdateQueue { items: self.items, closed: true }
    }

    /// A fresh, open, empty channel.
    pub fn new() -> (q: UpdateQueue)
        ensures
            q@ == Seq::<Update>::empty(),
            !q.spec_closed(),
    {
        UpdateQueue { items: VecDeque::new(), closed: false }
    }

    /// How many updates are pending.
    pub fn len(&self) -> (n: usize)
        ensures
            n == self@.len(),
    {
        self.items.len()
    }

    /// Observe the close flag.
    pub fn is_closed(&self) -> (r: bool)
        ensures
            r == self.spec_closed(),
    {
        self.closed
    }

    /// Enqueue an update at the back.  Accepted exactly when the channel
    /// is still open; a refused update leaves the channel unchanged.
    pub fn enqueue(&mut self, u: Update) -> (accepted: bool)
        ensures
            accepted == !old(self).spec_closed(),
            accepted ==> final(self)@ == old(self)@.push(u),
            !accepted ==> *final(self) == *old(self),
            final(self).spec_closed() == old(self).spec_closed(),
    {
        if self.closed {
            false
        } else {
            self.items.push_back(u);
            true
        }
    }

    /// Close the channel.  Pending updates stay; closing again changes
    /// nothing.
    pub fn close(&mut self)
        ensures
            *final(self) == old(self).close_spec(),
            final(self)@ == old(self)@,
            final(self).spec_closed(),
    {
        self.closed = true;
    }

    /// Dequeue the oldest pending update, if any.
    pub fn dequeue(&mut self) -> (r: Option<Update>)
        ensures
            final(self).spec_closed() == old(self).spec_closed(),
            match r {
                Some(u) => old(self)@.len() > 0 && u == old(self)@[0] && final(self)@ == old(
                    self,
                )@.skip(1),
                None => old(self)@.len() == 0 && final(self)@ == old(self)@,
            },
    {
        let r = self.items.pop_front();
        proof {
            if old(self)@.len() > 0 {
                assert(old(self)@.subrange(1, old(self)@.len() as int) =~= old(self)@.skip(1));
            }
        }
        r
    }
}

/// Closing a closed channel changes nothing, and closing never touches
/// the pending updates.
pub proof fn lemma_close_idempotent(q: UpdateQueue)
    ensures
        q.close_spec().close_spec() == q.close_spec(),
        q.close_spec()@ == q@,
        q.close_spec().spec_closed(),
{
}

} // verus!
