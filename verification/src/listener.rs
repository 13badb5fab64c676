//! The webhook listener handle: the bound endpoint state, the per-request
//! decision, the health probe, and the shutdown coordinator.

use vstd::prelude::*;

use crate::codec::{decode, spec_parse};
use crate::queue::UpdateQueue;
use crate::stop::StopToken;
use crate::update::Update;

verus! {

/// The state behind the bound webhook endpoint: the internal update
/// channel, the shared stop token, and the listening port.
///
/// The shutdown coordination is bidirectional through `stop`: a failing
/// server task calls [`ListenerHandle::stop`] before reporting its error,
/// which closes the channel and so ends the dispatch loop; a terminating
/// dispatch loop observes the same token to trigger the HTTP server's
/// graceful shutdown.
pub struct ListenerHandle {
    pub queue: UpdateQueue,
    pub stop: StopToken,
    pub port: u16,
}

impl ListenerHandle {
    /// The coordinator invariant: once the stop token has fired, the
    /// channel no longer accepts updates.
    pub open spec fn wf(&self) -> bool {
        self.stop.spec_fired() ==> self.queue.spec_closed()
    }

    /// A fresh handle for a listening port: empty open channel, unfired
    /// token.
    pub fn new(port: u16) -> (h: ListenerHandle)
        ensures
            h.wf(),
            h.queue@ == Seq::<Update>::empty(),
            !h.queue.spec_closed(),
            !h.stop.spec_fired(),
            h.port == port,
    {
        ListenerHandle { queue: UpdateQueue::new(), stop: StopToken::new(), port }
    }

    /// The stopped state of a handle: token fired, channel closed,
    /// pending updates retained for the final drain.
    pub open spec fn stop_spec(self) -> ListenerHandle {
        ListenerHandle {
            queue: self.queue.close_spec(),
            stop: self.stop.fire_spec(),
            port: self.port,
        }
    }

    /// Fire the stop token: close the channel — the dispatch loop will
    /// drain the rest and exit — and mark the stopped signal for the
    /// HTTP server's graceful shutdown.
    pub fn stop(&mut self)
        ensures
            *final(self) == old(self).stop_spec(),
            final(self).wf(),
            final(self).stop.spec_fired(),
            final(self).queue.spec_closed(),
            final(self).queue@ == old(self).queue@,
            final(self).port == old(self).port,
    {
        self.queue.close();
        self.stop.fire();
    }

    /// The stopped signal, as the server task and the dispatch loop
    /// observe it.
    pub fn is_stopped(&self) -> (r: bool)
        ensures
            r == self.stop.spec_fired(),
    {
        self.stop.is_fired()
    }

    /// Serve one `POST` to the webhook path.
    ///
    /// The body is decoded by the codec; a decoded update is enqueued at
    /// the back of the channel and answered `200`.  A malformed or
    /// unsupported body is dropped and answered `400`; a closed channel
    /// refuses the update with the transient `503`, never blocking the
    /// platform.  No outcome disturbs the stop token or the rest of the
    /// channel.
    pub fn on_webhook_post(&mut self, body: &Vec<u8>) -> (status: u16)
        ensures
            final(self).stop == old(self).stop,
            final(self).port == old(self).port,
            final(self).queue.spec_closed() == old(self).queue.spec_closed(),
            old(self).wf() ==> final(self).wf(),
            old(self).queue.spec_closed() ==> status == 503 && *final(self) == *old(self),
            !old(self).queue.spec_closed() && spec_parse(body@) is Err ==> status == 400
                && *final(self) == *old(self),
            !old(self).queue.spec_closed() ==> (spec_parse(body@) matches Ok(u) ==> status
                == 200 && final(self).queue@ == old(self).queue@.push(u)),
    {
        if self.queue.is_closed() {
            return 503;
        }
        match decode(body) {
            Ok(u) => {
                let accepted = self.queue.enqueue(u);
                proof {
                    assert(accepted);
                }
                200
            },
            Err(_) => 400,
        }
    }
}

/// The liveness probe: `GET /health` answers `200 "OK"` unconditionally.
/// It takes no state at all — not the handle, the channel, the stop token
/// or the dispatch loop — so its answer cannot depend on any of them: it
/// holds at any time while the server still serves, including while the
/// dispatch loop is mid-handler.
pub fn health_response() -> (r: (u16, &'static str))
    ensures
        r.0 == 200,
        r.1@ == "OK"@,
{
    (200, "OK")
}

/// Stopping once and stopping any number of times are observably
/// identical: the stopped state is a fixed point of `stop`, so the
/// dispatch loop is told to stop exactly once either way.
pub proof fn lemma_stop_idempotent(h: ListenerHandle)
    ensures
        h.stop_spec().stop_spec() == h.stop_spec(),
        h.stop_spec().wf(),
        h.stop_spec().queue@ == h.queue@,
{
    crate::queue::lemma_close_idempotent(h.queue);
    crate::stop::lemma_fire_idempotent(h.stop);
}

} // verus!
