//! The dispatch loop: the single consumer that turns queued updates into
//! handler invocations.

use vstd::prelude::*;

use crate::queue::UpdateQueue;
use crate::update::{HandlerError, Update};

verus! {

/// The user-supplied per-update callback.  Side effects (such as replying
/// to the platform) are entirely the handler's responsibility; a returned
/// error is recorded by the dispatch loop and never terminates it.
pub trait Handler {
    /// Handle one update.
    fn handle(&mut self, u: &Update) -> Result<(), HandlerError>;
}

/// One delivery made by the dispatch loop: the update handed to the
/// handler and what the handler returned for it.
#[derive(Clone, Copy, Debug, PartialEq, Eq)]
pub struct DispatchRecord {
    pub update: Update,
    pub result: Result<(), HandlerError>,
}

/// The two states of the dispatch loop.  `Stopped` is terminal.
#[derive(Clone, Copy, Debug, PartialEq, Eq, Structural)]
pub enum LoopState {
    Running,
    Stopped,
}

/// What the loop observes on the channel: the next update, or that the
/// channel is closed and drained.
#[derive(Clone, Copy, Debug, PartialEq, Eq, Structural)]
pub enum LoopEvent {
    Received(Update),
    Closed,
}

/// What the loop does in response: deliver an update to the handler, or
/// nothing.
#[derive(Clone, Copy, Debug, PartialEq, Eq, Structural)]
pub enum LoopAction {
    Deliver(Update),
    Idle,
}

/// The dispatch loop's transition function.  A running loop delivers
/// every received update and stops on a closed channel; a stopped loop
/// stays stopped and delivers nothing.
pub open spec fn step_spec(s: LoopState, e: LoopEvent) -> (LoopState, LoopAction) {
    match s {
        LoopState::Running => match e {
            LoopEvent::Received(u) => (LoopState::Running, LoopAction::Deliver(u)),
            LoopEvent::Closed => (LoopState::Stopped, LoopAction::Idle),
        },
        LoopState::Stopped => (LoopState::Stopped, LoopAction::Idle),
    }
}

/// One decision of the dispatch loop, exactly as `step_spec` prescribes.
/// The caller performs the returned action and feeds back the next event.
pub fn dispatch_step(s: LoopState, e: LoopEvent) -> (r: (LoopState, LoopAction))
    ensures
        r == step_spec(s, e),
{
    match s {
        LoopState::Running => match e {
            LoopEvent::Received(u) => (LoopState::Running, LoopAction::Deliver(u)),
            LoopEvent::Closed => (LoopState::Stopped, LoopAction::Idle),
        },
        LoopState::Stopped => (LoopState::Stopped, LoopAction::Idle),
    }
}

/// `Stopped` is terminal: whatever arrives afterwards, the loop stays
/// stopped and delivers nothing.  However many times the stop is
/// signalled, the loop therefore stops exactly once.
pub proof fn lemma_stopped_terminal(e: LoopEvent)
    ensures
        step_spec(LoopState::Stopped, e) == (LoopState::Stopped, LoopAction::Idle),
{
}

/// Drain the channel, invoking the handler once per pending update, in
/// FIFO order.  Every pending update is delivered exactly once — the
/// returned log holds one record per update, in delivery order — and a
/// handler error is recorded without aborting the rest of the sequence.
pub fn run_dispatch<H: Handler>(q: &mut UpdateQueue, h: &mut H) -> (records: Vec<DispatchRecord>)
    ensures
        final(q)@ == Seq::<Update>::empty(),
        final(q).spec_closed() == old(q).spec_closed(),
        records@.len() == old(q)@.len(),
        forall|k: int| 0 <= k < records@.len() ==> records@[k].update == old(q)@[k],
{
    let mut records: Vec<DispatchRecord> = Vec::new();
    proof {
        assert(q@ =~= old(q)@.skip(0));
    }
    while q.len() > 0
        invariant
            records@.len() <= old(q)@.len(),
            q@ == old(q)@.skip(records@.len() as int),
            q.spec_closed() == old(q).spec_closed(),
            forall|k: int| 0 <= k < records@.len() ==> records@[k].update == old(q)@[k],
        decreases q@.len(),
    {
        let r = q.dequeue();
        match r {
            Some(u) => {
                let res = h.handle(&u);
                records.push(DispatchRecord { update: u, result: res });
                proof {
                    let n = records@.len() as int;
                    assert(old(q)@.skip(n - 1).skip(1) =~= old(q)@.skip(n));
                    assert(u == old(q)@.skip(n - 1)[0]);
                    assert(u == old(q)@[n - 1]);
                }
            },
            None => {
                proof {
                    assert(false);
                }
            },
        }
    }
    proof {
        assert(q@ =~= Seq::<Update>::empty());
    }
    records
}

} // verus!
