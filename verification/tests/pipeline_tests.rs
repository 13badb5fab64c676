use webhook_core::codec::encode;
use webhook_core::dispatch::{
    dispatch_step, run_dispatch, DispatchRecord, Handler, LoopAction, LoopEvent, LoopState,
};
use webhook_core::listener::{health_response, ListenerHandle};
use webhook_core::queue::UpdateQueue;
use webhook_core::startup::{process_exit_code, startup_step, StartupAction, StartupEvent,
    StartupPhase};
use webhook_core::stop::StopToken;
use webhook_core::update::{HandlerError, Update, UpdateKind};

fn upd(update_id: u64, chat_id: i64, kind: UpdateKind) -> Update {
    Update { update_id, chat_id, kind }
}

/// A handler that records every update it sees and fails on request.
struct RecordingHandler {
    seen: Vec<u64>,
    fail_on: Option<u64>,
}

impl Handler for RecordingHandler {
    fn handle(&mut self, u: &Update) -> Result<(), HandlerError> {
        self.seen.push(u.update_id);
        if self.fail_on == Some(u.update_id) {
            Err(HandlerError { code: 1 })
        } else {
            Ok(())
        }
    }
}

fn drain(q: &mut UpdateQueue, fail_on: Option<u64>) -> (Vec<DispatchRecord>, Vec<u64>) {
    let mut h = RecordingHandler { seen: Vec::new(), fail_on };
    let records = run_dispatch(q, &mut h);
    (records, h.seen)
}

#[test]
fn updates_delivered_in_fifo_order() {
    let u1 = upd(1, 10, UpdateKind::Message);
    let u2 = upd(2, 20, UpdateKind::EditedMessage);
    let u3 = upd(3, 30, UpdateKind::CallbackQuery);
    let mut q = UpdateQueue::new();
    assert!(q.enqueue(u1));
    assert!(q.enqueue(u2));
    assert!(q.enqueue(u3));
    let (records, seen) = drain(&mut q, None);
    assert_eq!(seen, vec![1, 2, 3]);
    assert_eq!(records.len(), 3);
    assert_eq!(records[0].update, u1);
    assert_eq!(records[1].update, u2);
    assert_eq!(records[2].update, u3);
    assert_eq!(q.len(), 0);
}

#[test]
fn delivery_follows_enqueue_order_not_arrival_order() {
    // Two concurrent requests may decode with different latency: the one
    // that arrived second can finish decoding first and enqueue first.
    // Delivery order is the enqueue order, an accepted nondeterminism.
    let arrived_first_decoded_slowly = upd(1, 10, UpdateKind::Message);
    let arrived_second_decoded_fast = upd(2, 20, UpdateKind::Message);
    let mut h = ListenerHandle::new(8080);
    assert_eq!(h.on_webhook_post(&encode(&arrived_second_decoded_fast)), 200);
    assert_eq!(h.on_webhook_post(&encode(&arrived_first_decoded_slowly)), 200);
    let (records, seen) = drain(&mut h.queue, None);
    assert_eq!(seen, vec![2, 1]);
    assert_eq!(records[0].update, arrived_second_decoded_fast);
    assert_eq!(records[1].update, arrived_first_decoded_slowly);
}

#[test]
fn handler_error_does_not_abort_sequence() {
    let mut q = UpdateQueue::new();
    for i in 1..=3u64 {
        assert!(q.enqueue(upd(i, i as i64, UpdateKind::Message)));
    }
    let (records, seen) = drain(&mut q, Some(2));
    assert_eq!(seen, vec![1, 2, 3]);
    assert_eq!(records.len(), 3);
    assert_eq!(records[0].result, Ok(()));
    assert_eq!(records[1].result, Err(HandlerError { code: 1 }));
    assert_eq!(records[2].result, Ok(()));
}

#[test]
fn stop_token_fire_is_idempotent() {
    let mut once = StopToken::new();
    let mut many = StopToken::new();
    assert!(!once.is_fired());
    once.fire();
    many.fire();
    many.fire();
    many.fire();
    assert!(once.is_fired());
    assert!(many.is_fired());
    assert_eq!(once, many);
}

#[test]
fn stopping_once_and_n_times_look_identical() {
    let u = upd(7, 70, UpdateKind::Message);
    let mut h_once = ListenerHandle::new(8080);
    let mut h_many = ListenerHandle::new(8080);
    assert_eq!(h_once.on_webhook_post(&encode(&u)), 200);
    assert_eq!(h_many.on_webhook_post(&encode(&u)), 200);
    h_once.stop();
    h_many.stop();
    h_many.stop();
    h_many.stop();
    assert!(h_once.is_stopped());
    assert!(h_many.is_stopped());
    let (r_once, _) = drain(&mut h_once.queue, None);
    let (r_many, _) = drain(&mut h_many.queue, None);
    assert_eq!(r_once, r_many);
    assert_eq!(r_once.len(), 1);
    // In either case the loop then observes a closed, drained channel and
    // stops exactly once.
    let (s, a) = dispatch_step(LoopState::Running, LoopEvent::Closed);
    assert_eq!(s, LoopState::Stopped);
    assert_eq!(a, LoopAction::Idle);
}

#[test]
fn valid_update_then_stop_is_still_delivered() {
    let u = upd(99, -5, UpdateKind::Message);
    let mut h = ListenerHandle::new(8080);
    assert_eq!(h.on_webhook_post(&encode(&u)), 200);
    h.stop();
    let (records, seen) = drain(&mut h.queue, None);
    assert_eq!(records.len(), 1);
    assert_eq!(records[0].update, u);
    assert_eq!(seen, vec![99]);
    // Terminated: nothing further is processed.
    assert_eq!(h.queue.len(), 0);
    assert!(h.queue.is_closed());
    assert_eq!(
        dispatch_step(LoopState::Running, LoopEvent::Closed),
        (LoopState::Stopped, LoopAction::Idle)
    );
}

#[test]
fn stopped_loop_is_terminal() {
    let u = upd(1, 1, UpdateKind::Message);
    assert_eq!(
        dispatch_step(LoopState::Stopped, LoopEvent::Received(u)),
        (LoopState::Stopped, LoopAction::Idle)
    );
    assert_eq!(
        dispatch_step(LoopState::Stopped, LoopEvent::Closed),
        (LoopState::Stopped, LoopAction::Idle)
    );
    assert_eq!(
        dispatch_step(LoopState::Running, LoopEvent::Received(u)),
        (LoopState::Running, LoopAction::Deliver(u))
    );
}

#[test]
fn health_always_ok() {
    assert_eq!(health_response(), (200, "OK"));
    // Unchanged while a handler is mid-update and before any stop fires.
    struct HealthProbingHandler {
        probes: Vec<(u16, &'static str)>,
    }
    impl Handler for HealthProbingHandler {
        fn handle(&mut self, _u: &Update) -> Result<(), HandlerError> {
            self.probes.push(health_response());
            Ok(())
        }
    }
    let mut h = ListenerHandle::new(8080);
    assert_eq!(h.on_webhook_post(&encode(&upd(1, 2, UpdateKind::Message))), 200);
    let mut probing = HealthProbingHandler { probes: Vec::new() };
    let records = run_dispatch(&mut h.queue, &mut probing);
    assert_eq!(records.len(), 1);
    assert_eq!(probing.probes, vec![(200, "OK")]);
    h.stop();
    assert_eq!(health_response(), (200, "OK"));
}

#[test]
fn webhook_post_statuses() {
    let u = upd(3, 4, UpdateKind::EditedMessage);
    let mut h = ListenerHandle::new(8080);
    assert_eq!(h.on_webhook_post(&b"nonsense".to_vec()), 400);
    assert_eq!(h.queue.len(), 0);
    assert_eq!(h.on_webhook_post(&encode(&u)), 200);
    assert_eq!(h.queue.len(), 1);
    h.stop();
    assert_eq!(h.on_webhook_post(&encode(&u)), 503);
    assert_eq!(h.queue.len(), 1);
}

#[test]
fn bind_failure_exits_nonzero_before_registration() {
    let (phase, action) = startup_step(StartupPhase::Binding, StartupEvent::BindFailed);
    assert_eq!(phase, StartupPhase::Failed);
    assert_eq!(action, StartupAction::ExitNonZero);
    assert_ne!(action, StartupAction::Register);
    assert_ne!(process_exit_code(phase), 0);
}

#[test]
fn startup_happy_path_exits_zero() {
    let (p1, a1) = startup_step(StartupPhase::Binding, StartupEvent::BindOk);
    assert_eq!((p1, a1), (StartupPhase::Registering, StartupAction::Register));
    let (p2, a2) = startup_step(p1, StartupEvent::RegisterOk);
    assert_eq!((p2, a2), (StartupPhase::Serving, StartupAction::Serve));
    let (p3, a3) = startup_step(p2, StartupEvent::ServeDone);
    assert_eq!((p3, a3), (StartupPhase::Done, StartupAction::ExitOk));
    assert_eq!(process_exit_code(p3), 0);
}

#[test]
fn registration_failure_is_fatal() {
    let (p, a) = startup_step(StartupPhase::Registering, StartupEvent::RegisterFailed);
    assert_eq!((p, a), (StartupPhase::Failed, StartupAction::ExitNonZero));
    assert_ne!(process_exit_code(p), 0);
}

#[test]
fn server_failure_stops_listener_and_exits_nonzero() {
    let mut h = ListenerHandle::new(8080);
    assert_eq!(h.on_webhook_post(&encode(&upd(1, 2, UpdateKind::Message))), 200);
    // The server task fires the stop token before reporting its error...
    h.stop();
    assert!(h.is_stopped());
    assert!(h.queue.is_closed());
    // ...the dispatch loop drains what is pending and exits...
    let (records, _) = drain(&mut h.queue, None);
    assert_eq!(records.len(), 1);
    // ...and the process exit is non-zero.
    let (p, a) = startup_step(StartupPhase::Serving, StartupEvent::ServeFailed);
    assert_eq!((p, a), (StartupPhase::Failed, StartupAction::ExitNonZero));
    assert_ne!(process_exit_code(p), 0);
}
