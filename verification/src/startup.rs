//! Startup and shutdown decisions of the process that hosts the listener.
//!
//! The surrounding program performs the outside work — binding the
//! socket, registering the webhook with the platform, serving — and feeds
//! the outcome of each step back in; this module decides, for every
//! phase and outcome, what happens next.  Bind and registration failures
//! are fatal before any further step; a clean shutdown of both subsystems
//! is the only zero exit.

use vstd::prelude::*;

verus! {

/// Where the process stands.  `Done` and `Failed` are terminal.
#[derive(Clone, Copy, Debug, PartialEq, Eq, Structural)]
pub enum StartupPhase {
    Binding,
    Registering,
    Serving,
    Done,
    Failed,
}

/// The outcome of the outside step the process just performed.
#[derive(Clone, Copy, Debug, PartialEq, Eq, Structural)]
pub enum StartupEvent {
    BindOk,
    BindFailed,
    RegisterOk,
    RegisterFailed,
    ServeDone,
    ServeFailed,
}

/// What the process does next.
#[derive(Clone, Copy, Debug, PartialEq, Eq, Structural)]
pub enum StartupAction {
    Register,
    Serve,
    ExitOk,
    ExitNonZero,
    Ignore,
}

/// The startup transition function: bind, then register, then serve;
/// any failure is fatal and exits non-zero, and an event that does not
/// belong to the current phase changes nothing.
pub open spec fn startup_spec(p: StartupPhase, e: StartupEvent) -> (StartupPhase, StartupAction) {
    match (p, e) {
        (StartupPhase::Binding, StartupEvent::BindOk) => (
            StartupPhase::Registering,
            StartupAction::Register,
        ),
        (StartupPhase::Binding, StartupEvent::BindFailed) => (
            StartupPhase::Failed,
            StartupAction::ExitNonZero,
        ),
        (StartupPhase::Registering, StartupEvent::RegisterOk) => (
            StartupPhase::Serving,
            StartupAction::Serve,
        ),
        (StartupPhase::Registering, StartupEvent::RegisterFailed) => (
            StartupPhase::Failed,
            StartupAction::ExitNonZero,
        ),
        (StartupPhase::Serving, StartupEvent::ServeDone) => (StartupPhase::Done,
            StartupAction::ExitOk,
        ),
        (StartupPhase::Serving, StartupEvent::ServeFailed) => (
            StartupPhase::Failed,
            StartupAction::ExitNonZero,
        ),
        _ => (p, StartupAction::Ignore),
    }
}

/// One startup decision, exactly as `startup_spec` prescribes.
pub fn startup_step(p: StartupPhase, e: StartupEvent) -> (r: (StartupPhase, StartupAction))
    ensures
        r == startup_spec(p, e),
{
    match (p, e) {
        (StartupPhase::Binding, StartupEvent::BindOk) => (
            StartupPhase::Registering,
            StartupAction::Register,
        ),
        (StartupPhase::Binding, StartupEvent::BindFailed) => (
            StartupPhase::Failed,
            StartupAction::ExitNonZero,
        ),
        (StartupPhase::Registering, StartupEvent::RegisterOk) => (
            StartupPhase::Serving,
            StartupAction::Serve,
        ),
        (StartupPhase::Registering, StartupEvent::RegisterFailed) => (
            StartupPhase::Failed,
            StartupAction::ExitNonZero,
        ),
        (StartupPhase::Serving, StartupEvent::ServeDone) => (StartupPhase::Done,
            StartupAction::ExitOk,
        ),
        (StartupPhase::Serving, StartupEvent::ServeFailed) => (
            StartupPhase::Failed,
            StartupAction::ExitNonZero,
        ),
        _ => (p, StartupAction::Ignore),
    }
}

/// The process exit code for a terminal phase: zero exactly on a clean
/// shutdown of both subsystems.
pub fn process_exit_code(p: StartupPhase) -> (c: i32)
    ensures
        (c == 0) <==> (p == StartupPhase::Done),
{
    match p {
        StartupPhase::Done => 0,
        _ => 1,
    }
}

/// A failed bind is fatal before registration: the decision on
/// `BindFailed` is to exit non-zero, and no later event of the failed
/// process ever asks for a registration.
pub proof fn lemma_bind_failure_exits_first()
    ensures
        startup_spec(StartupPhase::Binding, StartupEvent::BindFailed) == (
            StartupPhase::Failed,
            StartupAction::ExitNonZero,
        ),
        forall|e: StartupEvent| (#[trigger] startup_spec(StartupPhase::Failed, e)).1
            != StartupAction::Register,
{
}

} // verus!
