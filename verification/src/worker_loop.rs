//! The reconnect-and-retry decisions of a worker that talks to the scan
//! controller: connect until it succeeds, initialise, then work in a loop,
//! backing off on protocol errors and reconnecting on transport errors.
use vstd::prelude::*;

verus! {

/// How a failed call went wrong.
#[derive(Clone, Copy, PartialEq, Eq, Debug)]
pub enum FailureKind {
    /// The controller answered with an error.
    Api,
    /// The answer could not be decoded.
    Codec,
    /// The connection itself failed.
    Io,
    /// Any other error.
    Other,
}

/// Where the worker stands.
#[derive(Clone, Copy, PartialEq, Eq, Debug)]
pub enum WorkerPhase {
    /// No connection yet.
    Connecting,
    /// Connected, not yet initialised.
    Initializing,
    /// Initialised; `retries` failed work calls in a row since the last
    /// success.
    Working { retries: u32 },
}

/// The outcome of the call that the last action asked for.
#[derive(Clone, Copy, PartialEq, Eq, Debug)]
pub enum WorkerEvent {
    Connected,
    ConnectFailed,
    Initialized,
    InitFailed { kind: FailureKind },
    Worked,
    WorkFailed { kind: FailureKind },
}

/// What the worker does next.
#[derive(Clone, Copy, PartialEq, Eq, Debug)]
pub enum WorkerAction {
    /// Try to connect.
    Connect,
    /// Initialise on the connection.
    Init,
    /// Do one round of work.
    Work,
    /// Wait one second, then initialise again.
    PauseThenInit,
    /// Wait one second, then connect again.
    PauseThenConnect,
    /// Wait the back-off for the given attempt, then work again.
    BackOffThenWork { attempt: u32 },
}

/// The decision after `event` in `phase`.
pub open spec fn next_spec(phase: WorkerPhase, event: WorkerEvent) -> (WorkerPhase, WorkerAction) {
    match event {
        WorkerEvent::Connected => (WorkerPhase::Initializing, WorkerAction::Init),
        WorkerEvent::ConnectFailed => (WorkerPhase::Connecting, WorkerAction::Connect),
        WorkerEvent::Initialized => (WorkerPhase::Working { retries: 0 }, WorkerAction::Work),
        WorkerEvent::InitFailed { kind } => match kind {
            FailureKind::Api | FailureKind::Codec => (WorkerPhase::Initializing, WorkerAction::PauseThenInit),
            FailureKind::Io => (WorkerPhase::Connecting, WorkerAction::PauseThenConnect),
            FailureKind::Other => (WorkerPhase::Initializing, WorkerAction::Init),
        },
        WorkerEvent::Worked => (WorkerPhase::Working { retries: 0 }, WorkerAction::Work),
        WorkerEvent::WorkFailed { kind } => {
            let retries = match phase {
                WorkerPhase::Working { retries } => retries,
                _ => 0,
            };
            match kind {
                FailureKind::Api | FailureKind::Codec => (
                    WorkerPhase::Working {
                        retries: if retries < u32::MAX { (retries + 1) as u32 } else { u32::MAX },
                    },
                    WorkerAction::BackOffThenWork { attempt: retries },
                ),
                FailureKind::Io => (WorkerPhase::Connecting, WorkerAction::PauseThenConnect),
                FailureKind::Other => (WorkerPhase::Working { retries }, WorkerAction::Work),
            }
        },
    }
}

/// The first decision: connect.
pub fn start() -> (r: (WorkerPhase, WorkerAction))
    ensures
        r == (WorkerPhase::Connecting, WorkerAction::Connect),
{
    (WorkerPhase::Connecting, WorkerAction::Connect)
}

/// Decides what the worker does after `event` in `phase`.
pub fn next(phase: WorkerPhase, event: WorkerEvent) -> (r: (WorkerPhase, WorkerAction))
    ensures
        r == next_spec(phase, event),
{
    match event {
        WorkerEvent::Connected => (WorkerPhase::Initializing, WorkerAction::Init),
        WorkerEvent::ConnectFailed => (WorkerPhase::Connecting, WorkerAction::Connect),
        WorkerEvent::Initialized => (WorkerPhase::Working { retries: 0 }, WorkerAction::Work),
        WorkerEvent::InitFailed { kind } => match kind {
            FailureKind::Api | FailureKind::Codec => (WorkerPhase::Initializing, WorkerAction::PauseThenInit),
            FailureKind::Io => (WorkerPhase::Connecting, WorkerAction::PauseThenConnect),
            FailureKind::Other => (WorkerPhase::Initializing, WorkerAction::Init),
        },
        WorkerEvent::Worked => (WorkerPhase::Working { retries: 0 }, WorkerAction::Work),
        WorkerEvent::WorkFailed { kind } => {
            let retries = match phase {
                WorkerPhase::Working { retries } => retries,
                _ => 0,
            };
            match kind {
                FailureKind::Api | FailureKind::Codec => (
                    WorkerPhase::Working { retries: retries.saturating_add(1) },
                    WorkerAction::BackOffThenWork { attempt: retries },
                ),
                FailureKind::Io => (WorkerPhase::Connecting, WorkerAction::PauseThenConnect),
                FailureKind::Other => (WorkerPhase::Working { retries }, WorkerAction::Work),
            }
        },
    }
}

/// Consecutive protocol failures back off with attempts 0, 1, 2, ... and a
/// success resets the count, so the next failure backs off from attempt 0
/// again.
pub proof fn lemma_backoff_counts_up(retries: u32, kind: FailureKind)
    requires
        kind == FailureKind::Api || kind == FailureKind::Codec,
        retries < u32::MAX,
    ensures
        next_spec(WorkerPhase::Working { retries }, WorkerEvent::WorkFailed { kind })
            == (WorkerPhase::Working { retries: (retries + 1) as u32 }, WorkerAction::BackOffThenWork { attempt: retries }),
        ({
            let (after_success, _) = next_spec(WorkerPhase::Working { retries }, WorkerEvent::Worked);
            next_spec(after_success, WorkerEvent::WorkFailed { kind }).1 == WorkerAction::BackOffThenWork { attempt: 0 }
        }),
{
}

/// A transport failure always leads back to connecting, whatever the
/// phase, and a connection is always followed by initialisation.
pub proof fn lemma_transport_failure_reconnects(phase: WorkerPhase)
    ensures
        next_spec(phase, WorkerEvent::InitFailed { kind: FailureKind::Io }) == (WorkerPhase::Connecting, WorkerAction::PauseThenConnect),
        next_spec(phase, WorkerEvent::WorkFailed { kind: FailureKind::Io }) == (WorkerPhase::Connecting, WorkerAction::PauseThenConnect),
        next_spec(phase, WorkerEvent::Connected) == (WorkerPhase::Initializing, WorkerAction::Init),
{
}

/// A protocol failure (the controller's error, or an answer that cannot be
/// decoded) keeps the connection: during initialisation the worker waits
/// and initialises again on the same connection, and while working it
/// backs off and works again.  The worker only goes back to connecting
/// after a failed connect or a failed transport.
pub proof fn lemma_protocol_failure_keeps_connection(phase: WorkerPhase, event: WorkerEvent, kind: FailureKind)
    ensures
        kind == FailureKind::Api || kind == FailureKind::Codec ==> next_spec(
            phase,
            WorkerEvent::InitFailed { kind },
        ) == (WorkerPhase::Initializing, WorkerAction::PauseThenInit),
        kind == FailureKind::Api || kind == FailureKind::Codec ==> next_spec(
            phase,
            WorkerEvent::WorkFailed { kind },
        ).0 is Working && next_spec(phase, WorkerEvent::WorkFailed { kind }).1 is BackOffThenWork,
        (next_spec(phase, event).0 == WorkerPhase::Connecting) == (event == WorkerEvent::ConnectFailed
            || event == WorkerEvent::InitFailed { kind: FailureKind::Io } || event
            == WorkerEvent::WorkFailed { kind: FailureKind::Io }),
{
}

} // verus!
