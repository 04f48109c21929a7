//! Turning the raw events of a file-system watcher into modifications:
//! a rename is a pair of name events, a move is a removal followed at once
//! by a creation, and a removal with nothing after it is a deletion.
use crate::single::{exactly_one, only_item};
use vstd::prelude::*;

verus! {

/// A change to the watched files.
pub enum Modification {
    Rename { from: String, to: String },
    Move { from: String, to: String },
    Create { path: String },
    Delete { path: String },
}

/// The kinds of raw watcher events that the machine tells apart.
#[derive(Clone, Copy, PartialEq, Eq, Debug)]
pub enum EventKindTag {
    Create,
    ModifyName,
    Remove,
    Other,
}

/// A raw watcher event: its kind and the paths it names.
pub struct WatchEvent {
    pub kind: EventKindTag,
    pub paths: Vec<String>,
}

/// What the receiving side reported.
pub enum WatchInput {
    /// An event arrived.
    Event(WatchEvent),
    /// The watcher reported an error instead of an event.
    Failed,
    /// The sending side is gone.
    Disconnected,
    /// No event arrived within the time given.
    TimedOut,
}

/// What the caller does next.
pub enum WatchAction {
    /// Wait for the next input without a time limit.
    Receive,
    /// Wait for the next input at most this many milliseconds.
    ReceiveWithin { millis: u64 },
    /// Hand out a modification.
    Emit { modification: Modification },
    /// No more modifications will come.
    Finish,
}

/// Where the machine stands between inputs.
pub enum WatchPhase {
    /// Nothing half-seen.
    Idle,
    /// A name event for `from` was seen; its partner is awaited.
    AwaitRenameTarget { from: String },
    /// A removal of `from` was seen; a creation right after makes it a move.
    AwaitMoveTarget { from: String },
}

/// The state of the machine: its phase and an event that arrived while a
/// removal was pending and is still to be handled.
pub struct Watch {
    pub phase: WatchPhase,
    pub buffered: Option<WatchEvent>,
}

/// How long a removal waits for a creation that would make it a move.
pub const MOVE_WINDOW_MILLIS: u64 = 100;

/// Handling an event with nothing half-seen.
pub open spec fn on_idle_event(event: WatchEvent) -> (Watch, WatchAction) {
    let idle = Watch { phase: WatchPhase::Idle, buffered: None };
    match (event.kind, only_item(event.paths@)) {
        (EventKindTag::Create, Some(p)) => (idle, WatchAction::Emit { modification: Modification::Create { path: p } }),
        (EventKindTag::ModifyName, Some(p)) => (
            Watch { phase: WatchPhase::AwaitRenameTarget { from: p }, buffered: None },
            WatchAction::Receive,
        ),
        (EventKindTag::Remove, Some(p)) => (
            Watch { phase: WatchPhase::AwaitMoveTarget { from: p }, buffered: None },
            WatchAction::ReceiveWithin { millis: MOVE_WINDOW_MILLIS },
        ),
        _ => (idle, WatchAction::Receive),
    }
}

/// What the machine does when asked for the next modification in `state`.
pub open spec fn begin_spec(state: Watch) -> (Watch, WatchAction) {
    match state.buffered {
        Some(e) => on_idle_event(e),
        None => (Watch { phase: state.phase, buffered: None }, WatchAction::Receive),
    }
}

/// What the machine does on `input` in `state`.
pub open spec fn step_spec(state: Watch, input: WatchInput) -> (Watch, WatchAction) {
    let idle = Watch { phase: WatchPhase::Idle, buffered: None };
    match input {
        WatchInput::Disconnected => (idle, WatchAction::Finish),
        WatchInput::Failed => (idle, WatchAction::Receive),
        WatchInput::TimedOut => match state.phase {
            WatchPhase::AwaitMoveTarget { from } => (idle, WatchAction::Emit { modification: Modification::Delete { path: from } }),
            _ => (idle, WatchAction::Receive),
        },
        WatchInput::Event(e) => match state.phase {
            WatchPhase::Idle => on_idle_event(e),
            WatchPhase::AwaitRenameTarget { from } => match (e.kind, only_item(e.paths@)) {
                (EventKindTag::ModifyName, Some(to)) => (idle, WatchAction::Emit { modification: Modification::Rename { from, to } }),
                _ => (idle, WatchAction::Receive),
            },
            WatchPhase::AwaitMoveTarget { from } => match e.kind {
                EventKindTag::Create => match only_item(e.paths@) {
                    Some(to) => (idle, WatchAction::Emit { modification: Modification::Move { from, to } }),
                    None => (idle, WatchAction::Receive),
                },
                _ => (
                    Watch { phase: WatchPhase::Idle, buffered: Some(e) },
                    WatchAction::Emit { modification: Modification::Delete { path: from } },
                ),
            },
        },
    }
}

/// Handles an event with nothing half-seen.
fn handle_idle_event(event: WatchEvent) -> (r: (Watch, WatchAction))
    ensures
        r == on_idle_event(event),
{
    let kind = event.kind;
    let path = exactly_one(event.paths);
    let idle = Watch { phase: WatchPhase::Idle, buffered: None };
    match (kind, path) {
        (EventKindTag::Create, Some(p)) => (idle, WatchAction::Emit { modification: Modification::Create { path: p } }),
        (EventKindTag::ModifyName, Some(p)) => (
            Watch { phase: WatchPhase::AwaitRenameTarget { from: p }, buffered: None },
            WatchAction::Receive,
        ),
        (EventKindTag::Remove, Some(p)) => (
            Watch { phase: WatchPhase::AwaitMoveTarget { from: p }, buffered: None },
            WatchAction::ReceiveWithin { millis: MOVE_WINDOW_MILLIS },
        ),
        _ => (idle, WatchAction::Receive),
    }
}

impl Watch {
    /// A machine with nothing half-seen and nothing buffered.
    pub fn new() -> (r: Self)
        ensures
            r.phase is Idle,
            r.buffered is None,
    {
        Watch { phase: WatchPhase::Idle, buffered: None }
    }
}

/// Starts the search for the next modification: a buffered event is
/// handled at once, otherwise the caller is told to receive.
pub fn begin(state: Watch) -> (r: (Watch, WatchAction))
    ensures
        r == begin_spec(state),
{
    match state.buffered {
        Some(e) => handle_idle_event(e),
        None => (Watch { phase: state.phase, buffered: None }, WatchAction::Receive),
    }
}

/// Advances the machine on what the receiving side reported.
pub fn step(state: Watch, input: WatchInput) -> (r: (Watch, WatchAction))
    ensures
        r == step_spec(state, input),
{
    let idle = Watch { phase: WatchPhase::Idle, buffered: None };
    match input {
        WatchInput::Disconnected => (idle, WatchAction::Finish),
        WatchInput::Failed => (idle, WatchAction::Receive),
        WatchInput::TimedOut => match state.phase {
            WatchPhase::AwaitMoveTarget { from } => (idle, WatchAction::Emit { modification: Modification::Delete { path: from } }),
            _ => (idle, WatchAction::Receive),
        },
        WatchInput::Event(e) => match state.phase {
            WatchPhase::Idle => handle_idle_event(e),
            WatchPhase::AwaitRenameTarget { from } => {
                let kind = e.kind;
                let to = exactly_one(e.paths);
                match (kind, to) {
                    (EventKindTag::ModifyName, Some(to)) => (idle, WatchAction::Emit { modification: Modification::Rename { from, to } }),
                    _ => (idle, WatchAction::Receive),
                }
            },
            WatchPhase::AwaitMoveTarget { from } => match e.kind {
                EventKindTag::Create => {
                    let to = exactly_one(e.paths);
                    match to {
                        Some(to) => (idle, WatchAction::Emit { modification: Modification::Move { from, to } }),
                        None => (idle, WatchAction::Receive),
                    }
                },
                _ => (
                    Watch { phase: WatchPhase::Idle, buffered: Some(e) },
                    WatchAction::Emit { modification: Modification::Delete { path: from } },
                ),
            },
        },
    }
}

/// Two name events of one path each make a rename from the first path to
/// the second.
pub proof fn lemma_name_pair_is_rename(first: WatchEvent, second: WatchEvent, a: String, b: String)
    requires
        first.kind == EventKindTag::ModifyName,
        first.paths@ == seq![a],
        second.kind == EventKindTag::ModifyName,
        second.paths@ == seq![b],
    ensures
        ({
            let (mid, act) = on_idle_event(first);
            let (end, out) = step_spec(mid, WatchInput::Event(second));
            act is Receive && end.phase is Idle && end.buffered is None
                && out == WatchAction::Emit { modification: Modification::Rename { from: a, to: b } }
        }),
{
}

/// A removal followed within the window by a creation of one path is a
/// move; followed by nothing within the window it is a deletion.
pub proof fn lemma_removal_outcomes(removal: WatchEvent, creation: WatchEvent, a: String, b: String)
    requires
        removal.kind == EventKindTag::Remove,
        removal.paths@ == seq![a],
        creation.kind == EventKindTag::Create,
        creation.paths@ == seq![b],
    ensures
        ({
            let (mid, act) = on_idle_event(removal);
            &&& act == WatchAction::ReceiveWithin { millis: MOVE_WINDOW_MILLIS }
            &&& step_spec(mid, WatchInput::Event(creation)).1 == WatchAction::Emit {
                modification: Modification::Move { from: a, to: b },
            }
            &&& step_spec(mid, WatchInput::TimedOut).1 == WatchAction::Emit {
                modification: Modification::Delete { path: a },
            }
        }),
{
}

/// An event that ends a pending removal without completing a move makes
/// the removal a deletion, and is then handled exactly as if it had
/// arrived with nothing half-seen: no event is lost.
pub proof fn lemma_interrupting_event_kept(from: String, e: WatchEvent)
    requires
        e.kind != EventKindTag::Create,
    ensures
        ({
            let (mid, out) = step_spec(Watch { phase: WatchPhase::AwaitMoveTarget { from }, buffered: None }, WatchInput::Event(e));
            &&& out == WatchAction::Emit { modification: Modification::Delete { path: from } }
            &&& begin_spec(mid) == on_idle_event(e)
        }),
{
}

/// Every step that hands out a modification, and every step that
/// finishes, leaves nothing half-seen; the machine finishes exactly when
/// the sending side is gone.
pub proof fn lemma_emit_leaves_idle(state: Watch, input: WatchInput)
    requires
        state.buffered is None,
    ensures
        ({
            let (next, act) = step_spec(state, input);
            &&& (act is Emit || act is Finish) ==> next.phase is Idle
            &&& (act is Finish <==> input is Disconnected)
        }),
{
}

/// The paths a modification names.
pub open spec fn modification_paths(m: Modification) -> Set<String> {
    match m {
        Modification::Rename { from, to } => set![from, to],
        Modification::Move { from, to } => set![from, to],
        Modification::Create { path } => set![path],
        Modification::Delete { path } => set![path],
    }
}

/// The path a phase holds on to, if any.
pub open spec fn pending_path(phase: WatchPhase) -> Set<String> {
    match phase {
        WatchPhase::Idle => Set::empty(),
        WatchPhase::AwaitRenameTarget { from } => set![from],
        WatchPhase::AwaitMoveTarget { from } => set![from],
    }
}

/// The paths an input names.
pub open spec fn input_paths(input: WatchInput) -> Set<String> {
    match input {
        WatchInput::Event(e) => e.paths@.to_set(),
        _ => Set::empty(),
    }
}

/// The machine invents no path: every path of a modification it hands
/// out, and every path it holds on to, came from the input or was already
/// held.
pub proof fn lemma_paths_come_from_inputs(state: Watch, input: WatchInput)
    requires
        state.buffered is None,
    ensures
        ({
            let (next, act) = step_spec(state, input);
            let known = pending_path(state.phase) + input_paths(input);
            &&& act matches WatchAction::Emit { modification } ==> modification_paths(modification).subset_of(known)
            &&& pending_path(next.phase).subset_of(known)
        }),
{
    match input {
        WatchInput::Event(e) => {
            if e.paths@.len() == 1 {
                assert(e.paths@.to_set().contains(e.paths@[0]));
            }
        },
        _ => {},
    }
}

} // verus!
