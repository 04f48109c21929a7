use scan_control::modification::{
    begin, step, EventKindTag, Modification, Watch, WatchAction, WatchEvent, WatchInput, WatchPhase,
    MOVE_WINDOW_MILLIS,
};
use scan_control::worker_loop::{next, start, FailureKind, WorkerAction, WorkerEvent, WorkerPhase};

fn event(kind: EventKindTag, paths: &[&str]) -> WatchInput {
    WatchInput::Event(WatchEvent { kind, paths: paths.iter().map(|s| s.to_string()).collect() })
}

fn emitted(action: &WatchAction) -> Option<String> {
    match action {
        WatchAction::Emit { modification } => Some(match modification {
            Modification::Rename { from, to } => format!("rename {from} {to}"),
            Modification::Move { from, to } => format!("move {from} {to}"),
            Modification::Create { path } => format!("create {path}"),
            Modification::Delete { path } => format!("delete {path}"),
        }),
        _ => None,
    }
}

#[test]
fn a_creation_is_emitted_at_once() {
    let (state, action) = begin(Watch::new());
    assert!(matches!(action, WatchAction::Receive));
    let (state, action) = step(state, event(EventKindTag::Create, &["/d/a"]));
    assert_eq!(emitted(&action), Some("create /d/a".to_string()));
    assert!(matches!(state.phase, WatchPhase::Idle));
}

#[test]
fn two_name_events_make_a_rename() {
    let (state, action) = step(Watch::new(), event(EventKindTag::ModifyName, &["/d/old"]));
    assert!(matches!(action, WatchAction::Receive));
    let (_, action) = step(state, event(EventKindTag::ModifyName, &["/d/new"]));
    assert_eq!(emitted(&action), Some("rename /d/old /d/new".to_string()));
}

#[test]
fn a_removal_then_a_creation_is_a_move() {
    let (state, action) = step(Watch::new(), event(EventKindTag::Remove, &["/d/a"]));
    assert!(matches!(action, WatchAction::ReceiveWithin { millis } if millis == MOVE_WINDOW_MILLIS));
    let (_, action) = step(state, event(EventKindTag::Create, &["/e/a"]));
    assert_eq!(emitted(&action), Some("move /d/a /e/a".to_string()));
}

#[test]
fn a_removal_then_silence_is_a_deletion() {
    let (state, _) = step(Watch::new(), event(EventKindTag::Remove, &["/d/a"]));
    let (_, action) = step(state, WatchInput::TimedOut);
    assert_eq!(emitted(&action), Some("delete /d/a".to_string()));
}

#[test]
fn an_event_after_a_removal_is_kept_for_later() {
    let (state, _) = step(Watch::new(), event(EventKindTag::Remove, &["/d/a"]));
    let (state, action) = step(state, event(EventKindTag::ModifyName, &["/d/b"]));
    assert_eq!(emitted(&action), Some("delete /d/a".to_string()));
    assert!(state.buffered.is_some());
    let (state, action) = begin(state);
    assert!(matches!(action, WatchAction::Receive));
    assert!(matches!(state.phase, WatchPhase::AwaitRenameTarget { .. }));
    let (_, action) = step(state, event(EventKindTag::ModifyName, &["/d/c"]));
    assert_eq!(emitted(&action), Some("rename /d/b /d/c".to_string()));
}

#[test]
fn events_without_exactly_one_path_are_skipped() {
    let (state, action) = step(Watch::new(), event(EventKindTag::Create, &["/a", "/b"]));
    assert!(matches!(action, WatchAction::Receive));
    let (_, action) = step(state, event(EventKindTag::Create, &[]));
    assert!(matches!(action, WatchAction::Receive));
    let (_, action) = step(Watch::new(), event(EventKindTag::Other, &["/a"]));
    assert!(matches!(action, WatchAction::Receive));
}

#[test]
fn a_name_event_followed_by_another_kind_is_dropped() {
    let (state, _) = step(Watch::new(), event(EventKindTag::ModifyName, &["/d/old"]));
    let (state, action) = step(state, event(EventKindTag::Create, &["/d/x"]));
    assert!(matches!(action, WatchAction::Receive));
    assert!(matches!(state.phase, WatchPhase::Idle));
}

#[test]
fn errors_and_disconnection() {
    let (state, _) = step(Watch::new(), event(EventKindTag::Remove, &["/d/a"]));
    let (state, action) = step(state, WatchInput::Failed);
    assert!(matches!(action, WatchAction::Receive));
    assert!(matches!(state.phase, WatchPhase::Idle));
    let (_, action) = step(state, WatchInput::Disconnected);
    assert!(matches!(action, WatchAction::Finish));
}

#[test]
fn worker_connects_initialises_and_works() {
    let (phase, action) = start();
    assert_eq!(action, WorkerAction::Connect);
    let (phase, action) = next(phase, WorkerEvent::ConnectFailed);
    assert_eq!((phase, action), (WorkerPhase::Connecting, WorkerAction::Connect));
    let (phase, action) = next(phase, WorkerEvent::Connected);
    assert_eq!((phase, action), (WorkerPhase::Initializing, WorkerAction::Init));
    let (phase, action) = next(phase, WorkerEvent::InitFailed { kind: FailureKind::Api });
    assert_eq!(action, WorkerAction::PauseThenInit);
    let (phase, action) = next(phase, WorkerEvent::InitFailed { kind: FailureKind::Other });
    assert_eq!(action, WorkerAction::Init);
    let (phase, action) = next(phase, WorkerEvent::Initialized);
    assert_eq!((phase, action), (WorkerPhase::Working { retries: 0 }, WorkerAction::Work));
    let (phase, action) = next(phase, WorkerEvent::Worked);
    assert_eq!((phase, action), (WorkerPhase::Working { retries: 0 }, WorkerAction::Work));
}

#[test]
fn worker_backs_off_then_resets() {
    let mut phase = WorkerPhase::Working { retries: 0 };
    for expected in 0..3u32 {
        let (p, action) = next(phase, WorkerEvent::WorkFailed { kind: FailureKind::Codec });
        assert_eq!(action, WorkerAction::BackOffThenWork { attempt: expected });
        phase = p;
    }
    assert_eq!(phase, WorkerPhase::Working { retries: 3 });
    let (p, action) = next(phase, WorkerEvent::WorkFailed { kind: FailureKind::Other });
    assert_eq!((p, action), (WorkerPhase::Working { retries: 3 }, WorkerAction::Work));
    let (p, _) = next(p, WorkerEvent::Worked);
    let (_, action) = next(p, WorkerEvent::WorkFailed { kind: FailureKind::Api });
    assert_eq!(action, WorkerAction::BackOffThenWork { attempt: 0 });
}

#[test]
fn worker_reconnects_after_transport_failures() {
    let (p, a) = next(WorkerPhase::Working { retries: 5 }, WorkerEvent::WorkFailed { kind: FailureKind::Io });
    assert_eq!((p, a), (WorkerPhase::Connecting, WorkerAction::PauseThenConnect));
    let (p, a) = next(WorkerPhase::Initializing, WorkerEvent::InitFailed { kind: FailureKind::Io });
    assert_eq!((p, a), (WorkerPhase::Connecting, WorkerAction::PauseThenConnect));
    let (_, a) = next(WorkerPhase::Working { retries: u32::MAX }, WorkerEvent::WorkFailed { kind: FailureKind::Api });
    assert_eq!(a, WorkerAction::BackOffThenWork { attempt: u32::MAX });
}
