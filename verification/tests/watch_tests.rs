use secret_sync::env::{env_map_from_pairs, parse_env_pair};
use secret_sync::machine::{
    startup_gate, WatcherAction, WatcherInput, WatcherMachine, WatcherState,
};
use secret_sync::error::Error;
use secret_sync::secrets::{classify_status, FetchStatus};
use secret_sync::watch::{parse_watch_event, FrameBuffer, WatchEvent};

#[test]
fn test_parse_watch_event_ping() {
    let frame = b"event: message\ndata:{\"type\":\"ping\"}\n\n";
    assert_eq!(parse_watch_event(frame), Ok(WatchEvent::Ping));
}

#[test]
fn test_parse_watch_event_connected() {
    let frame = b"event: message\ndata:{\"type\":\"connected\"}\n\n";
    assert_eq!(parse_watch_event(frame), Ok(WatchEvent::Connected));
}

#[test]
fn test_parse_watch_event_secrets_update() {
    let frame = b"event: message\ndata:{\"type\":\"secrets.update\"}\n\n";
    assert_eq!(parse_watch_event(frame), Ok(WatchEvent::SecretsUpdate));
}

#[test]
fn test_parse_watch_event_missing_prefix() {
    let frame = b"data:{\"type\":\"ping\"}\n\n";
    let result = parse_watch_event(frame);
    assert_eq!(result.err().unwrap().message(), "invalid event");
}

#[test]
fn test_parse_watch_event_unknown_type() {
    let frame = b"event: message\ndata:{\"type\":\"bogus\"}\n\n";
    let result = parse_watch_event(frame);
    assert_eq!(
        result.err().unwrap().message(),
        "Protocol error: unknown event type"
    );
}

#[test]
fn test_parse_watch_event_malformed_payload() {
    let frame = b"event: message\ndata:{not json}\n\n";
    let result = parse_watch_event(frame);
    assert_eq!(
        result.err().unwrap().message(),
        "Protocol error: malformed event payload"
    );
}

#[test]
fn test_frame_buffer_accumulates_until_terminator() {
    let mut buf = FrameBuffer::new();
    assert!(buf.feed(b"event: message\n").is_none());
    assert!(buf.feed(b"data:{\"type\":\"ping\"}\n").is_none());
    let frame = buf.feed(b"\n").expect("terminator completes the frame");
    assert_eq!(frame, b"event: message\ndata:{\"type\":\"ping\"}\n\n".to_vec());
    // The buffer reset: the next chunk starts a fresh frame.
    assert!(buf.feed(b"event: message\n").is_none());
}

#[test]
fn test_frame_buffer_whole_frame_in_one_chunk() {
    let mut buf = FrameBuffer::new();
    let frame = buf
        .feed(b"event: message\ndata:{\"type\":\"connected\"}\n\n")
        .expect("complete frame");
    assert_eq!(
        parse_watch_event(&frame),
        Ok(WatchEvent::Connected)
    );
}

#[test]
fn test_parse_env_pair_splits_at_first_equals() {
    let (name, value) = parse_env_pair("KEY=a=b").unwrap();
    assert_eq!(name, "KEY");
    assert_eq!(value, "a=b");
}

#[test]
fn test_parse_env_pair_rejects_malformed() {
    for bad in ["NOEQUALS", "=value", "NAME=", ""] {
        let err = parse_env_pair(bad).err().expect("malformed entry");
        assert_eq!(err.message(), format!("Cannot parse env var: {}", bad));
    }
}

#[test]
fn test_env_map_from_pairs_builds_map() {
    let pairs = vec!["A=1".to_string(), "B=2".to_string(), "A=3".to_string()];
    let m = env_map_from_pairs(&pairs).unwrap();
    assert_eq!(m.len(), 2);
    assert_eq!(m.get("A"), Some(&"3".to_string()));
    assert_eq!(m.get("B"), Some(&"2".to_string()));
}

#[test]
fn test_env_map_from_pairs_rejects_first_bad_entry() {
    let pairs = vec!["A=1".to_string(), "broken".to_string()];
    let err = env_map_from_pairs(&pairs).err().unwrap();
    assert_eq!(err.message(), "Cannot parse env var: broken");
}

#[test]
fn test_machine_secrets_update_triggers_reconcile() {
    let mut m = WatcherMachine::new();
    assert_eq!(m.handle(WatcherInput::ConnectOk), WatcherAction::AwaitFrame);
    assert_eq!(
        m.handle(WatcherInput::Frame(WatchEvent::Ping)),
        WatcherAction::AwaitFrame
    );
    assert_eq!(
        m.handle(WatcherInput::Frame(WatchEvent::SecretsUpdate)),
        WatcherAction::RunReconcile
    );
    assert_eq!(m.state, WatcherState::Reconciling);
    assert_eq!(m.handle(WatcherInput::ReconcileOk), WatcherAction::AwaitFrame);
    assert_eq!(m.state, WatcherState::Streaming);
}

#[test]
fn test_machine_stop_waits_for_pending_reconciliation() {
    // A stop notification during a reconciliation lets the pass finish
    // before the watcher reaches Stopped.
    let mut m = WatcherMachine::new();
    m.handle(WatcherInput::ConnectOk);
    m.handle(WatcherInput::Frame(WatchEvent::SecretsUpdate));
    assert_eq!(
        m.handle(WatcherInput::StopRequested),
        WatcherAction::RunReconcile
    );
    assert_eq!(m.state, WatcherState::Reconciling);
    assert_eq!(m.handle(WatcherInput::ReconcileOk), WatcherAction::Exit);
    assert_eq!(m.state, WatcherState::Stopped);
}

#[test]
fn test_machine_stop_short_circuits_backoff() {
    let mut m = WatcherMachine::new();
    m.handle(WatcherInput::ConnectFailed);
    assert_eq!(m.state, WatcherState::Backoff);
    assert_eq!(m.handle(WatcherInput::StopRequested), WatcherAction::Exit);
    assert_eq!(m.state, WatcherState::Stopped);
}

#[test]
fn test_machine_idle_timeout_and_stream_errors_back_off() {
    let mut m = WatcherMachine::new();
    m.handle(WatcherInput::ConnectOk);
    assert_eq!(m.handle(WatcherInput::IdleTimeout), WatcherAction::Delay);
    assert_eq!(m.handle(WatcherInput::BackoffElapsed), WatcherAction::OpenStream);
    m.handle(WatcherInput::ConnectOk);
    assert_eq!(m.handle(WatcherInput::StreamFailed), WatcherAction::Delay);
    m.handle(WatcherInput::BackoffElapsed);
    m.handle(WatcherInput::ConnectOk);
    assert_eq!(m.handle(WatcherInput::FrameError), WatcherAction::Delay);
}

#[test]
fn test_startup_gate_all_passed() {
    let results: Vec<Option<Error>> = vec![None, None, None];
    assert!(startup_gate(results).is_ok());
}

#[test]
fn test_startup_gate_escalates_first_failure() {
    let results = vec![
        None,
        Some(Error::new("[w2] Failed to sync secrets: boom")),
        Some(Error::new("[w3] Failed to sync secrets: later")),
    ];
    let err = startup_gate(results).err().unwrap();
    assert_eq!(err.message(), "[w2] Failed to sync secrets: boom");
}

#[test]
fn test_classify_status_outcomes() {
    assert_eq!(classify_status(200), FetchStatus::Authorized);
    assert_eq!(classify_status(401), FetchStatus::InvalidToken);
    assert_eq!(classify_status(500), FetchStatus::HttpFailure);
    assert_eq!(classify_status(404), FetchStatus::HttpFailure);
}
