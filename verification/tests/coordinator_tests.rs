use bedrock_backup::coordinator::{ready_marker_exec, Action, Coordinator, Event, ProtocolState};

fn chars(s: &str) -> Vec<char> {
    s.chars().collect()
}

fn string(v: &[char]) -> String {
    v.iter().collect()
}

fn op(s: &str) -> Event {
    Event::OperatorLine(chars(s))
}

fn srv(s: &str) -> Event {
    Event::ServerLine(chars(s))
}

const READY: &str = "[2021-08-01 12:34:56 INFO] Data saved. Files are now ready to be copied.";

#[test]
fn backup_command_starts_the_cycle() {
    let mut c = Coordinator::new();
    let acts = c.step(op("!backup"));
    assert_eq!(c.state, ProtocolState::HoldRequested);
    assert_eq!(acts.len(), 2);
    match &acts[0] {
        Action::NotifyOperator(m) => assert_eq!(string(m), "Backup started\n"),
        _ => panic!("expected a notification first"),
    }
    match &acts[1] {
        Action::SendServer(m) => assert_eq!(string(m), "save hold\nsave query\n"),
        _ => panic!("expected the hold directive"),
    }
}

#[test]
fn unknown_command_is_reported() {
    let mut c = Coordinator::new();
    let acts = c.step(op("!frobnicate"));
    assert_eq!(c.state, ProtocolState::Idle);
    assert_eq!(acts.len(), 1);
    match &acts[0] {
        Action::NotifyOperator(m) => assert_eq!(string(m), "Unknown command\n"),
        _ => panic!("expected a notification"),
    }
}

#[test]
fn raw_save_lines_are_rejected() {
    let mut c = Coordinator::new();
    let acts = c.step(op("save hold"));
    assert_eq!(acts.len(), 1);
    match &acts[0] {
        Action::NotifyOperator(m) => assert_eq!(string(m), "Don't use \"save xxxx\" command\n"),
        _ => panic!("expected a warning"),
    }
    // Even a line merely containing the word is rejected.
    let acts = c.step(op("I saved the world"));
    assert_eq!(acts.len(), 1);
    assert!(matches!(&acts[0], Action::NotifyOperator(_)));
}

#[test]
fn plain_lines_are_forwarded_with_newline() {
    let mut c = Coordinator::new();
    let acts = c.step(op("list"));
    assert_eq!(acts.len(), 1);
    match &acts[0] {
        Action::SendServer(m) => assert_eq!(string(m), "list\n"),
        _ => panic!("expected a forward"),
    }
}

#[test]
fn full_backup_cycle() {
    let mut c = Coordinator::new();
    c.step(Event::TimerTick);
    assert_eq!(c.state, ProtocolState::HoldRequested);
    // The immediate acknowledgement is discarded.
    let acts = c.step(srv("Saving..."));
    assert_eq!(c.state, ProtocolState::AwaitingReady);
    assert!(acts.is_empty());
    // A line that is not the ready marker is forwarded and polled again.
    let acts = c.step(srv("Data saved. Files are now ready to be copied."));
    assert_eq!(c.state, ProtocolState::AwaitingReady);
    assert_eq!(acts.len(), 3);
    assert!(matches!(&acts[0], Action::NotifyOperator(_)));
    match &acts[1] {
        Action::SendServer(m) => assert_eq!(string(m), "save query\n"),
        _ => panic!("expected a query"),
    }
    assert!(matches!(&acts[2], Action::Delay));
    // The ready marker moves the cycle on without output.
    let acts = c.step(srv(READY));
    assert_eq!(c.state, ProtocolState::ListReceived);
    assert!(acts.is_empty());
    // The next line is the file list: snapshot, resume, report.
    let list = " worlds/Bedrock/level.dat:8192";
    let acts = c.step(srv(list));
    assert_eq!(c.state, ProtocolState::Idle);
    assert_eq!(acts.len(), 3);
    match &acts[0] {
        Action::RunSnapshot(m) => assert_eq!(string(m), list),
        _ => panic!("expected the snapshot"),
    }
    match &acts[1] {
        Action::SendServer(m) => assert_eq!(string(m), "save resume\n"),
        _ => panic!("expected the resume directive"),
    }
    match &acts[2] {
        Action::NotifyOperator(m) => assert_eq!(string(m), "Backup finished\n"),
        _ => panic!("expected the report"),
    }
}

#[test]
fn backup_during_backup_sends_no_second_hold() {
    let mut c = Coordinator::new();
    c.step(Event::TimerTick);
    c.step(srv("ack"));
    assert_eq!(c.state, ProtocolState::AwaitingReady);
    // A second trigger while the cycle runs is coalesced: no directive.
    let acts = c.step(op("!backup"));
    assert!(acts.is_empty());
    assert_eq!(c.state, ProtocolState::AwaitingReady);
    let acts = c.step(Event::TimerTick);
    assert!(acts.is_empty());
    assert_eq!(c.state, ProtocolState::AwaitingReady);
}

#[test]
fn ready_marker_needs_bracketed_prefix() {
    assert!(ready_marker_exec(&chars(READY)));
    assert!(ready_marker_exec(&chars(
        "x[a] Data saved. Files are now ready to be copied. trailing"
    )));
    // The dots of the marker match any character.
    assert!(ready_marker_exec(&chars(
        "[a] Data savedX Files are now ready to be copiedY"
    )));
    assert!(!ready_marker_exec(&chars(
        "Data saved. Files are now ready to be copied."
    )));
    assert!(!ready_marker_exec(&chars(
        "[] Data saved. Files are now ready to be copied."
    )));
    assert!(!ready_marker_exec(&chars("[a] Data saved.")));
}
