use tcp_kv::reactor::{on_accept, wants_accept, AcceptOutcome, ReactorAction};

#[test]
fn would_block_keeps_waiting() {
    assert_eq!(on_accept(AcceptOutcome::WouldBlock), ReactorAction::KeepWaiting);
}

#[test]
fn accepted_is_handed_off_and_failure_reported() {
    assert_eq!(on_accept(AcceptOutcome::Accepted), ReactorAction::HandOff);
    assert_eq!(on_accept(AcceptOutcome::Failed), ReactorAction::ReportAndContinue);
}

#[test]
fn only_listener_events_accept() {
    assert!(wants_accept(0, 0));
    assert!(!wants_accept(1, 0));
}
