use worktree::scanner::{ScannerAction, ScannerOutcome, ScannerPhase};
use worktree::worktree::ScanState;

fn told(action: &ScannerAction) -> &'static str {
    match action {
        ScannerAction::Send(ScanState::Scanning) => "scanning",
        ScannerAction::Send(ScanState::Idle) => "idle",
        ScannerAction::Send(ScanState::Failed(_)) => "failed",
        ScannerAction::ScanDirs => "scan",
        ScannerAction::AwaitEvents => "wait",
        ScannerAction::ProcessEvents => "process",
        ScannerAction::Stop => "stop",
    }
}

fn run(outcomes: Vec<ScannerOutcome>) -> Vec<&'static str> {
    let (mut phase, action) = ScannerPhase::start();
    let mut actions = vec![told(&action)];
    for outcome in outcomes {
        assert!(phase.awaits(&outcome));
        let (next, action) = phase.follow(outcome);
        phase = next;
        actions.push(told(&action));
    }
    actions
}

#[test]
fn scanner_scans_and_then_follows_events() {
    let actions = run(vec![
        ScannerOutcome::Sent,
        ScannerOutcome::Done,
        ScannerOutcome::Sent,
        ScannerOutcome::Events,
        ScannerOutcome::Sent,
        ScannerOutcome::Done,
        ScannerOutcome::Sent,
    ]);
    assert_eq!(
        actions,
        vec!["scanning", "scan", "idle", "wait", "scanning", "process", "idle", "wait"]
    );
}

#[test]
fn scanner_reports_a_failed_scan() {
    let actions = run(vec![
        ScannerOutcome::Sent,
        ScannerOutcome::Failed("gone".to_string()),
        ScannerOutcome::Sent,
        ScannerOutcome::Sent,
    ]);
    assert_eq!(actions, vec!["scanning", "scan", "failed", "idle", "wait"]);
    match ScannerPhase::Scanning.follow(ScannerOutcome::Failed("gone".to_string())).1 {
        ScannerAction::Send(ScanState::Failed(message)) => assert_eq!(message, "gone"),
        _ => panic!("not reported"),
    }
}

#[test]
fn scanner_stops_when_nobody_observes_it() {
    assert_eq!(run(vec![ScannerOutcome::Unheard]), vec!["scanning", "stop"]);
    let actions = run(vec![
        ScannerOutcome::Sent,
        ScannerOutcome::Done,
        ScannerOutcome::Unheard,
    ]);
    assert_eq!(actions, vec!["scanning", "scan", "idle", "stop"]);
    for outcome in [
        ScannerOutcome::Sent,
        ScannerOutcome::Unheard,
        ScannerOutcome::Done,
        ScannerOutcome::Events,
    ] {
        assert!(!ScannerPhase::Stopped.awaits(&outcome));
    }
}

#[test]
fn scanner_awaits_what_it_does() {
    assert!(ScannerPhase::Watching.awaits(&ScannerOutcome::Events));
    assert!(!ScannerPhase::Watching.awaits(&ScannerOutcome::Sent));
    assert!(!ScannerPhase::Processing.awaits(&ScannerOutcome::Failed(String::new())));
    assert!(!ScannerPhase::Settling.awaits(&ScannerOutcome::Done));
}
