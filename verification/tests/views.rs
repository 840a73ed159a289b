use qw_core::ledger::LedgerRound;
use qw_core::sync::{FlushReport, PollReport};
use qw_core::views::{error_lines, LedgerView, SyncView};

fn err(source: &str, message: &str) -> (String, String) {
    (source.to_string(), message.to_string())
}

#[test]
fn failures_show_as_source_then_message_a_run_once() {
    let lines = error_lines(&[
        err("s1", "down"),
        err("s1", "down"),
        err("s2", "timeout"),
        err("s1", "down"),
    ]);
    assert_eq!(lines, vec!["s1: down", "s2: timeout", "s1: down"]);
    assert!(error_lines(&[]).is_empty());
}

#[test]
fn a_ledger_view_counts_the_round() {
    let round = LedgerRound {
        received: Vec::new(),
        rejected: 2,
        pushed: 3,
        errors: vec![err("a", "connection refused"), err("a", "connection refused")],
    };
    let v = LedgerView::of(&round, 7);
    assert_eq!((v.received, v.pushed, v.rejected, v.held), (0, 3, 2, 7));
    assert_eq!(v.errors, vec!["a: connection refused"]);
}

#[test]
fn a_sync_view_shows_flush_failures_before_poll_failures() {
    let flushed = FlushReport { published: 1, still_queued: 2, errors: vec![err("s1", "network down")] };
    let polled = PollReport { delivered: Vec::new(), rejected: 4, errors: vec![err("s1", "network down"), err("s2", "refused")] };
    let v = SyncView::of(&flushed, &polled, 10, 1);
    assert_eq!((v.delivered, v.rejected, v.held, v.published, v.still_queued, v.routed), (0, 4, 10, 1, 2, 1));
    assert_eq!(v.errors, vec!["s1: network down", "s2: refused"]);
}
