use std::collections::HashMap;

use qw_core::events::HeldEvent;
use qw_core::ledger::{
    absorb_pull, outgoing, take_push_answer, LedgerCoverage, LedgerSync, LedgerTransport, PullResponse,
};

/// An in-memory replica: holds a real event set and answers `pull` and
/// `push` the way a conforming replica must.
#[derive(Default)]
struct FakeReplica {
    held: Vec<HeldEvent>,
    /// Return this error instead of answering.
    broken: Option<String>,
    /// Answer a pull with everything, ignoring the advertised coverage.
    floods: bool,
}

impl FakeReplica {
    fn holding(events: Vec<HeldEvent>) -> Self {
        Self { held: events, ..Default::default() }
    }
    fn has(&self, id: &str) -> bool {
        self.held.iter().any(|e| e.id == id)
    }
}

/// A set of named peers behind one transport.
#[derive(Default)]
struct Peers {
    replicas: HashMap<String, FakeReplica>,
    pulls: Vec<(String, LedgerCoverage)>,
    pushes: usize,
}

impl Peers {
    fn with(mut self, name: &str, replica: FakeReplica) -> Self {
        self.replicas.insert(name.to_string(), replica);
        self
    }
}

impl LedgerTransport for Peers {
    fn pull(&mut self, peer: &str, have: &LedgerCoverage) -> Result<PullResponse, String> {
        self.pulls.push((peer.to_string(), have.clone()));
        let r = self.replicas.get(peer).ok_or_else(|| format!("no peer {peer}"))?;
        if let Some(err) = &r.broken {
            return Err(err.clone());
        }
        let events = r.held.iter().filter(|e| r.floods || have.wants(e)).cloned().collect();
        Ok(PullResponse { events, coverage: LedgerCoverage::of(&r.held) })
    }

    fn push(&mut self, peer: &str, events: &[HeldEvent]) -> Result<usize, String> {
        self.pushes += 1;
        let r = self.replicas.get_mut(peer).ok_or_else(|| format!("no peer {peer}"))?;
        if let Some(err) = &r.broken {
            return Err(err.clone());
        }
        let mut new = 0;
        for e in events {
            if !r.has(&e.id) {
                r.held.push(e.clone());
                new += 1;
            }
        }
        Ok(new)
    }
}

/// A signed event; its id is fixed by its content.
fn ev(author: &str, created_at: u64, body: &str) -> HeldEvent {
    HeldEvent {
        id: format!("{author}/{created_at}/{body}"),
        created_at,
        recipient: None,
        verified: true,
        encoded: body.to_string(),
    }
}

fn offer(from: &str, to: &str, created_at: u64, body: &str) -> HeldEvent {
    HeldEvent { recipient: Some(to.to_string()), ..ev(from, created_at, body) }
}

const ME: &str = "me";

#[test]
fn coverage_is_the_exact_id_set() {
    let held = [ev(ME, 100, "a1"), ev(ME, 300, "a2")];
    let cov = LedgerCoverage::of(&held);
    assert!(!cov.wants(&held[0]) && !cov.wants(&held[1]));
    let missing_below_tip = ev(ME, 200, "a1.5");
    assert!(cov.wants(&missing_below_tip));
    assert!(cov.wants(&ev(ME, 400, "a3")));
}

#[test]
fn two_replicas_converge_in_one_round_even_with_a_hole_below_the_tip() {
    let web_evt = ev(ME, 100, "created on the web box");
    let phone_evt = ev(ME, 200, "edited on the phone");
    let mut here = vec![web_evt.clone()];

    let mut peers = Peers::default().with("phone", FakeReplica::holding(vec![phone_evt.clone()]));
    let mut sync = LedgerSync::new();
    let round = sync.round(&mut peers, &["phone"], &here);

    assert_eq!(round.received.len(), 1);
    assert_eq!(round.received[0].id, phone_evt.id);
    assert!(round.errors.is_empty());
    here.extend(round.received);

    assert_eq!(round.pushed, 1);
    let phone = &peers.replicas["phone"];
    assert!(phone.has(&web_evt.id) && phone.has(&phone_evt.id));

    let again = sync.round(&mut peers, &["phone"], &here);
    assert!(again.received.is_empty());
    assert_eq!(again.pushed, 0);
}

#[test]
fn merge_is_union_not_addressed_to_anyone() {
    let theirs = offer("counterparty", ME, 50, "their signed half");

    let mut peers = Peers::default().with("web", FakeReplica::holding(vec![theirs.clone()]));
    let round = LedgerSync::new().round(&mut peers, &["web"], &[]);
    assert_eq!(round.received.len(), 1);
    assert_eq!(round.received[0].id, theirs.id);
}

#[test]
fn a_forged_event_from_a_peer_is_dropped_and_counted() {
    let good = ev(ME, 100, "real");
    let mut forged = ev(ME, 100, "as signed");
    forged.encoded = "tampered after signing".to_string();
    forged.verified = false;

    let mut peers = Peers::default().with(
        "web",
        FakeReplica { held: vec![good.clone(), forged], floods: true, ..Default::default() },
    );
    let round = LedgerSync::new().round(&mut peers, &["web"], &[]);

    assert_eq!(round.received.len(), 1, "{:?}", round.received);
    assert_eq!(round.received[0].id, good.id);
    assert_eq!(round.rejected, 1);
}

#[test]
fn a_same_second_sibling_from_another_device_is_not_lost() {
    let here = vec![ev(ME, 500, "a")];
    let sibling = ev(ME, 500, "b");

    let mut peers = Peers::default().with("phone", FakeReplica::holding(vec![here[0].clone(), sibling.clone()]));
    let round = LedgerSync::new().round(&mut peers, &["phone"], &here);

    assert_eq!(round.received.len(), 1, "the same-second sibling must arrive");
    assert_eq!(round.received[0].id, sibling.id);
}

#[test]
fn a_broken_peer_does_not_stop_the_others() {
    let from_b = ev(ME, 10, "via b");
    let mut peers = Peers::default()
        .with("a", FakeReplica { broken: Some("connection refused".into()), ..Default::default() })
        .with("b", FakeReplica::holding(vec![from_b.clone()]));

    let round = LedgerSync::new().round(&mut peers, &["a", "b"], &[]);
    assert_eq!(round.received.len(), 1);
    assert_eq!(round.received[0].id, from_b.id);
    assert_eq!(round.errors.len(), 1);
    assert_eq!(round.errors[0].0, "a");
}

#[test]
fn the_same_event_from_two_peers_is_merged_once() {
    let shared = ev(ME, 42, "held by both peers");
    let mut peers = Peers::default()
        .with("a", FakeReplica::holding(vec![shared.clone()]))
        .with("b", FakeReplica::holding(vec![shared.clone()]));

    let round = LedgerSync::new().round(&mut peers, &["a", "b"], &[]);
    assert_eq!(round.received.len(), 1);
}

#[test]
fn three_replicas_converge_in_one_round_via_the_middle() {
    let x = ev(ME, 100, "x");
    let mut peers = Peers::default()
        .with("a", FakeReplica::holding(vec![x.clone()]))
        .with("b", FakeReplica::default());

    let round = LedgerSync::new().round(&mut peers, &["a", "b"], &[]);
    assert_eq!(round.received.len(), 1);
    assert!(peers.replicas["b"].has(&x.id), "b got x in the same round, via here");
}

#[test]
fn nothing_to_push_skips_the_push_call() {
    let here = vec![ev(ME, 1, "only thing anyone holds")];
    let mut peers = Peers::default().with("web", FakeReplica::holding(here.clone()));

    let round = LedgerSync::new().round(&mut peers, &["web"], &here);
    assert!(round.received.is_empty());
    assert_eq!(round.pushed, 0);
    assert!(round.errors.is_empty());
    assert_eq!(peers.pushes, 0);
}

#[test]
fn the_pull_advertises_our_coverage() {
    let ours = ev(ME, 700, "ours");
    let here = vec![ours.clone()];
    let mut peers = Peers::default().with("web", FakeReplica::default());
    LedgerSync::new().round(&mut peers, &["web"], &here);

    let (peer, advertised) = &peers.pulls[0];
    assert_eq!(peer, "web");
    assert!(advertised.0.contains(&ours.id));
}

#[test]
fn received_events_come_oldest_first() {
    let late = ev(ME, 900, "late");
    let early = ev(ME, 100, "early");
    let mut peers = Peers::default()
        .with("a", FakeReplica::holding(vec![late.clone()]))
        .with("b", FakeReplica::holding(vec![early.clone()]));
    let round = LedgerSync::new().round(&mut peers, &["a", "b"], &[]);
    assert_eq!(round.received.len(), 2);
    assert_eq!(round.received[0].id, early.id);
    assert_eq!(round.received[1].id, late.id);
}

#[test]
fn coverage_is_sorted_and_each_id_once() {
    let cov = LedgerCoverage::of(&[ev(ME, 3, "c"), ev(ME, 1, "a"), ev(ME, 3, "c"), ev(ME, 2, "b")]);
    assert_eq!(cov.0, vec!["me/1/a".to_string(), "me/2/b".to_string(), "me/3/c".to_string()]);
}

#[test]
fn absorbing_a_pull_skips_seen_and_counts_forged() {
    let mut seen = vec!["me/1/a".to_string()];
    let mut fresh = Vec::new();
    let mut bad = ev(ME, 4, "d");
    bad.verified = false;
    let rejected = absorb_pull(&mut seen, &mut fresh, vec![ev(ME, 1, "a"), ev(ME, 2, "b"), ev(ME, 2, "b"), bad]);
    assert_eq!(rejected, 1);
    assert_eq!(fresh.len(), 1);
    assert_eq!(fresh[0].encoded, "b");
    assert_eq!(seen, vec!["me/1/a".to_string(), "me/2/b".to_string()]);
}

#[test]
fn outgoing_is_what_the_peer_lacks_held_first() {
    let held = vec![ev(ME, 1, "a"), ev(ME, 2, "b")];
    let fresh = vec![ev(ME, 0, "z")];
    let cov = LedgerCoverage::of(&[ev(ME, 2, "b")]);
    let out = outgoing(&held, &fresh, &cov);
    let names: Vec<&str> = out.iter().map(|e| e.encoded.as_str()).collect();
    assert_eq!(names, vec!["a", "z"]);
}

#[test]
fn merging_twice_merges_nothing_the_second_time() {
    let batch = vec![ev(ME, 1, "a"), ev(ME, 2, "b")];
    let mut seen = Vec::new();
    let mut fresh = Vec::new();
    absorb_pull(&mut seen, &mut fresh, batch.clone());
    assert_eq!(fresh.len(), 2);
    let mut again = Vec::new();
    assert_eq!(absorb_pull(&mut seen, &mut again, batch), 0);
    assert!(again.is_empty());
}

#[test]
fn merge_order_does_not_change_what_is_seen() {
    let a = vec![ev(ME, 1, "a"), ev(ME, 2, "b")];
    let b = vec![ev(ME, 2, "b"), ev(ME, 3, "c")];
    let (mut s1, mut s2) = (Vec::new(), Vec::new());
    let mut sink = Vec::new();
    absorb_pull(&mut s1, &mut sink, a.clone());
    absorb_pull(&mut s1, &mut sink, b.clone());
    absorb_pull(&mut s2, &mut sink, b);
    absorb_pull(&mut s2, &mut sink, a);
    assert_eq!(s1, s2);
}

#[test]
fn a_round_with_no_peers_reports_nothing() {
    let mut peers = Peers::default();
    let here = vec![ev(ME, 1, "a")];
    let round = LedgerSync::new().round(&mut peers, &[], &here);
    assert!(round.received.is_empty());
    assert_eq!(round.rejected, 0);
    assert_eq!(round.pushed, 0);
    assert!(round.errors.is_empty());
    assert!(peers.pulls.is_empty());
    assert_eq!(peers.pushes, 0);
}

#[test]
fn a_failed_pull_is_recorded_and_nothing_is_pushed() {
    let mut sync = LedgerSync::new();
    let held = vec![ev(ME, 1, "a")];
    let (mut fresh, mut rejected, mut errors) = (Vec::new(), 0usize, Vec::new());
    let out = sync.take_pull_answer(&held, &mut fresh, &mut rejected, &mut errors, "web", Err("down".to_string()));
    assert!(out.is_empty());
    assert!(fresh.is_empty());
    assert_eq!(rejected, 0);
    assert_eq!(errors, vec![("web".to_string(), "down".to_string())]);
}

#[test]
fn a_pulled_batch_is_absorbed_and_the_peers_lack_is_due() {
    let mut sync = LedgerSync::new();
    let held = vec![ev(ME, 1, "a")];
    let mut bad = ev(ME, 3, "forged");
    bad.verified = false;
    let answer = PullResponse { events: vec![ev(ME, 2, "b"), bad], coverage: LedgerCoverage::of(&[ev(ME, 2, "b")]) };
    let (mut fresh, mut rejected, mut errors) = (Vec::new(), 0usize, Vec::new());
    let out = sync.take_pull_answer(&held, &mut fresh, &mut rejected, &mut errors, "web", Ok(answer));
    assert_eq!(fresh.len(), 1);
    assert_eq!(fresh[0].encoded, "b");
    assert_eq!(rejected, 1);
    assert!(errors.is_empty());
    let names: Vec<&str> = out.iter().map(|e| e.encoded.as_str()).collect();
    assert_eq!(names, vec!["a"]);
}

#[test]
fn push_answers_add_up_or_are_recorded() {
    let (mut pushed, mut errors) = (2usize, Vec::new());
    take_push_answer("a", Ok(3), &mut pushed, &mut errors);
    assert_eq!(pushed, 5);
    take_push_answer("b", Err("refused".to_string()), &mut pushed, &mut errors);
    assert_eq!(pushed, 5);
    assert_eq!(errors, vec![("b".to_string(), "refused".to_string())]);
    take_push_answer("c", Ok(1), &mut pushed, &mut errors);
    assert_eq!(pushed, 6);
    let mut full = usize::MAX;
    take_push_answer("d", Ok(1), &mut full, &mut errors);
    assert_eq!(full, usize::MAX);
}
