use std::collections::HashMap;

use qw_core::events::HeldEvent;
use qw_core::sync::{take_publish_answer, MailboxSync, MailboxTransport, PublishOutcome};

/// In-memory stand-in for the HTTP client an app would supply.
#[derive(Default)]
struct FakeServers {
    held: HashMap<String, Vec<HeldEvent>>,
    /// base_url -> error to return instead of answering.
    broken: HashMap<String, String>,
    full: HashMap<String, bool>,
    /// A server in here returns everything it holds regardless of whom it
    /// is addressed to.
    hostile: HashMap<String, bool>,
    fetches: Vec<(String, Option<u64>)>,
}

impl FakeServers {
    fn hold(&mut self, base_url: &str, event: HeldEvent) {
        self.held.entry(base_url.to_string()).or_default().push(event);
    }
}

impl MailboxTransport for FakeServers {
    fn fetch(&mut self, base_url: &str, pubkey: &str, since: Option<u64>) -> Result<Vec<HeldEvent>, String> {
        self.fetches.push((base_url.to_string(), since));
        if let Some(err) = self.broken.get(base_url) {
            return Err(err.clone());
        }
        let hostile = self.hostile.get(base_url).copied().unwrap_or(false);
        let mut out: Vec<HeldEvent> = self
            .held
            .get(base_url)
            .cloned()
            .unwrap_or_default()
            .into_iter()
            .filter(|e| hostile || e.recipient.as_deref() == Some(pubkey))
            .filter(|e| since.map_or(true, |s| e.created_at >= s))
            .collect();
        out.sort_by_key(|e| e.created_at);
        Ok(out)
    }

    fn publish(&mut self, base_url: &str, event: &HeldEvent) -> Result<PublishOutcome, String> {
        if let Some(err) = self.broken.get(base_url) {
            return Err(err.clone());
        }
        if self.full.get(base_url).copied().unwrap_or(false) {
            return Ok(PublishOutcome::MailboxFull);
        }
        let held = self.held.entry(base_url.to_string()).or_default();
        if held.iter().any(|e| e.id == event.id) {
            return Ok(PublishOutcome::AlreadyHeld);
        }
        held.push(event.clone());
        Ok(PublishOutcome::Accepted)
    }
}

/// A signed event from `from` to `to`; its id is fixed by its content.
fn addressed(from: &str, to: &str, created_at: u64, body: &str) -> HeldEvent {
    HeldEvent {
        id: format!("{from}/{created_at}/{body}"),
        created_at,
        recipient: Some(to.to_string()),
        verified: true,
        encoded: body.to_string(),
    }
}

const ME: &str = "me-pubkey";
const SENDER: &str = "sender-pubkey";
const STRANGER: &str = "stranger-pubkey";

#[test]
fn collects_mail_and_remembers_where_it_got_to() {
    let mut servers = FakeServers::default();
    servers.hold("s1", addressed(SENDER, ME, 100, "first"));
    servers.hold("s1", addressed(SENDER, ME, 200, "second"));

    let mut sync = MailboxSync::new(ME);
    let report = sync.poll(&mut servers, &["s1"]);

    assert_eq!(report.delivered.len(), 2);
    assert_eq!(report.delivered[0].encoded, "first");
    assert_eq!(sync.cursor("s1"), Some(200));

    let again = sync.poll(&mut servers, &["s1"]);
    assert!(again.delivered.is_empty());
    assert_eq!(servers.fetches.last().unwrap().1, Some(200));
}

#[test]
fn an_event_sharing_the_cursor_second_is_not_lost() {
    let mut servers = FakeServers::default();
    servers.hold("s1", addressed(SENDER, ME, 500, "a"));

    let mut sync = MailboxSync::new(ME);
    assert_eq!(sync.poll(&mut servers, &["s1"]).delivered.len(), 1);

    servers.hold("s1", addressed(SENDER, ME, 500, "b"));
    let second = sync.poll(&mut servers, &["s1"]);
    assert_eq!(second.delivered.len(), 1, "same-second sibling must arrive");
    assert_eq!(second.delivered[0].encoded, "b");
}

#[test]
fn refuses_what_a_hostile_server_sends() {
    let mut servers = FakeServers::default();
    servers.hostile.insert("s1".to_string(), true);

    let mut forged = addressed(SENDER, ME, 10, "as signed");
    forged.encoded = "tampered by the cache".to_string();
    forged.verified = false;
    servers.hold("s1", forged);
    servers.hold("s1", addressed(SENDER, STRANGER, 20, "not yours"));
    servers.hold("s1", addressed(SENDER, ME, 30, "real"));

    let mut sync = MailboxSync::new(ME);
    let report = sync.poll(&mut servers, &["s1"]);

    assert_eq!(report.delivered.len(), 1, "{:?}", report.delivered);
    assert_eq!(report.delivered[0].encoded, "real");
    assert_eq!(report.rejected, 2, "forged and misrouted both counted");
}

#[test]
fn a_broken_server_does_not_move_its_cursor_or_stop_the_others() {
    let mut servers = FakeServers::default();
    servers.broken.insert("s1".to_string(), "connection refused".to_string());
    servers.hold("s2", addressed(SENDER, ME, 300, "via s2"));

    let mut sync = MailboxSync::new(ME);
    let report = sync.poll(&mut servers, &["s1", "s2"]);

    assert_eq!(report.delivered.len(), 1);
    assert_eq!(report.errors.len(), 1);
    assert_eq!(report.errors[0], ("s1".to_string(), "connection refused".to_string()));
    assert_eq!(sync.cursor("s1"), None, "a failed fetch must not advance");
    assert_eq!(sync.cursor("s2"), Some(300));
}

#[test]
fn the_same_event_from_two_servers_arrives_once() {
    let event = addressed(SENDER, ME, 42, "duplicated");
    let mut servers = FakeServers::default();
    servers.hold("s1", event.clone());
    servers.hold("s2", event);

    let mut sync = MailboxSync::new(ME);
    assert_eq!(sync.poll(&mut servers, &["s1", "s2"]).delivered.len(), 1);
}

#[test]
fn queued_mail_survives_an_outage_and_goes_out_later() {
    let mut servers = FakeServers::default();
    servers.broken.insert("s1".to_string(), "network down".to_string());

    let mut sync = MailboxSync::new(ME);
    sync.queue(addressed(ME, STRANGER, 1, "offer"));

    let first = sync.flush(&mut servers, &["s1"]);
    assert_eq!(first.published, 0);
    assert_eq!(first.still_queued, 1);
    assert_eq!(first.errors.len(), 1);

    servers.broken.clear();
    let second = sync.flush(&mut servers, &["s1"]);
    assert_eq!(second.published, 1);
    assert_eq!(second.still_queued, 0);
    assert!(sync.pending().is_empty());
}

#[test]
fn a_full_mailbox_falls_through_to_the_next_server() {
    let mut servers = FakeServers::default();
    servers.full.insert("s1".to_string(), true);

    let mut sync = MailboxSync::new(ME);
    sync.queue(addressed(ME, STRANGER, 1, "offer"));
    let report = sync.flush(&mut servers, &["s1", "s2"]);

    assert_eq!(report.published, 1);
    assert!(report.errors.is_empty(), "a full mailbox is an answer, not a failure: {:?}", report.errors);
    assert_eq!(servers.held.get("s2").map(Vec::len), Some(1));
}

#[test]
fn re_flushing_an_already_held_event_is_not_a_failure() {
    let event = addressed(ME, STRANGER, 1, "retry");
    let mut servers = FakeServers::default();
    servers.hold("s1", event.clone());

    let mut sync = MailboxSync::new(ME);
    sync.queue(event);
    let report = sync.flush(&mut servers, &["s1"]);
    assert_eq!(report.published, 1);
    assert_eq!(report.still_queued, 0);
}

#[test]
fn queueing_the_same_event_twice_sends_it_once() {
    let event = addressed(ME, STRANGER, 1, "once");

    let mut sync = MailboxSync::new(ME);
    sync.queue(event.clone());
    sync.queue(event);
    assert_eq!(sync.pending().len(), 1);
}

#[test]
fn a_restored_cursor_skips_what_was_already_collected() {
    let mut servers = FakeServers::default();
    servers.hold("s1", addressed(SENDER, ME, 100, "old"));
    servers.hold("s1", addressed(SENDER, ME, 900, "new"));

    let mut sync = MailboxSync::new(ME);
    sync.restore_cursor("s1", 500);
    let report = sync.poll(&mut servers, &["s1"]);

    assert_eq!(report.delivered.len(), 1);
    assert_eq!(report.delivered[0].encoded, "new");
}

#[test]
fn a_full_mailbox_everywhere_keeps_the_event_queued_in_order() {
    let mut servers = FakeServers::default();
    servers.full.insert("s1".to_string(), true);

    let mut sync = MailboxSync::new(ME);
    sync.queue(addressed(ME, STRANGER, 1, "one"));
    sync.queue(addressed(ME, STRANGER, 2, "two"));
    let report = sync.flush(&mut servers, &["s1"]);

    assert_eq!(report.published, 0);
    assert_eq!(report.still_queued, 2);
    assert!(report.errors.is_empty());
    assert_eq!(sync.pending()[0].encoded, "one");
    assert_eq!(sync.pending()[1].encoded, "two");
}

#[test]
fn absorbing_a_batch_drops_duplicates_and_keeps_the_newest_time() {
    let mut sync = MailboxSync::new(ME);
    sync.restore_cursor("s1", 50);
    let batch = vec![
        addressed(SENDER, ME, 70, "a"),
        addressed(SENDER, ME, 70, "a"),
        addressed(SENDER, STRANGER, 99, "elsewhere"),
        addressed(SENDER, ME, 60, "b"),
    ];
    let mut delivered = Vec::new();
    let rejected = sync.absorb_batch("s1", batch, &mut delivered);
    assert_eq!(rejected, 1);
    assert_eq!(delivered.len(), 2);
    assert_eq!(delivered[0].encoded, "a");
    assert_eq!(delivered[1].encoded, "b");
    assert_eq!(sync.cursor("s1"), Some(70));
}

#[test]
fn an_empty_batch_leaves_the_cursor_where_it_was() {
    let mut sync = MailboxSync::new(ME);
    let mut delivered = Vec::new();
    assert_eq!(sync.absorb_batch("s1", Vec::new(), &mut delivered), 0);
    assert!(delivered.is_empty());
    assert_eq!(sync.cursor("s1"), Some(0));
    sync.restore_cursor("s2", 40);
    assert_eq!(sync.absorb_batch("s2", Vec::new(), &mut delivered), 0);
    assert_eq!(sync.cursor("s2"), Some(40));
}

#[test]
fn absorbing_the_same_batch_again_delivers_nothing() {
    let mut sync = MailboxSync::new(ME);
    let batch = vec![addressed(SENDER, ME, 10, "a"), addressed(SENDER, STRANGER, 20, "x")];
    let mut delivered = Vec::new();
    assert_eq!(sync.absorb_batch("s1", batch.clone(), &mut delivered), 1);
    assert_eq!(delivered.len(), 1);
    let mut again = Vec::new();
    assert_eq!(sync.absorb_batch("s1", batch, &mut again), 1);
    assert!(again.is_empty());
    assert_eq!(sync.cursor("s1"), Some(10));
}

#[test]
fn with_no_servers_everything_stays_queued() {
    let mut servers = FakeServers::default();
    let mut sync = MailboxSync::new(ME);
    sync.queue(addressed(ME, STRANGER, 1, "one"));
    sync.queue(addressed(ME, STRANGER, 2, "two"));
    let report = sync.flush(&mut servers, &[]);
    assert_eq!(report.published, 0);
    assert_eq!(report.still_queued, 2);
    assert!(report.errors.is_empty());
    assert_eq!(sync.pending().len(), 2);
}

#[test]
fn publish_answers_decide_whether_an_event_leaves() {
    let mut errors = Vec::new();
    assert!(take_publish_answer("s1", Ok(PublishOutcome::Accepted), &mut errors));
    assert!(take_publish_answer("s1", Ok(PublishOutcome::AlreadyHeld), &mut errors));
    assert!(!take_publish_answer("s1", Ok(PublishOutcome::MailboxFull), &mut errors));
    assert!(errors.is_empty());
    assert!(!take_publish_answer("s2", Err("down".to_string()), &mut errors));
    assert_eq!(errors, vec![("s2".to_string(), "down".to_string())]);
}

#[test]
fn a_poll_of_no_servers_changes_nothing() {
    let mut servers = FakeServers::default();
    let mut sync = MailboxSync::new(ME);
    sync.restore_cursor("s1", 40);
    let report = sync.poll(&mut servers, &[]);
    assert!(report.delivered.is_empty());
    assert_eq!(report.rejected, 0);
    assert!(report.errors.is_empty());
    assert_eq!(sync.cursor("s1"), Some(40));
    assert!(servers.fetches.is_empty());
}

#[test]
fn a_failed_fetch_is_recorded_and_keeps_the_cursor() {
    let mut sync = MailboxSync::new(ME);
    sync.restore_cursor("s1", 40);
    let (mut delivered, mut rejected, mut errors) = (Vec::new(), 0usize, Vec::new());
    sync.take_fetch_answer("s1", Err("timeout".to_string()), &mut delivered, &mut rejected, &mut errors);
    assert!(delivered.is_empty());
    assert_eq!(rejected, 0);
    assert_eq!(errors, vec![("s1".to_string(), "timeout".to_string())]);
    assert_eq!(sync.cursor("s1"), Some(40));
}

#[test]
fn a_fetched_batch_is_read_against_the_cursor_as_it_stood() {
    let mut sync = MailboxSync::new(ME);
    sync.restore_cursor("s1", 40);
    let same_second = addressed(STRANGER, ME, 40, "same second as the cursor");
    let elsewhere = addressed(STRANGER, "somebody else", 50, "not for me");
    let (mut delivered, mut rejected, mut errors) = (Vec::new(), 0usize, Vec::new());
    sync.take_fetch_answer("s1", Ok(vec![same_second.clone(), elsewhere]), &mut delivered, &mut rejected, &mut errors);
    assert_eq!(delivered.len(), 1);
    assert_eq!(delivered[0].id, same_second.id);
    assert_eq!(rejected, 1);
    assert!(errors.is_empty());
    assert_eq!(sync.cursor("s1"), Some(40));
}
