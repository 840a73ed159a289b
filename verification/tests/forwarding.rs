use qw_core::contact::{Contact, ContactPolicy};
use qw_core::forwarding::{relay_plan, RelayTable};

const RUST: &str = "it/backend/languages#rust";

fn contact(pubkey: &str, tags: &[&str], relay_depth: u8) -> Contact {
    let mut policy = ContactPolicy::open();
    policy.relay_depth = relay_depth;
    Contact::new(pubkey, policy).with_cached_tags(tags.iter().map(|s| s.to_string()).collect())
}

fn keys(cs: &[&Contact]) -> Vec<String> {
    cs.iter().map(|c| c.pubkey.clone()).collect()
}

#[test]
fn an_own_tag_is_answered_upstream_only_when_there_is_an_event_to_answer() {
    let own = vec![RUST.to_string()];
    let with_event = relay_plan(&own, &[], &[], None, RUST, 1, 3, true);
    assert!(with_event.own_match && with_event.answer_upstream);
    let chain_head = relay_plan(&own, &[], &[], None, RUST, 1, 3, false);
    assert!(chain_head.own_match && !chain_head.answer_upstream);
    let earned = relay_plan(&[], &own, &[], None, RUST, 1, 3, true);
    assert!(earned.own_match);
    let other = relay_plan(&own, &[], &[], None, "it/frontend#react", 1, 3, true);
    assert!(!other.own_match && !other.answer_upstream);
}

#[test]
fn the_query_never_goes_back_to_whoever_sent_it() {
    let sender = contact("sender", &[RUST], 3);
    let peer = contact("peer", &[RUST], 3);
    let plan = relay_plan(&[], &[], &[&sender, &peer], Some("sender"), RUST, 1, 3, true);
    assert_eq!(keys(&plan.forwards), vec!["peer".to_string()]);
}

#[test]
fn nothing_is_forwarded_at_the_hop_limit() {
    let peer = contact("peer", &[RUST], 3);
    let plan = relay_plan(&[], &[], &[&peer], None, RUST, 3, 3, true);
    assert!(plan.forwards.is_empty());
}

#[test]
fn a_contact_whose_depth_is_exceeded_is_skipped() {
    let shallow = contact("shallow", &[RUST], 1);
    let deep = contact("deep", &[RUST], 3);
    let plan = relay_plan(&[], &[], &[&shallow, &deep], None, RUST, 2, 4, true);
    assert_eq!(keys(&plan.forwards), vec!["deep".to_string()]);
}

#[test]
fn the_first_arrival_of_a_query_fixes_where_its_answer_goes() {
    let mut table = RelayTable::new();
    assert_eq!(table.route("q1"), None);
    assert!(table.take_in("q1", "alice", Some("ev-1")));
    assert!(!table.take_in("q1", "bob", Some("ev-2")), "a repeat is not processed again");
    assert_eq!(table.route("q1"), Some(("alice".to_string(), Some("ev-1".to_string()))));
    assert!(table.take_in("q2", "requester", None));
    assert_eq!(table.route("q2"), Some(("requester".to_string(), None)));
    assert_eq!(table.route("q1"), Some(("alice".to_string(), Some("ev-1".to_string()))));
}
