use qw_core::contact::{Contact, ContactPolicy};

#[test]
fn accept_depth_rejects_queries_that_traveled_too_far() {
    let mut policy = ContactPolicy::open();
    policy.accept_depth = 1;
    let contact = Contact::new("abc", policy);
    assert!(contact.accepts_incoming(1, "it/backend#rust"));
    assert!(!contact.accepts_incoming(2, "it/backend#rust"));
}

#[test]
fn categories_allowlist_restricts_domain() {
    let mut policy = ContactPolicy::open();
    policy.categories = vec!["it/backend".to_string()];
    let contact = Contact::new("abc", policy);
    assert!(contact.accepts_incoming(0, "it/backend/languages#rust"));
    assert!(!contact.accepts_incoming(0, "it/frontend/frameworks#react"));
}

#[test]
fn rate_limit_resets_on_a_new_day_and_caps_within_one() {
    let mut policy = ContactPolicy::open();
    policy.rate_limit = 2;
    let mut contact = Contact::new("abc", policy);
    assert!(contact.record_incoming(0));
    assert!(contact.record_incoming(10));
    assert!(
        !contact.record_incoming(20),
        "third query same day exceeds rate_limit=2"
    );
    assert!(
        contact.record_incoming(90_000),
        "next day resets the window"
    );
}

#[test]
fn relay_depth_caps_outbound_extension() {
    let mut policy = ContactPolicy::open();
    policy.relay_depth = 1;
    let contact = Contact::new("abc", policy);
    assert!(contact.allows_relay_at(1));
    assert!(!contact.allows_relay_at(2));
}

#[test]
fn open_policy_is_depth_three_with_no_allowlist() {
    let p = ContactPolicy::open();
    assert_eq!(p.relay_depth, 3);
    assert_eq!(p.accept_depth, 3);
    assert!(p.categories.is_empty());
    assert_eq!(p.rate_limit, 100);
    assert!(p.share_tags);
}

#[test]
fn a_refused_query_does_not_consume_the_next_days_budget() {
    let mut policy = ContactPolicy::open();
    policy.rate_limit = 1;
    let mut contact = Contact::new("abc", policy);
    assert!(contact.record_incoming(5));
    assert!(!contact.record_incoming(6));
    assert!(!contact.record_incoming(86_399));
    assert!(contact.record_incoming(86_400));
    assert!(!contact.record_incoming(86_401));
}

#[test]
fn a_zero_rate_limit_refuses_everything() {
    let mut policy = ContactPolicy::open();
    policy.rate_limit = 0;
    let mut contact = Contact::new("abc", policy);
    assert!(!contact.record_incoming(0));
    assert!(!contact.record_incoming(1_000_000));
}
