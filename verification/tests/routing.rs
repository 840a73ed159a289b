use qw_core::contact::{Contact, ContactPolicy};
use qw_core::routing::{
    same_domain, select_forward_targets, select_forward_targets_ranked, MatchSource,
    GREEDY_FANOUT,
};

fn contact(pubkey: &str, tags: &[&str]) -> Contact {
    Contact::new(pubkey, ContactPolicy::open())
        .with_cached_tags(tags.iter().map(|s| s.to_string()).collect())
}

/// A contact who has published no profile at all, only finished work.
fn earned_only(pubkey: &str, tags: &[&str]) -> Contact {
    Contact::new(pubkey, ContactPolicy::open())
        .with_earned_tags(tags.iter().map(|s| s.to_string()).collect())
}

#[test]
fn greedy_selection_prefers_tag_similar_contacts_over_flood() {
    let backend_a = contact("backend-a", &["it/backend/languages#rust"]);
    let backend_b = contact("backend-b", &["it/backend/frameworks#axum"]);
    let frontend = contact("frontend", &["it/frontend#react"]);
    let unrelated = contact("unrelated", &["it/mobile#swift"]);
    let contacts = vec![&backend_a, &backend_b, &frontend, &unrelated];

    let selected = select_forward_targets(&contacts, "it/backend/languages#rust");

    assert_eq!(
        selected.len(),
        GREEDY_FANOUT,
        "must not flood all 4 contacts"
    );
    let selected_pubkeys: Vec<&str> = selected.iter().map(|c| c.pubkey.as_str()).collect();
    assert!(
        selected_pubkeys.contains(&"backend-a"),
        "exact tag match must be selected"
    );
    assert!(
        selected_pubkeys.contains(&"backend-b"),
        "same-domain match must be selected"
    );
}

#[test]
fn falls_back_to_any_contact_when_nobody_matches_by_tag() {
    let a = contact("a", &["it/mobile#swift"]);
    let b = contact("b", &["it/mobile#kotlin-android"]);
    let contacts = vec![&a, &b];

    let selected = select_forward_targets(&contacts, "it/backend/languages#rust");
    assert_eq!(
        selected.len(),
        2,
        "with nobody tag-similar, still forward to reach somewhere"
    );
}

#[test]
fn a_contact_with_only_countersigned_work_is_reachable() {
    let proven = earned_only("proven", &["it/backend/languages#rust"]);
    let noise_a = contact("noise-a", &["it/mobile#swift"]);
    let noise_b = contact("noise-b", &["it/frontend#react"]);
    let noise_c = contact("noise-c", &["it/mobile#kotlin-android"]);
    let contacts = vec![&proven, &noise_a, &noise_b, &noise_c];

    let selected = select_forward_targets(&contacts, "it/backend/languages#rust");

    assert!(
        selected.iter().any(|c| c.pubkey == "proven"),
        "a countersigned Rust history must make someone findable for Rust \
         even with no profile published"
    );
}

#[test]
fn earned_outranks_declared_at_the_same_precision() {
    let tag = "it/backend/languages#rust";
    let claimed = contact("claimed", &[tag]);
    let proven = earned_only("proven", &[tag]);
    let filler_a = contact("filler-a", &[tag]);
    let filler_b = contact("filler-b", &[tag]);
    let contacts = vec![&claimed, &filler_a, &filler_b, &proven];

    let ranked = select_forward_targets_ranked(&contacts, tag);

    assert_eq!(ranked[0].0.pubkey, "proven");
    assert_eq!(ranked[0].1, MatchSource::Earned);
    assert!(
        ranked[1..]
            .iter()
            .all(|(_, src)| *src == MatchSource::Declared),
        "everyone else here only claimed the tag"
    );
}

#[test]
fn precision_still_wins_over_provenance_across_domains() {
    let exact_claim = contact("exact-claim", &["it/backend/languages#rust"]);
    let earned_nearby = earned_only("earned-nearby", &["it/backend/frameworks#axum"]);
    let contacts = vec![&earned_nearby, &exact_claim];

    let ranked = select_forward_targets_ranked(&contacts, "it/backend/languages#rust");

    assert_eq!(
        ranked[0].0.pubkey, "exact-claim",
        "an exact declared match is a better forward guess than an earned \
         match in a merely adjacent domain"
    );
}

#[test]
fn fallback_picks_are_labelled_as_such() {
    let a = earned_only("a", &["it/mobile#swift"]);
    let b = contact("b", &["it/mobile#kotlin-android"]);
    let contacts = vec![&a, &b];

    let ranked = select_forward_targets_ranked(&contacts, "it/backend/languages#rust");

    assert_eq!(ranked.len(), 2, "still forward somewhere");
    assert!(ranked.iter().all(|(_, src)| *src == MatchSource::Fallback));
}

#[test]
fn same_domain_compares_the_sector_and_domain() {
    assert!(same_domain("it/backend", "it/backend/languages#rust"));
    assert!(same_domain("it/backend/frameworks#axum", "it/backend/languages#rust"));
    assert!(same_domain("it/frontend#react", "it/frontend/fundamentals#typescript"));
    assert!(!same_domain("it/frontend#react", "it/backend/languages#rust"));
    assert!(!same_domain("it", "it"));
    assert!(!same_domain("", ""));
}

#[test]
fn no_contacts_is_an_empty_selection() {
    let contacts: Vec<&Contact> = vec![];
    assert!(select_forward_targets(&contacts, "it/backend/languages#rust").is_empty());
}

#[test]
fn fallback_is_not_added_once_the_fanout_is_matched() {
    let tag = "it/backend/languages#rust";
    let a = contact("a", &[tag]);
    let b = contact("b", &["it/backend/frameworks#axum"]);
    let c = earned_only("c", &["it/backend/frameworks#axum"]);
    let d = contact("d", &["it/mobile#swift"]);
    let contacts = vec![&d, &b, &c, &a];
    let ranked = select_forward_targets_ranked(&contacts, tag);
    let names: Vec<&str> = ranked.iter().map(|(c, _)| c.pubkey.as_str()).collect();
    assert_eq!(names, vec!["a", "c", "b"]);
    assert_eq!(
        ranked.iter().map(|(_, s)| *s).collect::<Vec<_>>(),
        vec![MatchSource::Declared, MatchSource::Earned, MatchSource::Declared]
    );
}
