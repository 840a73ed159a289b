use qw_core::events::HeldEvent;
use qw_core::history::EventStore;

/// A signed profile event; its id is fixed by its content.
fn signed(body: &str, created_at: u64) -> HeldEvent {
    HeldEvent {
        id: format!("id:{created_at}:{body}"),
        created_at,
        recipient: None,
        verified: true,
        encoded: format!("{{\"skill_tags\":[\"{body}\"]}}"),
    }
}

/// What a reload of the file sees: every line that was written, decoded.
fn lines_of(written: &[HeldEvent]) -> Vec<Option<HeldEvent>> {
    written.iter().cloned().map(Some).collect()
}

#[test]
fn held_events_survive_a_restart() {
    let mut store = EventStore::empty();
    assert!(store.is_empty());
    let batch = [signed("it/backend/languages#rust", 1)];
    let to_write = store.to_append(&batch);
    assert_eq!(store.append(batch.to_vec()), 1);

    let reopened = EventStore::open(lines_of(&to_write));
    assert_eq!(reopened.len(), 1, "a sync must outlive the process that did it");
    assert_eq!(reopened.rejected(), 0);
}

#[test]
fn an_event_that_does_not_verify_is_refused() {
    let mut forged = signed("it/backend/languages#rust", 1);
    forged.encoded = r#"{"skill_tags":["it/security#pentest"]}"#.to_string();
    forged.verified = false;

    let mut store = EventStore::empty();
    assert!(store.to_append(std::slice::from_ref(&forged)).is_empty(), "nothing is written");
    assert_eq!(store.append(vec![forged]), 0);
    assert!(store.is_empty());
    assert_eq!(store.rejected(), 0, "a refused append is not a skipped line");
}

#[test]
fn a_tampered_line_is_skipped_and_counted_not_trusted() {
    let mut edited = signed("it/backend/languages#rust", 1);
    edited.encoded = edited.encoded.replace("languages#rust", "languages#java");
    edited.verified = false;
    let reopened = EventStore::open(vec![Some(edited)]);
    assert!(reopened.is_empty(), "an edited record must not be readable as evidence");
    assert_eq!(reopened.rejected(), 1, "and its loss must be visible");
}

#[test]
fn a_truncated_trailing_line_costs_one_event_not_the_store() {
    let reopened = EventStore::open(vec![Some(signed("it/backend/languages#rust", 1)), None]);
    assert_eq!(reopened.len(), 1);
    assert_eq!(reopened.rejected(), 1);
}

#[test]
fn the_same_event_twice_is_stored_once() {
    let event = signed("it/backend/languages#rust", 1);
    let mut store = EventStore::empty();
    assert_eq!(store.append(vec![event.clone(), event.clone()]), 1, "within a batch");
    assert_eq!(store.append(vec![event.clone()]), 0, "and across calls");
    assert_eq!(EventStore::open(vec![Some(event.clone()), Some(event)]).len(), 1);
}

#[test]
fn held_events_come_oldest_first_and_a_repeat_is_not_skipped() {
    let late = signed("late", 900);
    let early = signed("early", 100);
    let store = EventStore::open(vec![Some(late.clone()), Some(early.clone()), Some(late)]);
    assert_eq!(store.len(), 2);
    assert_eq!(store.events()[0].created_at, 100);
    assert_eq!(store.events()[1].created_at, 900);
    assert_eq!(store.rejected(), 0);
}
