use qw_core::negotiation::{
    accept_note, annotation_of, open_or_err, outcome_label, parse_outcome, resolve_terms_tags,
    negotiation_flags, state_label, terms_text, AnnotateArgs, AuditOutcome, ContractState,
    DisputeAnnotation, DisputeView, NegotiationError, NegotiationFlags, Parties,
};
use qw_core::taxonomy::{SynonymEntry, Taxonomy, TaxonomyArea, TaxonomyDomain, TaxonomySector};

fn parties() -> Parties {
    Parties { client: "c".repeat(64), worker: "w".repeat(64) }
}

fn args(kind: &str, body: &str, outcome: Option<&str>) -> AnnotateArgs {
    AnnotateArgs {
        offer_event_id: "o".into(),
        kind: kind.into(),
        body: body.into(),
        outcome: outcome.map(|s| s.to_string()),
        target: None,
    }
}

#[test]
fn roles_are_for_the_two_parties_only() {
    let p = parties();
    assert_eq!(p.roles(&"w".repeat(64)).unwrap(), ("c".repeat(64), "w".repeat(64)));
    assert_eq!(p.roles("someone").unwrap_err(), NegotiationError::NotAParticipant);
}

#[test]
fn outcomes_are_the_four_names_trimmed() {
    assert_eq!(parse_outcome(Some(" split ")).unwrap(), AuditOutcome::Split);
    assert_eq!(parse_outcome(Some("favors_worker")).unwrap(), AuditOutcome::FavorsWorker);
    assert!(matches!(parse_outcome(Some("Split")), Err(NegotiationError::Annotation(_))));
    assert!(matches!(parse_outcome(None), Err(NegotiationError::Annotation(_))));
    for o in [AuditOutcome::FavorsClient, AuditOutcome::FavorsWorker, AuditOutcome::Split, AuditOutcome::Inconclusive] {
        assert_eq!(parse_outcome(Some(outcome_label(o))).unwrap(), o);
    }
}

#[test]
fn only_a_negotiating_contract_takes_a_step() {
    assert!(open_or_err(ContractState::Negotiating).is_ok());
    assert_eq!(open_or_err(ContractState::Accepted).unwrap_err(), NegotiationError::AlreadyAccepted);
    assert_eq!(open_or_err(ContractState::CreditIssued).unwrap_err(), NegotiationError::NotOpen("credit_issued".into()));
    assert_eq!(state_label(ContractState::Expired), "expired");
}

#[test]
fn reply_is_party_only_but_an_audit_opinion_is_not() {
    let p = parties();
    let me = "w".repeat(64);
    assert_eq!(
        annotation_of(&args("reply", "  my side  ", None), &p, &me).unwrap(),
        DisputeAnnotation::Reply { body: "my side".into() }
    );
    assert_eq!(
        annotation_of(&args("audit_request", "x", None), &p, "auditor").unwrap_err(),
        NegotiationError::NotAParticipant
    );
    assert_eq!(
        annotation_of(&args("audit_opinion", "found", Some("inconclusive")), &p, "auditor").unwrap(),
        DisputeAnnotation::AuditOpinion { body: "found".into(), outcome: AuditOutcome::Inconclusive }
    );
    assert!(matches!(annotation_of(&args("audit_opinion", "found", None), &p, "auditor"), Err(NegotiationError::Annotation(_))));
    assert_eq!(
        annotation_of(&args("reply", "   ", None), &p, &me).unwrap_err(),
        NegotiationError::Annotation("a note is required".into())
    );
    assert_eq!(
        annotation_of(&args("praise", "x", None), &p, &me).unwrap_err(),
        NegotiationError::Annotation("unknown annotation kind \"praise\"".into())
    );
}

#[test]
fn terms_need_a_description_and_a_resolvable_skill() {
    assert_eq!(terms_text("  work  ").unwrap(), "work");
    assert_eq!(terms_text("  ").unwrap_err(), NegotiationError::Terms("a description is required".into()));
    let m = Taxonomy::build(
        &[TaxonomySector {
            name: "it".into(),
            domains: vec![TaxonomyDomain {
                name: "backend".into(),
                skills: vec![],
                areas: vec![TaxonomyArea { name: "languages".into(), skills: vec!["rust".into()] }],
            }],
        }],
        &[SynonymEntry { canonical: "rust".into(), aliases: vec!["rust-lang".into()] }],
    );
    assert_eq!(
        resolve_terms_tags(&m, &["Rust Lang".into(), " ".into(), "rust".into()]).unwrap(),
        vec!["it/backend/languages#rust".to_string()]
    );
    assert_eq!(
        resolve_terms_tags(&m, &["  ".into()]).unwrap_err(),
        NegotiationError::Terms("at least one skill tag is required".into())
    );
    assert!(matches!(resolve_terms_tags(&m, &["cobol".into()]), Err(NegotiationError::Terms(_))));
}

#[test]
fn a_blank_accept_note_is_absent() {
    assert_eq!(accept_note(Some("  ")), None);
    assert_eq!(accept_note(Some(" thanks ")), Some("thanks".into()));
    assert_eq!(accept_note(None), None);
}

#[test]
fn composing_errors_name_what_went_wrong() {
    assert_eq!(NegotiationError::Counterparty("bad key".into()).message(), "counterparty: bad key");
    assert_eq!(NegotiationError::Terms("hours".into()).message(), "terms: hours");
    assert_eq!(
        NegotiationError::UnknownOffer("abc".into()).message(),
        "no proposal with id abc is held by this client"
    );
    assert_eq!(NegotiationError::NotAParticipant.message(), "this identity is not a party to that proposal");
    assert_eq!(NegotiationError::AlreadyAccepted.message(), "that proposal has already been accepted");
    assert_eq!(
        NegotiationError::NotOpen("expired".into()).message(),
        "that contract is expired, not open for negotiation"
    );
    assert_eq!(
        NegotiationError::WorkerOnly.message(),
        "only the worker signs an Accept, not the proposing side"
    );
    assert_eq!(NegotiationError::Annotation("a note is required".into()).message(), "annotation: a note is required");
}

fn annotation(kind: &str, at: u64) -> DisputeView {
    DisputeView {
        event_id: format!("ev-{at}"),
        target_event_id: "offer".into(),
        author_pubkey: "worker".into(),
        author_npub: "npub-worker".into(),
        mine: false,
        annotation_type: kind.into(),
        body: "".into(),
        outcome: None,
        at,
    }
}

#[test]
fn list_flags_track_whose_move_and_review() {
    let open = negotiation_flags(ContractState::Negotiating, false, "client", "worker", &[], 100, 150, None);
    assert_eq!(
        open,
        NegotiationFlags { your_move: true, can_counter: true, can_accept: true, under_review: false, last_update: 150 }
    );
    let mine_last = negotiation_flags(ContractState::Negotiating, true, "client", "client", &[], 100, 150, None);
    assert!(!mine_last.your_move && !mine_last.can_accept && mine_last.can_counter);

    let requested = [annotation("reply", 300), annotation("audit_request", 400)];
    let done = negotiation_flags(ContractState::Accepted, false, "worker", "worker", &requested, 100, 150, Some(200));
    assert!(done.under_review && !done.can_counter && !done.can_accept && !done.your_move);
    assert_eq!(done.last_update, 400);

    let answered = [annotation("audit_request", 400), annotation("audit_opinion", 500)];
    let settled = negotiation_flags(ContractState::Accepted, false, "worker", "worker", &answered, 100, 150, Some(200));
    assert!(!settled.under_review);
    assert_eq!(settled.last_update, 500);
}
