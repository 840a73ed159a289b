//! The decisions around composing a contract step: who may take which
//! step, what a step's text must hold, and how states and audit outcomes
//! are named. A counteroffer supersedes the terms it references; only the
//! worker's signed Accept ends the exchange.

use vstd::prelude::*;

use crate::taxonomy::{resolve, resolve_spec, Taxonomy};
use crate::text::{cat, chars_of, contains_str, str_eq, string_from_str, strs, trim, trim_spec};

verus! {

/// What went wrong composing a step. Every variant names the offending
/// input.
#[derive(Debug, Clone, PartialEq)]
pub enum NegotiationError {
    /// Not a key, or this identity's own key.
    Counterparty(String),
    /// A terms field did not validate; the string says which and why.
    Terms(String),
    /// No held offer event has this id.
    UnknownOffer(String),
    /// This identity is neither the client nor the worker on that offer.
    NotAParticipant,
    /// There is already a signed Accept against the current head.
    AlreadyAccepted,
    /// The contract is past negotiation; the string is the state.
    NotOpen(String),
    /// Only the worker signs an Accept.
    WorkerOnly,
    /// A dispute-annotation input did not validate; the string says which.
    Annotation(String),
}

/// The text a composing error is reported with.
pub open spec fn negotiation_message(e: NegotiationError) -> Seq<char> {
    match e {
        NegotiationError::Counterparty(s) => "counterparty: "@ + s@,
        NegotiationError::Terms(s) => "terms: "@ + s@,
        NegotiationError::UnknownOffer(id) => "no proposal with id "@ + id@ + " is held by this client"@,
        NegotiationError::NotAParticipant => "this identity is not a party to that proposal"@,
        NegotiationError::AlreadyAccepted => "that proposal has already been accepted"@,
        NegotiationError::NotOpen(state) => "that contract is "@ + state@ + ", not open for negotiation"@,
        NegotiationError::WorkerOnly => "only the worker signs an Accept, not the proposing side"@,
        NegotiationError::Annotation(s) => "annotation: "@ + s@,
    }
}

impl NegotiationError {
    /// The text this error is reported with.
    pub fn message(&self) -> (r: String)
        ensures
            r@ == negotiation_message(*self),
    {
        match self {
            NegotiationError::Counterparty(s) => cat("counterparty: ", s.as_str()),
            NegotiationError::Terms(s) => cat("terms: ", s.as_str()),
            NegotiationError::UnknownOffer(id) => {
                let head = cat("no proposal with id ", id.as_str());
                cat(head.as_str(), " is held by this client")
            },
            NegotiationError::NotAParticipant => string_from_str("this identity is not a party to that proposal"),
            NegotiationError::AlreadyAccepted => string_from_str("that proposal has already been accepted"),
            NegotiationError::NotOpen(state) => {
                let head = cat("that contract is ", state.as_str());
                cat(head.as_str(), ", not open for negotiation")
            },
            NegotiationError::WorkerOnly => string_from_str("only the worker signs an Accept, not the proposing side"),
            NegotiationError::Annotation(s) => cat("annotation: ", s.as_str()),
        }
    }
}

/// The worker's Accept. A blank note is treated as absent.
#[derive(Debug, Clone)]
pub struct AcceptArgs {
    pub offer_event_id: String,
    pub note: Option<String>,
}

/// A dispute annotation to attach to a contract: a reply, an audit
/// request, or an audit opinion.
#[derive(Debug, Clone)]
pub struct AnnotateArgs {
    /// The contract anchor (root offer id).
    pub offer_event_id: String,
    /// `reply` | `audit_request` | `audit_opinion`.
    pub kind: String,
    pub body: String,
    /// Required for `audit_opinion`, ignored otherwise.
    pub outcome: Option<String>,
    /// Annotate a specific event of the contract instead of its head.
    pub target: Option<String>,
}

/// One dispute annotation attached to a contract, as a screen shows it.
#[derive(Debug, Clone)]
pub struct DisputeView {
    pub event_id: String,
    pub target_event_id: String,
    pub author_pubkey: String,
    pub author_npub: String,
    /// This identity signed it.
    pub mine: bool,
    /// `reply` | `audit_request` | `audit_opinion`.
    pub annotation_type: String,
    pub body: String,
    /// `audit_opinion` only.
    pub outcome: Option<String>,
    pub at: u64,
}

/// An auditor's finding.
#[derive(Debug, Clone, Copy, PartialEq, Eq, Structural)]
pub enum AuditOutcome {
    FavorsClient,
    FavorsWorker,
    Split,
    Inconclusive,
}

/// Where a contract stands.
#[derive(Debug, Clone, Copy, PartialEq, Eq, Structural)]
pub enum ContractState {
    Negotiating,
    Accepted,
    Completed,
    CreditIssued,
    Expired,
}

/// The name of an audit outcome.
pub open spec fn outcome_name(o: AuditOutcome) -> Seq<char> {
    match o {
        AuditOutcome::FavorsClient => "favors_client"@,
        AuditOutcome::FavorsWorker => "favors_worker"@,
        AuditOutcome::Split => "split"@,
        AuditOutcome::Inconclusive => "inconclusive"@,
    }
}

/// The name of a contract state.
pub open spec fn state_name(s: ContractState) -> Seq<char> {
    match s {
        ContractState::Negotiating => "negotiating"@,
        ContractState::Accepted => "accepted"@,
        ContractState::Completed => "completed"@,
        ContractState::CreditIssued => "credit_issued"@,
        ContractState::Expired => "expired"@,
    }
}

/// The name of an audit outcome.
pub fn outcome_label(o: AuditOutcome) -> (r: &'static str)
    ensures
        r@ == outcome_name(o),
{
    match o {
        AuditOutcome::FavorsClient => "favors_client",
        AuditOutcome::FavorsWorker => "favors_worker",
        AuditOutcome::Split => "split",
        AuditOutcome::Inconclusive => "inconclusive",
    }
}

/// The name of a contract state.
pub fn state_label(s: ContractState) -> (r: &'static str)
    ensures
        r@ == state_name(s),
{
    match s {
        ContractState::Negotiating => "negotiating",
        ContractState::Accepted => "accepted",
        ContractState::Completed => "completed",
        ContractState::CreditIssued => "credit_issued",
        ContractState::Expired => "expired",
    }
}

/// The refusal of an audit opinion without a known outcome.
pub open spec fn outcome_needed_msg() -> Seq<char> {
    "an audit opinion needs an outcome: favors_client, favors_worker, split or inconclusive"@
}

/// The outcome a trimmed outcome string names, if any.
pub open spec fn outcome_of(s: Seq<char>) -> Option<AuditOutcome> {
    if s == "favors_client"@ {
        Some(AuditOutcome::FavorsClient)
    } else if s == "favors_worker"@ {
        Some(AuditOutcome::FavorsWorker)
    } else if s == "split"@ {
        Some(AuditOutcome::Split)
    } else if s == "inconclusive"@ {
        Some(AuditOutcome::Inconclusive)
    } else {
        None
    }
}

/// Read an audit opinion's outcome: one of the four names, after trimming.
pub fn parse_outcome(raw: Option<&str>) -> (r: Result<AuditOutcome, NegotiationError>)
    ensures
        match raw {
            Some(s) => match outcome_of(trim_spec(s@)) {
                Some(o) => r == Ok::<AuditOutcome, NegotiationError>(o),
                None => r matches Err(NegotiationError::Annotation(m)) && m@ == outcome_needed_msg(),
            },
            None => r matches Err(NegotiationError::Annotation(m)) && m@ == outcome_needed_msg(),
        },
{
    let needed = "an audit opinion needs an outcome: favors_client, favors_worker, split or inconclusive";
    let s = match raw {
        Some(s) => trim(s),
        None => {
            return Err(NegotiationError::Annotation(string_from_str(needed)));
        },
    };
    if str_eq(s.as_str(), "favors_client") {
        Ok(AuditOutcome::FavorsClient)
    } else if str_eq(s.as_str(), "favors_worker") {
        Ok(AuditOutcome::FavorsWorker)
    } else if str_eq(s.as_str(), "split") {
        Ok(AuditOutcome::Split)
    } else if str_eq(s.as_str(), "inconclusive") {
        Ok(AuditOutcome::Inconclusive)
    } else {
        Err(NegotiationError::Annotation(string_from_str(needed)))
    }
}

/// A state in which a new step may be taken: only `Negotiating`; an
/// accepted contract is `AlreadyAccepted`, any other is `NotOpen` with its
/// name.
pub fn open_or_err(state: ContractState) -> (r: Result<(), NegotiationError>)
    ensures
        state == ContractState::Negotiating <==> r is Ok,
        state == ContractState::Accepted ==> r matches Err(NegotiationError::AlreadyAccepted),
        (state != ContractState::Negotiating && state != ContractState::Accepted) ==> (r matches Err(
            NegotiationError::NotOpen(s),
        ) && s@ == state_name(state)),
{
    match state {
        ContractState::Negotiating => Ok(()),
        ContractState::Accepted => Err(NegotiationError::AlreadyAccepted),
        other => Err(NegotiationError::NotOpen(string_from_str(state_label(other)))),
    }
}

/// The two parties of an offer: the proposing client and the `p`-tagged
/// worker.
#[derive(Debug, Clone)]
pub struct Parties {
    pub client: String,
    pub worker: String,
}

impl Parties {
    /// `(client, worker)` when `me` is one of them, else `NotAParticipant`.
    pub fn roles(&self, me: &str) -> (r: Result<(String, String), NegotiationError>)
        ensures
            (me@ == self.client@ || me@ == self.worker@) ==> (r matches Ok((c, w)) && c@ == self.client@ && w@
                == self.worker@),
            !(me@ == self.client@ || me@ == self.worker@) ==> r matches Err(NegotiationError::NotAParticipant),
    {
        if str_eq(me, self.client.as_str()) || str_eq(me, self.worker.as_str()) {
            Ok((self.client.clone(), self.worker.clone()))
        } else {
            Err(NegotiationError::NotAParticipant)
        }
    }
}

/// What a dispute annotation says.
#[derive(Debug, Clone, PartialEq)]
pub enum DisputeAnnotation {
    /// The criticised party's side of it; no score effect.
    Reply { body: String },
    /// Either party marks the record under review.
    AuditRequest { body: String },
    /// A third-party auditor's finding, staking their own standing.
    AuditOpinion { body: String, outcome: AuditOutcome },
}

/// The refusal of an annotation kind that is none of the three.
pub open spec fn unknown_kind_msg(kind: Seq<char>) -> Seq<char> {
    "unknown annotation kind "@ + crate::text::spec_debug_str(kind)
}

/// Check an annotation request and say what it annotates: the note must
/// not be blank; `reply` and `audit_request` need `me` to be a party;
/// `audit_opinion` needs an outcome but not a party; any other kind is
/// refused.
pub fn annotation_of(args: &AnnotateArgs, parties: &Parties, me: &str) -> (r: Result<DisputeAnnotation, NegotiationError>)
    ensures
        ({
            let body = trim_spec(args.body@);
            let party = me@ == parties.client@ || me@ == parties.worker@;
            if body.len() == 0 {
                r matches Err(NegotiationError::Annotation(m)) && m@ == "a note is required"@
            } else if args.kind@ == "reply"@ {
                if party {
                    r matches Ok(DisputeAnnotation::Reply { body: b }) && b@ == body
                } else {
                    r matches Err(NegotiationError::NotAParticipant)
                }
            } else if args.kind@ == "audit_request"@ {
                if party {
                    r matches Ok(DisputeAnnotation::AuditRequest { body: b }) && b@ == body
                } else {
                    r matches Err(NegotiationError::NotAParticipant)
                }
            } else if args.kind@ == "audit_opinion"@ {
                match args.outcome {
                    Some(o) => match outcome_of(trim_spec(o@)) {
                        Some(oc) => r matches Ok(DisputeAnnotation::AuditOpinion { body: b, outcome }) && b@
                            == body && outcome == oc,
                        None => r matches Err(NegotiationError::Annotation(m)) && m@ == outcome_needed_msg(),
                    },
                    None => r matches Err(NegotiationError::Annotation(m)) && m@ == outcome_needed_msg(),
                }
            } else {
                r matches Err(NegotiationError::Annotation(m)) && m@ == unknown_kind_msg(args.kind@)
            }
        }),
{
    let body = trim(args.body.as_str());
    if chars_of(body.as_str()).len() == 0 {
        return Err(NegotiationError::Annotation(string_from_str("a note is required")));
    }
    let kind = args.kind.as_str();
    if str_eq(kind, "reply") {
        parties.roles(me)?;
        Ok(DisputeAnnotation::Reply { body })
    } else if str_eq(kind, "audit_request") {
        parties.roles(me)?;
        Ok(DisputeAnnotation::AuditRequest { body })
    } else if str_eq(kind, "audit_opinion") {
        let outcome = match &args.outcome {
            Some(o) => parse_outcome(Some(o.as_str()))?,
            None => parse_outcome(None)?,
        };
        Ok(DisputeAnnotation::AuditOpinion { body, outcome })
    } else {
        let head = string_from_str("unknown annotation kind ");
        Err(NegotiationError::Annotation(crate::text::cat(head.as_str(), crate::text::debug_str(kind).as_str())))
    }
}

/// A contract's description: trimmed, and not blank.
pub fn terms_text(terms: &str) -> (r: Result<String, NegotiationError>)
    ensures
        trim_spec(terms@).len() == 0 ==> (r matches Err(NegotiationError::Terms(m)) && m@
            == "a description is required"@),
        trim_spec(terms@).len() > 0 ==> (r matches Ok(s) && s@ == trim_spec(terms@)),
{
    let t = trim(terms);
    if chars_of(t.as_str()).len() == 0 {
        return Err(NegotiationError::Terms(string_from_str("a description is required")));
    }
    Ok(t)
}

/// Resolving a contract's skill entries in order: blank entries are
/// skipped, the first that does not resolve stops with the reason, each
/// resolved tag is kept once.
pub open spec fn terms_tags_fold(m: Taxonomy, raws: Seq<String>) -> Result<Seq<Seq<char>>, Seq<char>>
    decreases raws.len(),
{
    if raws.len() == 0 {
        Ok(Seq::empty())
    } else {
        match terms_tags_fold(m, raws.drop_last()) {
            Err(e) => Err(e),
            Ok(tags) => {
                let raw = raws.last()@;
                if trim_spec(raw).len() == 0 {
                    Ok(tags)
                } else {
                    match resolve_spec(m, raw) {
                        Err(reason) => Err(reason),
                        Ok((_, t)) => if tags.contains(t) {
                            Ok(tags)
                        } else {
                            Ok(tags.push(t))
                        },
                    }
                }
            },
        }
    }
}

proof fn lemma_terms_tags_err_sticks(m: Taxonomy, raws: Seq<String>, k: int)
    requires
        0 <= k <= raws.len(),
        terms_tags_fold(m, raws.take(k)) is Err,
    ensures
        terms_tags_fold(m, raws) == terms_tags_fold(m, raws.take(k)),
    decreases raws.len() - k,
{
    if k < raws.len() {
        assert(raws.take(k + 1).drop_last() =~= raws.take(k));
        lemma_terms_tags_err_sticks(m, raws, k + 1);
    } else {
        assert(raws.take(k) =~= raws);
    }
}

/// The `i`-th of `raws` is a non-blank entry that resolves to the tag `x`.
pub open spec fn entry_resolves_to(m: Taxonomy, raws: Seq<String>, i: int, x: Seq<char>) -> bool {
    &&& 0 <= i < raws.len()
    &&& trim_spec(raws[i]@).len() > 0
    &&& resolve_spec(m, raws[i]@) matches Ok((_, t)) && t == x
}

/// `tags` holds the resolved tag of every non-blank entry of `raws`, only
/// such tags, and each once.
pub open spec fn keeps_every_entry(m: Taxonomy, raws: Seq<String>, tags: Seq<Seq<char>>) -> bool {
    &&& forall|i: int| 0 <= i < raws.len() && trim_spec((#[trigger] raws[i])@).len() > 0 ==> (resolve_spec(
        m,
        raws[i]@,
    ) matches Ok((_, t)) && tags.contains(t))
    &&& forall|k: int| 0 <= k < tags.len() ==> resolved_from(m, raws, #[trigger] tags[k])
    &&& forall|a: int, b: int| 0 <= a < b < tags.len() ==> #[trigger] tags[a] != #[trigger] tags[b]
}

/// Some non-blank entry of `raws` resolves to the tag `x`.
pub open spec fn resolved_from(m: Taxonomy, raws: Seq<String>, x: Seq<char>) -> bool {
    exists|i: int| entry_resolves_to(m, raws, i, x)
}

/// Resolving the terms' skill entries keeps every one of them: the read
/// succeeds exactly when every non-blank entry resolves; then every such
/// entry's resolved tag is among the result, every tag of the result is
/// the resolution of some non-blank entry, and no tag is listed twice.
pub proof fn law_terms_tags_keep_every_entry(m: Taxonomy, raws: Seq<String>)
    ensures
        terms_tags_fold(m, raws) is Ok <==> forall|i: int|
            0 <= i < raws.len() && trim_spec((#[trigger] raws[i])@).len() > 0 ==> resolve_spec(m, raws[i]@) is Ok,
        terms_tags_fold(m, raws) matches Ok(tags) ==> keeps_every_entry(m, raws, tags),
    decreases raws.len(),
{
    if raws.len() > 0 {
        let init = raws.drop_last();
        law_terms_tags_keep_every_entry(m, init);
        let last = raws.last();
        assert(raws[raws.len() - 1] == last);
        assert forall|i: int| 0 <= i < init.len() implies #[trigger] init[i] == raws[i] by {}
        match terms_tags_fold(m, init) {
            Err(e) => {
                let i = choose|i: int|
                    0 <= i < init.len() && trim_spec((#[trigger] init[i])@).len() > 0 && !(resolve_spec(m, init[i]@) is Ok);
                assert(init[i] == raws[i]);
                assert(terms_tags_fold(m, raws) is Err);
            },
            Ok(tags) => {
                if trim_spec(last@).len() > 0 {
                    match resolve_spec(m, last@) {
                        Err(_) => {
                            assert(terms_tags_fold(m, raws) is Err);
                        },
                        Ok((_, t)) => {
                            let nt = if tags.contains(t) { tags } else { tags.push(t) };
                            assert(terms_tags_fold(m, raws) == Ok::<Seq<Seq<char>>, Seq<char>>(nt));
                            assert forall|i: int| 0 <= i < raws.len() && trim_spec((#[trigger] raws[i])@).len() > 0 implies (
                            resolve_spec(m, raws[i]@) matches Ok((_, u)) && nt.contains(u)) by {
                                if i < init.len() {
                                    assert(init[i] == raws[i]);
                                    if let Ok((_, u)) = resolve_spec(m, raws[i]@) {
                                        let k = choose|k: int| 0 <= k < tags.len() && tags[k] == u;
                                        assert(nt[k] == u);
                                    }
                                } else if !tags.contains(t) {
                                    assert(nt[tags.len() as int] == t);
                                }
                            }
                            assert forall|a: int, b: int| 0 <= a < b < nt.len() implies #[trigger] nt[a] != #[trigger] nt[b] by {
                                if b == tags.len() && !tags.contains(t) {
                                    assert(nt[a] == tags[a]);
                                }
                            }
                            let tt = nt;
                            assert forall|k: int| 0 <= k < tt.len() implies resolved_from(m, raws, #[trigger] tt[k]) by {
                                if k < tags.len() {
                                    assert(nt[k] == tags[k]);
                                    assert(resolved_from(m, init, tags[k]));
                                    let i = choose|i: int| #[trigger] entry_resolves_to(m, init, i, tags[k]);
                                    assert(init[i] == raws[i]);
                                    assert(entry_resolves_to(m, raws, i, tt[k]));
                                } else {
                                    assert(entry_resolves_to(m, raws, raws.len() - 1, tt[k]));
                                }
                            }
                            assert(keeps_every_entry(m, raws, nt));
                        },
                    }
                }
                let ghost all_ok = forall|i: int|
                    0 <= i < raws.len() && trim_spec((#[trigger] raws[i])@).len() > 0 ==> resolve_spec(m, raws[i]@) is Ok;
                if trim_spec(last@).len() > 0 && resolve_spec(m, last@) is Err {
                    assert(!(resolve_spec(m, raws[raws.len() - 1]@) is Ok));
                    assert(!all_ok);
                } else {
                    assert forall|i: int|
                        0 <= i < raws.len() && trim_spec((#[trigger] raws[i])@).len() > 0 implies resolve_spec(m, raws[i]@) is Ok by {
                        if i < init.len() {
                            assert(init[i] == raws[i]);
                        }
                    }
                    assert(all_ok);
                }
                if trim_spec(last@).len() == 0 {
                    assert(terms_tags_fold(m, raws) == Ok::<Seq<Seq<char>>, Seq<char>>(tags));
                    assert(terms_tags_fold(m, init) == Ok::<Seq<Seq<char>>, Seq<char>>(tags));
                    assert forall|i: int| 0 <= i < raws.len() && trim_spec((#[trigger] raws[i])@).len() > 0 implies (
                    resolve_spec(m, raws[i]@) matches Ok((_, u)) && tags.contains(u)) by {
                        assert(i < init.len());
                        assert(init[i] == raws[i]);
                    }
                    assert forall|k: int| 0 <= k < tags.len() implies resolved_from(m, raws, #[trigger] tags[k]) by {
                        assert(resolved_from(m, init, tags[k]));
                        let i = choose|i: int| #[trigger] entry_resolves_to(m, init, i, tags[k]);
                        assert(init[i] == raws[i]);
                        assert(entry_resolves_to(m, raws, i, tags[k]));
                    }
                    assert(keeps_every_entry(m, raws, tags));
                }
            },
        }
    }
}

/// Resolve a contract's skill entries through the taxonomy: the first
/// entry that does not resolve is refused with the reason; no tag at all
/// is refused.
pub fn resolve_terms_tags(m: &Taxonomy, raws: &[String]) -> (r: Result<Vec<String>, NegotiationError>)
    ensures
        match terms_tags_fold(*m, raws@) {
            Err(reason) => r matches Err(NegotiationError::Terms(s)) && s@ == reason,
            Ok(tags) => if tags.len() == 0 {
                r matches Err(NegotiationError::Terms(s)) && s@ == "at least one skill tag is required"@
            } else {
                r matches Ok(v) && strs(v@) == tags
            },
        },
{
    let mut out: Vec<String> = Vec::new();
    let mut i: usize = 0;
    assert(raws@.take(0).len() == 0);
    assert(strs(out@) =~= Seq::<Seq<char>>::empty());
    while i < raws.len()
        invariant
            i <= raws@.len(),
            terms_tags_fold(*m, raws@.take(i as int)) == Ok::<Seq<Seq<char>>, Seq<char>>(strs(out@)),
        decreases raws.len() - i,
    {
        proof {
            assert(raws@.take(i + 1).drop_last() =~= raws@.take(i as int));
            assert(raws@.take(i + 1).last() == raws@[i as int]);
        }
        let t = trim(raws[i].as_str());
        if chars_of(t.as_str()).len() > 0 {
            match resolve(m, raws[i].as_str()) {
                Err(reason) => {
                    proof {
                        lemma_terms_tags_err_sticks(*m, raws@, i as int + 1);
                    }
                    return Err(NegotiationError::Terms(reason));
                },
                Ok(res) => {
                    let tag = string_from_str(res.tag());
                    if !contains_str(&out, tag.as_str()) {
                        let ghost before = out@;
                        let ghost tv = tag@;
                        out.push(tag);
                        assert(strs(out@) =~= strs(before).push(tv));
                    }
                },
            }
        }
        i = i + 1;
    }
    assert(raws@.take(raws@.len() as int) =~= raws@);
    if out.len() == 0 {
        return Err(NegotiationError::Terms(string_from_str("at least one skill tag is required")));
    }
    Ok(out)
}

/// An Accept's note: trimmed, and absent when blank.
pub fn accept_note(note: Option<&str>) -> (r: Option<String>)
    ensures
        match note {
            Some(n) => if trim_spec(n@).len() > 0 {
                r matches Some(s) && s@ == trim_spec(n@)
            } else {
                r is None
            },
            None => r is None,
        },
{
    match note {
        Some(n) => {
            let t = trim(n);
            if chars_of(t.as_str()).len() > 0 {
                Some(t)
            } else {
                None
            }
        },
        None => None,
    }
}

/// What a negotiation list row says about who may do what, and when it
/// last moved.
#[derive(Debug, Clone, Copy, PartialEq, Eq, Structural)]
pub struct NegotiationFlags {
    /// Still negotiating, and the last word was the counterparty's.
    pub your_move: bool,
    pub can_counter: bool,
    /// Only the worker accepts, and only while negotiating.
    pub can_accept: bool,
    /// An audit is requested and no opinion answers it yet.
    pub under_review: bool,
    /// The newest relevant signature time: what the list sorts on.
    pub last_update: u64,
}

/// Some dispute annotation on the contract is of kind `t`.
pub open spec fn has_annotation(ds: Seq<DisputeView>, t: Seq<char>) -> bool {
    exists|i: int| 0 <= i < ds.len() && (#[trigger] ds[i]).annotation_type@ == t
}

/// The newest dispute annotation time, zero when there is none.
pub open spec fn newest_dispute(ds: Seq<DisputeView>) -> u64
    decreases ds.len(),
{
    if ds.len() == 0 {
        0
    } else {
        let prev = newest_dispute(ds.drop_last());
        if ds.last().at > prev {
            ds.last().at
        } else {
            prev
        }
    }
}

/// The greater of two times.
pub open spec fn later(a: u64, b: u64) -> u64 {
    if a >= b {
        a
    } else {
        b
    }
}

fn has_annotation_exec(ds: &[DisputeView], t: &str) -> (r: bool)
    ensures
        r == has_annotation(ds@, t@),
{
    let mut i: usize = 0;
    while i < ds.len()
        invariant
            i <= ds@.len(),
            forall|j: int| 0 <= j < i ==> ds@[j].annotation_type@ != t@,
        decreases ds.len() - i,
    {
        if str_eq(ds[i].annotation_type.as_str(), t) {
            return true;
        }
        i = i + 1;
    }
    false
}

/// The flags of a negotiation row for the identity `me`: the contract's
/// state, whether `me` is the client, who signed the current head, the
/// dispute annotations, and the times of the offer, the head and the
/// acceptance if any. The row last moved at the acceptance (or, before
/// one, the head), the offer or the newest annotation, whichever is
/// latest.
pub fn negotiation_flags(
    state: ContractState,
    am_client: bool,
    head_signer: &str,
    me: &str,
    disputes: &[DisputeView],
    offer_at: u64,
    head_at: u64,
    accept_at: Option<u64>,
) -> (r: NegotiationFlags)
    ensures
        r.can_counter == (state == ContractState::Negotiating),
        r.can_accept == (!am_client && state == ContractState::Negotiating),
        r.your_move == (state == ContractState::Negotiating && head_signer@ != me@),
        r.under_review == (has_annotation(disputes@, "audit_request"@) && !has_annotation(disputes@, "audit_opinion"@)),
        r.last_update == later(
            later(
                match accept_at {
                    Some(a) => a,
                    None => head_at,
                },
                offer_at,
            ),
            newest_dispute(disputes@),
        ),
{
    let negotiating = match state {
        ContractState::Negotiating => true,
        _ => false,
    };
    let requested = has_annotation_exec(disputes, "audit_request");
    let opined = has_annotation_exec(disputes, "audit_opinion");
    let mut newest: u64 = 0;
    let mut i: usize = 0;
    while i < disputes.len()
        invariant
            i <= disputes@.len(),
            newest == newest_dispute(disputes@.take(i as int)),
        decreases disputes.len() - i,
    {
        proof {
            assert(disputes@.take(i + 1).drop_last() =~= disputes@.take(i as int));
            assert(disputes@.take(i + 1).last() == disputes@[i as int]);
        }
        if disputes[i].at > newest {
            newest = disputes[i].at;
        }
        i = i + 1;
    }
    assert(disputes@.take(disputes@.len() as int) =~= disputes@);
    let moved = match accept_at {
        Some(a) => a,
        None => head_at,
    };
    let moved = if moved >= offer_at { moved } else { offer_at };
    let last_update = if moved >= newest { moved } else { newest };
    NegotiationFlags {
        your_move: negotiating && !str_eq(head_signer, me),
        can_counter: negotiating,
        can_accept: !am_client && negotiating,
        under_review: requested && !opined,
        last_update,
    }
}

} // verus!
