//! Replication of one person's ledger across their own replicas (a phone
//! and one or more hosts) by anti-entropy: no coordinator, and the same
//! result whatever order the replicas talk in.
//!
//! The ledger is a grow-only set of signed, content-addressed events;
//! merge is set union keyed by id. A replica advertises the exact set of
//! ids it holds; a peer answers with every event not in it, plus its own
//! coverage so the caller can push back the reverse difference in the same
//! round. Everything pulled is re-verified locally: an event that fails is
//! dropped and counted, never merged.

use vstd::prelude::*;

use crate::events::{by_time, copy_event, ids_of, ids_unique, sort_by_time, HeldEvent};
use crate::text::{contains_str, insert_sorted, sorted_unique, string_from_str, strs};

verus! {

/// A replica's statement of exactly which events it holds, by id; sorted,
/// so the wire form is deterministic.
#[derive(Debug, Clone, PartialEq, Eq)]
pub struct LedgerCoverage(pub Vec<String>);

impl LedgerCoverage {
    /// The coverage of a held event set: its ids, sorted, each once.
    pub fn of(events: &[HeldEvent]) -> (r: Self)
        ensures
            sorted_unique(strs(r.0@)),
            forall|x: Seq<char>| strs(r.0@).contains(x) <==> ids_of(events@).contains(x),
    {
        let mut v: Vec<String> = Vec::new();
        let mut i: usize = 0;
        while i < events.len()
            invariant
                i <= events@.len(),
                sorted_unique(strs(v@)),
                forall|x: Seq<char>| strs(v@).contains(x) <==> ids_of(events@.take(i as int)).contains(x),
            decreases events.len() - i,
        {
            insert_sorted(&mut v, events[i].id.clone());
            proof {
                assert(ids_of(events@.take(i + 1)) =~= ids_of(events@.take(i as int)).push(events@[i as int].id@));
                assert forall|x: Seq<char>| strs(v@).contains(x) <==> ids_of(events@.take(i + 1)).contains(x) by {
                    let prev = ids_of(events@.take(i as int));
                    let cur = ids_of(events@.take(i + 1));
                    if prev.contains(x) {
                        let k = choose|k: int| 0 <= k < prev.len() && prev[k] == x;
                        assert(cur[k] == x);
                    }
                    if cur.contains(x) && x != events@[i as int].id@ {
                        let k = choose|k: int| 0 <= k < cur.len() && cur[k] == x;
                        assert(k < prev.len());
                        assert(prev[k] == x);
                    }
                    if x == events@[i as int].id@ {
                        assert(cur[i as int] == x);
                    }
                }
            }
            i = i + 1;
        }
        assert(events@.take(events@.len() as int) =~= events@);
        LedgerCoverage(v)
    }

    /// Whether a holder with this coverage lacks `event`.
    pub fn wants(&self, event: &HeldEvent) -> (r: bool)
        ensures
            r == !strs(self.0@).contains(event.id@),
    {
        !contains_str(&self.0, event.id.as_str())
    }
}

/// A peer's answer to a pull: the events it holds that the puller's
/// coverage did not include, and the peer's own coverage.
#[derive(Debug, Clone)]
pub struct PullResponse {
    pub events: Vec<HeldEvent>,
    pub coverage: LedgerCoverage,
}

/// The I/O half, supplied by whatever is running: replica-to-replica
/// HTTP in an app, a fake in tests.
pub trait LedgerTransport {
    /// Advertise `have` to `peer`; get back what the peer holds beyond it,
    /// and the peer's coverage. A failure is reported as text.
    fn pull(&mut self, peer: &str, have: &LedgerCoverage) -> Result<PullResponse, String>;

    /// Hand `events` to `peer` to merge; it answers how many were new to it.
    fn push(&mut self, peer: &str, events: &[HeldEvent]) -> Result<usize, String>;
}

/// What one round of anti-entropy did.
#[derive(Debug)]
pub struct LedgerRound {
    /// New, verified events merged this round, oldest first.
    pub received: Vec<HeldEvent>,
    /// Pulled events that failed verification; a duplicate is not counted.
    pub rejected: usize,
    /// Events the peers accepted as new to them.
    pub pushed: usize,
    /// Per-peer failures, `(peer, message)`.
    pub errors: Vec<(String, String)>,
}

/// Every error names one of the peers.
pub open spec fn names_peers(errors: Seq<(String, String)>, peers: Seq<&str>) -> bool {
    forall|i: int| 0 <= i < errors.len() ==> exists|j: int| 0 <= j < peers.len() && (#[trigger] errors[i]).0@ == (#[trigger] peers[j])@
}

/// Drives anti-entropy rounds, remembering the ids merged so far so that a
/// round never hands back an event the caller already holds.
pub struct LedgerSync {
    pub seen: Vec<String>,
}

/// What absorbing a pulled batch does: its verified events whose ids are
/// neither in `seen` nor earlier in the batch, in order; and how many
/// failed verification.
pub open spec fn absorb_spec(seen: Seq<Seq<char>>, events: Seq<HeldEvent>) -> (Seq<HeldEvent>, nat)
    decreases events.len(),
{
    if events.len() == 0 {
        (Seq::empty(), 0)
    } else {
        let (fresh, bad) = absorb_spec(seen, events.drop_last());
        let e = events.last();
        if !e.verified {
            (fresh, bad + 1)
        } else if seen.contains(e.id@) || ids_of(fresh).contains(e.id@) {
            (fresh, bad)
        } else {
            (fresh.push(e), bad)
        }
    }
}

pub(crate) proof fn lemma_absorb_props(seen: Seq<Seq<char>>, events: Seq<HeldEvent>)
    ensures
        ids_unique(absorb_spec(seen, events).0),
        forall|i: int| 0 <= i < absorb_spec(seen, events).0.len() ==> {
            &&& (#[trigger] absorb_spec(seen, events).0[i]).verified
            &&& !seen.contains(absorb_spec(seen, events).0[i].id@)
            &&& events.contains(absorb_spec(seen, events).0[i])
        },
        absorb_spec(seen, events).1 <= events.len(),
    decreases events.len(),
{
    if events.len() > 0 {
        lemma_absorb_props(seen, events.drop_last());
        let (fresh, bad) = absorb_spec(seen, events.drop_last());
        let e = events.last();
        assert forall|i: int| 0 <= i < fresh.len() implies events.contains(#[trigger] fresh[i]) by {
            let k = choose|k: int| 0 <= k < events.drop_last().len() && events.drop_last()[k] == fresh[i];
            assert(events[k] == fresh[i]);
        }
        if e.verified && !seen.contains(e.id@) && !ids_of(fresh).contains(e.id@) {
            let nf = fresh.push(e);
            assert(events[events.len() - 1] == e);
            assert forall|a: int, b: int| 0 <= a < b < nf.len() implies (#[trigger] nf[a]).id@ != (#[trigger] nf[b]).id@ by {
                if b == nf.len() - 1 {
                    assert(ids_of(fresh)[a] == fresh[a].id@);
                }
            }
        }
    }
}

/// The ids marked seen after merging `events` into `seen`.
pub open spec fn merged(seen: Seq<Seq<char>>, events: Seq<HeldEvent>) -> Seq<Seq<char>> {
    seen + ids_of(absorb_spec(seen, events).0)
}

/// Some verified event of `events` carries the id `x`.
pub open spec fn vouched(events: Seq<HeldEvent>, x: Seq<char>) -> bool {
    exists|i: int| 0 <= i < events.len() && (#[trigger] events[i]).verified && events[i].id@ == x
}

/// Merging is set union keyed by id: after merging a batch, an id is seen
/// exactly when it was seen before or a verified event of the batch
/// carries it. An event that fails verification adds nothing.
pub proof fn law_merge_is_union(seen: Seq<Seq<char>>, events: Seq<HeldEvent>, x: Seq<char>)
    ensures
        merged(seen, events).contains(x) <==> (seen.contains(x) || vouched(events, x)),
    decreases events.len(),
{
    if events.len() > 0 {
        let init = events.drop_last();
        law_merge_is_union(seen, init, x);
        let (fresh, bad) = absorb_spec(seen, init);
        let e = events.last();
        let nf = absorb_spec(seen, events).0;
        assert(merged(seen, init).contains(x) <==> (seen.contains(x) || ids_of(fresh).contains(x))) by {
            if merged(seen, init).contains(x) && !seen.contains(x) {
                let k = choose|k: int| 0 <= k < merged(seen, init).len() && merged(seen, init)[k] == x;
                assert(ids_of(fresh)[k - seen.len()] == x);
            }
            if seen.contains(x) {
                let k = choose|k: int| 0 <= k < seen.len() && seen[k] == x;
                assert(merged(seen, init)[k] == x);
            }
            if ids_of(fresh).contains(x) {
                let k = choose|k: int| 0 <= k < ids_of(fresh).len() && ids_of(fresh)[k] == x;
                assert(merged(seen, init)[seen.len() + k] == x);
            }
        }
        assert(merged(seen, events).contains(x) <==> (seen.contains(x) || ids_of(nf).contains(x))) by {
            if merged(seen, events).contains(x) && !seen.contains(x) {
                let k = choose|k: int| 0 <= k < merged(seen, events).len() && merged(seen, events)[k] == x;
                assert(ids_of(nf)[k - seen.len()] == x);
            }
            if seen.contains(x) {
                let k = choose|k: int| 0 <= k < seen.len() && seen[k] == x;
                assert(merged(seen, events)[k] == x);
            }
            if ids_of(nf).contains(x) {
                let k = choose|k: int| 0 <= k < ids_of(nf).len() && ids_of(nf)[k] == x;
                assert(merged(seen, events)[seen.len() + k] == x);
            }
        }
        assert(vouched(events, x) <==> (vouched(init, x) || (e.verified && e.id@ == x))) by {
            if vouched(events, x) {
                let i = choose|i: int| 0 <= i < events.len() && (#[trigger] events[i]).verified && events[i].id@ == x;
                if i < init.len() {
                    assert(init[i] == events[i]);
                }
            }
            if vouched(init, x) {
                let i = choose|i: int| 0 <= i < init.len() && (#[trigger] init[i]).verified && init[i].id@ == x;
                assert(events[i] == init[i]);
            }
            if e.verified && e.id@ == x {
                assert(events[events.len() - 1] == e);
            }
        }
        if e.verified && !seen.contains(e.id@) && !ids_of(fresh).contains(e.id@) {
            assert(ids_of(nf) =~= ids_of(fresh).push(e.id@));
            if ids_of(nf).contains(x) && x != e.id@ {
                let k = choose|k: int| 0 <= k < ids_of(nf).len() && ids_of(nf)[k] == x;
                assert(ids_of(fresh)[k] == x);
            }
            if ids_of(fresh).contains(x) {
                let k = choose|k: int| 0 <= k < ids_of(fresh).len() && ids_of(fresh)[k] == x;
                assert(ids_of(nf)[k] == x);
            }
            if x == e.id@ {
                assert(ids_of(nf)[fresh.len() as int] == x);
            }
        } else {
            assert(nf == fresh);
        }
    }
}

/// Merging is idempotent: merging the same batch again, on top of what the
/// first merge marked seen, merges nothing and marks nothing new.
pub proof fn law_merge_is_idempotent(seen: Seq<Seq<char>>, events: Seq<HeldEvent>)
    ensures
        absorb_spec(merged(seen, events), events).0.len() == 0,
{
    let s1 = merged(seen, events);
    assert forall|i: int| 0 <= i < events.len() && (#[trigger] events[i]).verified implies s1.contains(events[i].id@) by {
        law_merge_is_union(seen, events, events[i].id@);
    }
    lemma_nothing_new(s1, events);
}

/// The order batches are merged in does not matter: merging `a` then `b`
/// marks the same ids seen as merging `b` then `a`.
pub proof fn law_merge_commutes(seen: Seq<Seq<char>>, a: Seq<HeldEvent>, b: Seq<HeldEvent>, x: Seq<char>)
    ensures
        merged(merged(seen, a), b).contains(x) <==> merged(merged(seen, b), a).contains(x),
{
    law_merge_is_union(seen, a, x);
    law_merge_is_union(seen, b, x);
    law_merge_is_union(merged(seen, a), b, x);
    law_merge_is_union(merged(seen, b), a, x);
}

/// What fails verification is counted whatever has been seen: the count
/// does not depend on `seen`.
pub proof fn law_rejections_ignore_seen(s1: Seq<Seq<char>>, s2: Seq<Seq<char>>, events: Seq<HeldEvent>)
    ensures
        absorb_spec(s1, events).1 == absorb_spec(s2, events).1,
    decreases events.len(),
{
    if events.len() > 0 {
        law_rejections_ignore_seen(s1, s2, events.drop_last());
    }
}

/// Absorbing depends on `seen` only through which ids it contains.
pub(crate) proof fn lemma_absorb_same_seen(s1: Seq<Seq<char>>, s2: Seq<Seq<char>>, events: Seq<HeldEvent>)
    requires
        forall|x: Seq<char>| s1.contains(x) <==> s2.contains(x),
    ensures
        absorb_spec(s1, events) == absorb_spec(s2, events),
    decreases events.len(),
{
    if events.len() > 0 {
        lemma_absorb_same_seen(s1, s2, events.drop_last());
        assert(s1.contains(events.last().id@) <==> s2.contains(events.last().id@));
    }
}

pub(crate) proof fn lemma_concat_contains(a: Seq<Seq<char>>, b: Seq<Seq<char>>, x: Seq<char>)
    ensures
        (a + b).contains(x) <==> (a.contains(x) || b.contains(x)),
{
    if a.contains(x) {
        let i = choose|i: int| 0 <= i < a.len() && a[i] == x;
        assert((a + b)[i] == x);
    }
    if b.contains(x) {
        let i = choose|i: int| 0 <= i < b.len() && b[i] == x;
        assert((a + b)[a.len() + i] == x);
    }
    if (a + b).contains(x) {
        let i = choose|i: int| 0 <= i < (a + b).len() && (a + b)[i] == x;
        if i < a.len() {
            assert(a[i] == x);
        } else {
            assert(b[i - a.len()] == x);
        }
    }
}

proof fn lemma_nothing_new(seen: Seq<Seq<char>>, events: Seq<HeldEvent>)
    requires
        forall|i: int| 0 <= i < events.len() && (#[trigger] events[i]).verified ==> seen.contains(events[i].id@),
    ensures
        absorb_spec(seen, events).0.len() == 0,
    decreases events.len(),
{
    if events.len() > 0 {
        let init = events.drop_last();
        assert forall|i: int| 0 <= i < init.len() && (#[trigger] init[i]).verified implies seen.contains(init[i].id@) by {
            assert(events[i] == init[i]);
        }
        lemma_nothing_new(seen, init);
        assert(events[events.len() - 1] == events.last());
    }
}

/// Take the events of one pull into `fresh`, marking their ids seen: the
/// verified events not seen before (and not repeated within the batch) are
/// appended in order; the count of unverified ones is returned.
#[verifier::spinoff_prover]
pub fn absorb_pull(seen: &mut Vec<String>, fresh: &mut Vec<HeldEvent>, events: Vec<HeldEvent>) -> (rejected: usize)
    requires
        sorted_unique(strs(old(seen)@)),
    ensures
        sorted_unique(strs(final(seen)@)),
        final(fresh)@ == old(fresh)@ + absorb_spec(strs(old(seen)@), events@).0,
        rejected == absorb_spec(strs(old(seen)@), events@).1,
        forall|x: Seq<char>| strs(final(seen)@).contains(x) <==> (strs(old(seen)@).contains(x) || ids_of(
            absorb_spec(strs(old(seen)@), events@).0,
        ).contains(x)),
{
    let ghost s0 = strs(seen@);
    let ghost f0 = fresh@;
    let mut rejected: usize = 0;
    let mut i: usize = 0;
    while i < events.len()
        invariant
            i <= events@.len(),
            sorted_unique(strs(seen@)),
            fresh@ == f0 + absorb_spec(s0, events@.take(i as int)).0,
            rejected == absorb_spec(s0, events@.take(i as int)).1,
            rejected <= i,
            forall|x: Seq<char>| #[trigger] strs(seen@).contains(x) <==> (s0.contains(x) || ids_of(absorb_spec(s0, events@.take(i as int)).0).contains(x)),
        decreases events.len() - i,
    {
        proof {
            assert(events@.take(i + 1).drop_last() =~= events@.take(i as int));
            assert(events@.take(i + 1).last() == events@[i as int]);
        }
        let e = &events[i];
        let ghost fr = absorb_spec(s0, events@.take(i as int)).0;
        let ghost nf = absorb_spec(s0, events@.take(i + 1)).0;
        let ghost sv = strs(seen@);
        assert forall|x: Seq<char>| sv.contains(x) <==> (s0.contains(x) || ids_of(fr).contains(x)) by {
            assert(strs(seen@).contains(x) <==> (s0.contains(x) || ids_of(absorb_spec(s0, events@.take(i as int)).0).contains(
                x,
            )));
        }
        let already = contains_str(seen, e.id.as_str());
        if !e.verified {
            rejected = rejected + 1;
        }
        if e.verified && !already {
            insert_sorted(seen, e.id.clone());
            fresh.push(copy_event(e));
        }
        proof {
            if !e.verified {
                assert(nf == fr);
                assert(strs(seen@) == sv);
            } else if !already {
                assert(!s0.contains(e.id@) && !ids_of(fr).contains(e.id@));
                assert(nf == fr.push(*e));
                assert(ids_of(nf) =~= ids_of(fr).push(e.id@));
                assert forall|x: Seq<char>| strs(seen@).contains(x) <==> (s0.contains(x) || ids_of(nf).contains(x)) by {
                    assert(sv.contains(x) <==> (s0.contains(x) || ids_of(fr).contains(x)));
                    if ids_of(nf).contains(x) && x != e.id@ {
                        let k = choose|k: int| 0 <= k < ids_of(nf).len() && ids_of(nf)[k] == x;
                        assert(ids_of(fr)[k] == x);
                    }
                    if ids_of(fr).contains(x) {
                        let k = choose|k: int| 0 <= k < ids_of(fr).len() && ids_of(fr)[k] == x;
                        assert(ids_of(nf)[k] == x);
                    }
                    if x == e.id@ {
                        assert(ids_of(nf)[fr.len() as int] == x);
                    }
                }
                assert(fresh@ =~= f0 + nf);
            } else {
                assert(s0.contains(e.id@) || ids_of(fr).contains(e.id@));
                assert(nf == fr);
                assert(strs(seen@) == sv);
            }
        }
        i = i + 1;
    }
    assert(events@.take(events@.len() as int) =~= events@);
    assert forall|x: Seq<char>| strs(seen@).contains(x) <==> (s0.contains(x) || ids_of(absorb_spec(s0, events@).0).contains(x)) by {
        assert(strs(seen@).contains(x) <==> (s0.contains(x) || ids_of(absorb_spec(s0, events@.take(events@.len() as int)).0).contains(x)));
    }
    assert(s0 == strs(old(seen)@));
    assert forall|x: Seq<char>| strs(seen@).contains(x) <==> (strs(old(seen)@).contains(x) || ids_of(absorb_spec(strs(old(seen)@), events@).0).contains(x)) by {
        assert(strs(seen@).contains(x) <==> (s0.contains(x) || ids_of(absorb_spec(s0, events@).0).contains(x)));
    }
    rejected
}

/// The events of `s` whose ids are not in `coverage`, in order.
pub open spec fn lacking(s: Seq<HeldEvent>, coverage: Seq<Seq<char>>) -> Seq<HeldEvent>
    decreases s.len(),
{
    if s.len() == 0 {
        Seq::empty()
    } else if coverage.contains(s.last().id@) {
        lacking(s.drop_last(), coverage)
    } else {
        lacking(s.drop_last(), coverage).push(s.last())
    }
}

/// What a peer with coverage `coverage` lacks of `held` then `fresh`, in
/// that order.
pub open spec fn outgoing_spec(held: Seq<HeldEvent>, fresh: Seq<HeldEvent>, coverage: Seq<Seq<char>>) -> Seq<HeldEvent> {
    lacking(held + fresh, coverage)
}

/// The events of `held` then `fresh` that a peer with `coverage` lacks, in
/// that order.
pub fn outgoing(held: &[HeldEvent], fresh: &Vec<HeldEvent>, coverage: &LedgerCoverage) -> (r: Vec<HeldEvent>)
    ensures
        r@ == outgoing_spec(held@, fresh@, strs(coverage.0@)),
{
    let ghost all = held@ + fresh@;
    let ghost cov = strs(coverage.0@);
    let mut out: Vec<HeldEvent> = Vec::new();
    let mut i: usize = 0;
    assert(lacking(all.take(0), cov) =~= Seq::<HeldEvent>::empty());
    while i < held.len()
        invariant
            i <= held@.len(),
            all == held@ + fresh@,
            cov == strs(coverage.0@),
            out@ == lacking(all.take(i as int), cov),
        decreases held.len() - i,
    {
        let e = &held[i];
        assert(*e == all[i as int]);
        proof {
            assert(all.take(i + 1).drop_last() =~= all.take(i as int));
            assert(all.take(i + 1).last() == all[i as int]);
        }
        if coverage.wants(e) {
            out.push(copy_event(e));
        }
        i = i + 1;
    }
    let mut j: usize = 0;
    while j < fresh.len()
        invariant
            j <= fresh@.len(),
            all == held@ + fresh@,
            cov == strs(coverage.0@),
            out@ == lacking(all.take(held@.len() + j), cov),
        decreases fresh.len() - j,
    {
        let e = &fresh[j];
        let ghost n = held@.len() + j;
        assert(*e == all[n]);
        proof {
            assert(all.take(n + 1).drop_last() =~= all.take(n));
            assert(all.take(n + 1).last() == all[n]);
        }
        if coverage.wants(e) {
            out.push(copy_event(e));
        }
        j = j + 1;
    }
    assert(all.take(all.len() as int) =~= all);
    out
}

/// `a + b`, held at `usize::MAX`.
pub open spec fn sat_add(a: nat, b: nat) -> nat {
    if a + b > usize::MAX {
        usize::MAX as nat
    } else {
        a + b
    }
}

/// Errors as text: `(peer, message)`.
pub open spec fn error_view(errors: Seq<(String, String)>) -> Seq<(Seq<char>, Seq<char>)> {
    errors.map_values(|e: (String, String)| (e.0@, e.1@))
}

/// The peers by name.
pub open spec fn peer_names(peers: Seq<&str>) -> Seq<Seq<char>> {
    peers.map_values(|p: &str| p@)
}

/// One peer's part in a round: the coverage advertised to it with the
/// pull, and its answer (its events and its coverage, or a failure); and,
/// if a push was made, the events handed to it and its answer (how many
/// were new to it, or a failure).
pub struct PeerExchange {
    pub have: Seq<Seq<char>>,
    pub pull: Result<(Seq<HeldEvent>, Seq<Seq<char>>), Seq<char>>,
    pub push: Option<(Seq<HeldEvent>, Result<usize, Seq<char>>)>,
}

/// `have` is the coverage of `held`: exactly its ids.
pub open spec fn covers(have: Seq<Seq<char>>, held: Seq<HeldEvent>) -> bool {
    forall|y: Seq<char>| #[trigger] have.contains(y) <==> ids_of(held).contains(y)
}

/// Where a round stands: the ids marked seen, the events merged so far
/// (in merge order), the rejected and pushed counts, the errors, and what
/// was pushed to whom.
pub struct RoundState {
    pub seen: Seq<Seq<char>>,
    pub fresh: Seq<HeldEvent>,
    pub rejected: nat,
    pub pushed: nat,
    pub errors: Seq<(Seq<char>, Seq<char>)>,
    pub pushes: Seq<(Seq<char>, Seq<HeldEvent>)>,
}

/// A round before any peer: the ids merged before and the held ids marked
/// seen, nothing else.
pub open spec fn round_start(seen: Seq<Seq<char>>, held: Seq<HeldEvent>) -> RoundState {
    RoundState {
        seen: seen + ids_of(held),
        fresh: Seq::empty(),
        rejected: 0,
        pushed: 0,
        errors: Seq::empty(),
        pushes: Seq::empty(),
    }
}

/// One peer's turn: the pull advertises the coverage of `held`; a failed
/// pull is recorded and nothing is pushed; a pulled batch is absorbed, and
/// what the peer lacks of `held` then of the events merged so far is
/// handed to it in a push exactly when that is not nothing, its answer
/// then added to the pushed count or recorded as an error. `None` when the
/// exchange does not fit: another coverage advertised, a push where none
/// is due, none where one is, or other events handed over.
pub open spec fn exchange(held: Seq<HeldEvent>, st: RoundState, peer: Seq<char>, x: PeerExchange) -> Option<RoundState> {
    if !covers(x.have, held) {
        None
    } else {
    match x.pull {
        Err(e) => if x.push is None {
            Some(RoundState { errors: st.errors.push((peer, e)), ..st })
        } else {
            None
        },
        Ok((events, cov)) => {
            let (added, bad) = absorb_spec(st.seen, events);
            let fresh = st.fresh + added;
            let out = outgoing_spec(held, fresh, cov);
            let base = RoundState { seen: st.seen + ids_of(added), fresh, rejected: sat_add(st.rejected, bad), ..st };
            if out.len() == 0 {
                if x.push is None {
                    Some(base)
                } else {
                    None
                }
            } else {
                match x.push {
                    None => None,
                    Some((given, answer)) => if given != out {
                        None
                    } else {
                        match answer {
                            Ok(n) => Some(
                                RoundState {
                                    pushed: sat_add(base.pushed, n as nat),
                                    pushes: base.pushes.push((peer, out)),
                                    ..base
                                },
                            ),
                            Err(e) => Some(
                                RoundState {
                                    errors: base.errors.push((peer, e)),
                                    pushes: base.pushes.push((peer, out)),
                                    ..base
                                },
                            ),
                        }
                    },
                }
            }
        },
    }
    }
}

/// A round over `peers` in order, the i-th answering `xs[i]`.
pub open spec fn round_fold(held: Seq<HeldEvent>, st: RoundState, peers: Seq<Seq<char>>, xs: Seq<PeerExchange>) -> Option<
    RoundState,
>
    decreases xs.len(),
{
    if xs.len() == 0 {
        Some(st)
    } else {
        match round_fold(held, st, peers, xs.drop_last()) {
            None => None,
            Some(s) => exchange(held, s, peers[xs.len() - 1], xs.last()),
        }
    }
}

/// A report, and the ids marked seen after it, that are exactly where the
/// round left off in `st`; the received events are the merged ones, each
/// once, in some order.
pub open spec fn reports(report: LedgerRound, seen_after: Seq<Seq<char>>, st: RoundState) -> bool {
    &&& report.received@.len() == st.fresh.len()
    &&& forall|e: HeldEvent| #[trigger] report.received@.contains(e) <==> st.fresh.contains(e)
    &&& report.rejected == st.rejected
    &&& report.pushed == st.pushed
    &&& error_view(report.errors@) == st.errors
    &&& forall|x: Seq<char>| #[trigger] seen_after.contains(x) <==> st.seen.contains(x)
}

/// Some answers of the peers, one per peer, make `report` and `seen_after`
/// the fold of [`exchange`] over them from the ids seen before and `held`.
pub open spec fn round_outcome(
    seen_before: Seq<Seq<char>>,
    held: Seq<HeldEvent>,
    peers: Seq<Seq<char>>,
    report: LedgerRound,
    seen_after: Seq<Seq<char>>,
) -> bool {
    exists|xs: Seq<PeerExchange>|
        xs.len() == peers.len() && (#[trigger] round_fold(held, round_start(seen_before, held), peers, xs) matches Some(
            st,
        ) && reports(report, seen_after, st))
}

/// Record a peer's answer to a push: the count it took is added to
/// `pushed` (held at `usize::MAX`); a failure is recorded against it.
pub fn take_push_answer(peer: &str, answer: Result<usize, String>, pushed: &mut usize, errors: &mut Vec<(String, String)>)
    ensures
        match answer {
            Ok(n) => *final(pushed) == sat_add(*old(pushed) as nat, n as nat) && final(errors)@ == old(errors)@,
            Err(e) => *final(pushed) == *old(pushed) && error_view(final(errors)@) == error_view(old(errors)@).push(
                (peer@, e@),
            ) && final(errors)@.drop_last() == old(errors)@,
        },
{
    match answer {
        Ok(n) => {
            *pushed = pushed.saturating_add(n);
        },
        Err(e) => {
            let ghost before = errors@;
            errors.push((string_from_str(peer), e));
            assert(error_view(errors@) =~= error_view(before).push((peer@, errors@.last().1@)));
            assert(errors@.drop_last() =~= before);
        },
    }
}

impl LedgerSync {
    /// A driver that has merged nothing yet.
    pub fn new() -> (r: Self)
        ensures
            r.seen@.len() == 0,
    {
        LedgerSync { seen: Vec::new() }
    }

    /// The ids merged so far are sorted, each once.
    pub open spec fn wf(&self) -> bool {
        sorted_unique(strs(self.seen@))
    }

    /// Take a peer's answer to a pull. A failure is recorded against the
    /// peer and nothing is to be pushed. A batch is absorbed into `fresh`
    /// (its unverified events added to `rejected`, held at `usize::MAX`);
    /// what is then to be pushed to the peer is what it lacks, by its
    /// coverage, of `held` and then of `fresh`.
    pub fn take_pull_answer(
        &mut self,
        held: &[HeldEvent],
        fresh: &mut Vec<HeldEvent>,
        rejected: &mut usize,
        errors: &mut Vec<(String, String)>,
        peer: &str,
        answer: Result<PullResponse, String>,
    ) -> (out: Vec<HeldEvent>)
        requires
            old(self).wf(),
        ensures
            final(self).wf(),
            match answer {
                Err(e) => {
                    &&& final(self).seen@ == old(self).seen@
                    &&& final(fresh)@ == old(fresh)@
                    &&& *final(rejected) == *old(rejected)
                    &&& error_view(final(errors)@) == error_view(old(errors)@).push((peer@, e@))
                    &&& final(errors)@.drop_last() == old(errors)@
                    &&& final(errors)@.last().0@ == peer@
                    &&& out@.len() == 0
                },
                Ok(resp) => {
                    &&& final(fresh)@ == old(fresh)@ + absorb_spec(strs(old(self).seen@), resp.events@).0
                    &&& *final(rejected) == sat_add(
                        *old(rejected) as nat,
                        absorb_spec(strs(old(self).seen@), resp.events@).1,
                    )
                    &&& forall|x: Seq<char>| strs(final(self).seen@).contains(x) <==> (strs(old(self).seen@).contains(x)
                        || ids_of(absorb_spec(strs(old(self).seen@), resp.events@).0).contains(x))
                    &&& final(errors)@ == old(errors)@
                    &&& out@ == outgoing_spec(held@, final(fresh)@, strs(resp.coverage.0@))
                },
            },
    {
        match answer {
            Err(e) => {
                let ghost before = errors@;
                errors.push((string_from_str(peer), e));
                assert(error_view(errors@) =~= error_view(before).push((peer@, errors@.last().1@)));
                assert(errors@.drop_last() =~= before);
                Vec::new()
            },
            Ok(resp) => {
                let bad = absorb_pull(&mut self.seen, fresh, resp.events);
                *rejected = rejected.saturating_add(bad);
                outgoing(held, fresh, &resp.coverage)
            },
        }
    }

    /// One anti-entropy round against every peer, in order. `held` is the
    /// caller's current ledger: its ids are marked seen first, and it is
    /// advertised as this replica's coverage. Each peer's pulled events are
    /// absorbed; then what the peer lacks of `held` and of what this round
    /// has merged so far is pushed to it, unless that is nothing. A peer
    /// that fails is recorded and the round goes on with the next.
    ///
    /// Whatever the peers answer: every event received is verified, new
    /// (neither held nor merged before) and received once, the events come
    /// oldest first, every id held or received is now marked seen, and
    /// each error names one of the peers, at most one per peer. Exactly:
    /// for some answers of the peers, one per peer in order, the report and
    /// the ids now seen are the fold of [`exchange`] over them (the merged
    /// events, each once, oldest first; the rejected and pushed counts; the
    /// errors in order). With no peers the report is empty.
    pub fn round<T: LedgerTransport>(&mut self, transport: &mut T, peers: &[&str], held: &[HeldEvent]) -> (report: LedgerRound)
        requires
            old(self).wf(),
        ensures
            final(self).wf(),
            ids_unique(report.received@),
            by_time(report.received@),
            forall|i: int| 0 <= i < report.received@.len() ==> {
                &&& (#[trigger] report.received@[i]).verified
                &&& !strs(old(self).seen@).contains(report.received@[i].id@)
                &&& !ids_of(held@).contains(report.received@[i].id@)
            },
            forall|x: Seq<char>| strs(old(self).seen@).contains(x) ==> strs(final(self).seen@).contains(x),
            forall|x: Seq<char>| ids_of(held@).contains(x) ==> strs(final(self).seen@).contains(x),
            forall|i: int| 0 <= i < report.received@.len() ==> strs(final(self).seen@).contains(
                (#[trigger] report.received@[i]).id@,
            ),
            forall|x: Seq<char>| #[trigger] strs(final(self).seen@).contains(x) ==> (strs(old(self).seen@).contains(x)
                || ids_of(held@).contains(x) || ids_of(report.received@).contains(x)),
            report.errors@.len() <= peers@.len(),
            names_peers(report.errors@, peers@),
            round_outcome(strs(old(self).seen@), held@, peer_names(peers@), report, strs(final(self).seen@)),
            peers@.len() == 0 ==> report.received@.len() == 0 && report.rejected == 0 && report.pushed == 0
                && report.errors@.len() == 0,
    {
        let ghost seen0 = strs(self.seen@);
        let mut k: usize = 0;
        while k < held.len()
            invariant
                k <= held@.len(),
                sorted_unique(strs(self.seen@)),
                forall|x: Seq<char>| seen0.contains(x) ==> strs(self.seen@).contains(x),
                forall|x: Seq<char>| ids_of(held@.take(k as int)).contains(x) ==> strs(self.seen@).contains(x),
                forall|x: Seq<char>| #[trigger] strs(self.seen@).contains(x) ==> (seen0.contains(x) || ids_of(held@.take(k as int)).contains(x)),
            decreases held.len() - k,
        {
            insert_sorted(&mut self.seen, held[k].id.clone());
            proof {
                let ghost nxt = ids_of(held@.take(k + 1));
                assert forall|x: Seq<char>| nxt.contains(x) implies strs(self.seen@).contains(x) by {
                    let q = choose|q: int| 0 <= q < nxt.len() && nxt[q] == x;
                    if q < k {
                        assert(ids_of(held@.take(k as int))[q] == x);
                    } else {
                        assert(x == held@[k as int].id@);
                    }
                }
                assert forall|x: Seq<char>| #[trigger] strs(self.seen@).contains(x) implies (seen0.contains(x) || nxt.contains(x)) by {
                    if x == held@[k as int].id@ {
                        assert(nxt[k as int] == x);
                    } else if !seen0.contains(x) {
                        let prev = ids_of(held@.take(k as int));
                        assert(prev.contains(x));
                        let q = choose|q: int| 0 <= q < prev.len() && prev[q] == x;
                        assert(nxt[q] == x);
                    }
                }
            }
            k = k + 1;
        }
        assert(held@.take(held@.len() as int) =~= held@);
        let ghost primed = strs(self.seen@);
        let mine = LedgerCoverage::of(held);
        let mut fresh: Vec<HeldEvent> = Vec::new();
        let mut rejected: usize = 0;
        let mut pushed: usize = 0;
        let mut errors: Vec<(String, String)> = Vec::new();
        let ghost names = peer_names(peers@);
        let ghost start = round_start(seen0, held@);
        let ghost mut xs: Seq<PeerExchange> = Seq::empty();
        let ghost mut st: RoundState = start;
        proof {
            assert forall|x: Seq<char>| primed.contains(x) <==> start.seen.contains(x) by {
                lemma_concat_contains(seen0, ids_of(held@), x);
            }
            assert(error_view(errors@) =~= Seq::<(Seq<char>, Seq<char>)>::empty());
        }
        let mut p: usize = 0;
        while p < peers.len()
            invariant
                p <= peers@.len(),
                sorted_unique(strs(self.seen@)),
                forall|x: Seq<char>| primed.contains(x) ==> strs(self.seen@).contains(x),
                forall|x: Seq<char>| seen0.contains(x) ==> primed.contains(x),
                forall|x: Seq<char>| ids_of(held@).contains(x) ==> primed.contains(x),
                ids_unique(fresh@),
                forall|i: int| 0 <= i < fresh@.len() ==> {
                    &&& (#[trigger] fresh@[i]).verified
                    &&& !primed.contains(fresh@[i].id@)
                    &&& strs(self.seen@).contains(fresh@[i].id@)
                },
                forall|x: Seq<char>| #[trigger] strs(self.seen@).contains(x) ==> (primed.contains(x) || ids_of(fresh@).contains(x)),
                forall|x: Seq<char>| #[trigger] primed.contains(x) ==> (seen0.contains(x) || ids_of(held@).contains(x)),
                errors@.len() <= p,
                names_peers(errors@, peers@),
                names == peer_names(peers@),
                covers(strs(mine.0@), held@),
                start == round_start(seen0, held@),
                xs.len() == p,
                round_fold(held@, start, names, xs) == Some(st),
                forall|x: Seq<char>| strs(self.seen@).contains(x) <==> st.seen.contains(x),
                fresh@ == st.fresh,
                rejected == st.rejected,
                pushed == st.pushed,
                error_view(errors@) == st.errors,
            decreases peers.len() - p,
        {
            let peer = peers[p];
            let answer = transport.pull(peer, &mine);
            let ghost pull_view: Result<(Seq<HeldEvent>, Seq<Seq<char>>), Seq<char>> = match &answer {
                Ok(r) => Ok((r.events@, strs(r.coverage.0@))),
                Err(e) => Err(e@),
            };
            let ghost s_before = strs(self.seen@);
            let ghost f_before = fresh@;
            let ghost e_before = errors@;
            let out = self.take_pull_answer(held, &mut fresh, &mut rejected, &mut errors, peer, answer);
            proof {
                match pull_view {
                    Err(_) => {
                        assert forall|i: int| 0 <= i < errors@.len() implies exists|j: int|
                            0 <= j < peers@.len() && (#[trigger] errors@[i]).0@ == (#[trigger] peers@[j])@ by {
                            if i == e_before.len() {
                                assert(errors@[i].0@ == peers@[p as int]@);
                            } else {
                                assert(errors@[i] == e_before[i]);
                                assert(names_peers(e_before, peers@));
                            }
                        }
                    },
                    Ok((evs, cov)) => {
                        let ghost added = fresh@.subrange(f_before.len() as int, fresh@.len() as int);
                        assert(fresh@ =~= f_before + added);
                        assert(added == absorb_spec(s_before, evs).0);
                        lemma_absorb_props(s_before, evs);
                        assert forall|i: int| 0 <= i < fresh@.len() implies {
                            &&& (#[trigger] fresh@[i]).verified
                            &&& !primed.contains(fresh@[i].id@)
                            &&& strs(self.seen@).contains(fresh@[i].id@)
                        } by {
                            if i >= f_before.len() {
                                let q = i - f_before.len();
                                assert(fresh@[i] == added[q]);
                                assert(!s_before.contains(added[q].id@));
                                assert(ids_of(added)[q] == added[q].id@);
                            } else {
                                assert(fresh@[i] == f_before[i]);
                            }
                        }
                        assert forall|x: Seq<char>| #[trigger] strs(self.seen@).contains(x) implies (primed.contains(x)
                            || ids_of(fresh@).contains(x)) by {
                            if ids_of(added).contains(x) {
                                let q = choose|q: int| 0 <= q < ids_of(added).len() && ids_of(added)[q] == x;
                                assert(ids_of(fresh@)[f_before.len() + q] == x);
                            } else {
                                assert(s_before.contains(x));
                                if !primed.contains(x) {
                                    assert(ids_of(f_before).contains(x));
                                    let q = choose|q: int| 0 <= q < ids_of(f_before).len() && ids_of(f_before)[q] == x;
                                    assert(ids_of(fresh@)[q] == x);
                                }
                            }
                        }
                        assert forall|a: int, b: int| 0 <= a < b < fresh@.len() implies (#[trigger] fresh@[a]).id@
                            != (#[trigger] fresh@[b]).id@ by {
                            if a >= f_before.len() {
                                assert(fresh@[a] == added[a - f_before.len()] && fresh@[b] == added[b - f_before.len()]);
                            } else if b >= f_before.len() {
                                assert(fresh@[b] == added[b - f_before.len()]);
                                assert(s_before.contains(f_before[a].id@));
                                assert(!s_before.contains(added[b - f_before.len()].id@));
                            }
                        }
                    },
                }
            }
            let ghost mut push_view: Option<(Seq<HeldEvent>, Result<usize, Seq<char>>)> = None;
            if out.len() > 0 {
                let pr = transport.push(peer, out.as_slice());
                proof {
                    push_view = Some(
                        (
                            out@,
                            match &pr {
                                Ok(n) => Ok(*n),
                                Err(e) => Err(e@),
                            },
                        ),
                    );
                }
                let ghost e_mid = errors@;
                take_push_answer(peer, pr, &mut pushed, &mut errors);
                proof {
                    assert forall|i: int| 0 <= i < errors@.len() implies exists|j: int|
                        0 <= j < peers@.len() && (#[trigger] errors@[i]).0@ == (#[trigger] peers@[j])@ by {
                        if i < e_mid.len() {
                            assert(errors@[i] == e_mid[i]);
                            assert(names_peers(e_mid, peers@));
                        } else {
                            assert(error_view(errors@)[i] == error_view(e_mid).push((peer@, error_view(errors@)[i].1))[i]);
                            assert(errors@[i].0@ == peers@[p as int]@);
                        }
                    }
                }
            }
            proof {
                let x = PeerExchange { have: strs(mine.0@), pull: pull_view, push: push_view };
                assert(covers(strs(mine.0@), held@));
                let nxs = xs.push(x);
                assert(nxs.drop_last() =~= xs);
                assert(names[p as int] == peer@);
                lemma_absorb_same_seen(st.seen, s_before, match pull_view { Ok((evs, _)) => evs, Err(_) => Seq::empty() });
                let nst = exchange(held@, st, peer@, x).unwrap();
                assert(exchange(held@, st, peer@, x) is Some);
                assert(round_fold(held@, start, names, nxs) == Some(nst));
                if let Ok((evs, cov)) = pull_view {
                    let added = absorb_spec(st.seen, evs).0;
                    assert forall|y: Seq<char>| strs(self.seen@).contains(y) <==> nst.seen.contains(y) by {
                        lemma_concat_contains(st.seen, ids_of(added), y);
                    }
                }
                xs = nxs;
                st = nst;
            }
            p = p + 1;
        }
        let ghost unsorted = fresh@;
        let received = sort_by_time(fresh);
        proof {
            assert forall|x: Seq<char>| ids_of(held@).contains(x) implies strs(self.seen@).contains(x) by {
                assert(primed.contains(x));
            }

            assert forall|i: int| 0 <= i < received@.len() implies {
                &&& (#[trigger] received@[i]).verified
                &&& !strs(old(self).seen@).contains(received@[i].id@)
                &&& !ids_of(held@).contains(received@[i].id@)
            } by {
                assert(unsorted.contains(received@[i]));
                let q = choose|q: int| 0 <= q < unsorted.len() && unsorted[q] == received@[i];
                assert(!primed.contains(unsorted[q].id@));
            }
            assert forall|x: Seq<char>| #[trigger] strs(self.seen@).contains(x) implies (strs(old(self).seen@).contains(x)
                || ids_of(held@).contains(x) || ids_of(received@).contains(x)) by {
                if !primed.contains(x) {
                    assert(ids_of(unsorted).contains(x));
                    let q = choose|q: int| 0 <= q < ids_of(unsorted).len() && ids_of(unsorted)[q] == x;
                    assert(unsorted.contains(unsorted[q]));
                    assert(received@.contains(unsorted[q]));
                    let r = choose|r: int| 0 <= r < received@.len() && received@[r] == unsorted[q];
                    assert(ids_of(received@)[r] == x);
                }
            }
            assert forall|i: int| 0 <= i < received@.len() implies strs(self.seen@).contains((#[trigger] received@[i]).id@) by {
                assert(unsorted.contains(received@[i]));
                let q = choose|q: int| 0 <= q < unsorted.len() && unsorted[q] == received@[i];
                assert(strs(self.seen@).contains(unsorted[q].id@));
            }
        }
        let report = LedgerRound { received, rejected, pushed, errors };
        proof {
            assert forall|e: HeldEvent| #[trigger] report.received@.contains(e) <==> st.fresh.contains(e) by {}
            assert forall|x: Seq<char>| #[trigger] strs(self.seen@).contains(x) <==> st.seen.contains(x) by {}
            assert(reports(report, strs(self.seen@), st));
            assert(round_fold(held@, round_start(seen0, held@), peer_names(peers@), xs) matches Some(s2) && reports(
                report,
                strs(self.seen@),
                s2,
            ));
            if peers@.len() == 0 {
                assert(xs.len() == 0);
                assert(st == start);
            }
        }
        report
    }
}

proof fn lemma_lacking_none(s: Seq<HeldEvent>, coverage: Seq<Seq<char>>)
    requires
        forall|i: int| 0 <= i < s.len() ==> coverage.contains((#[trigger] s[i]).id@),
    ensures
        lacking(s, coverage).len() == 0,
    decreases s.len(),
{
    if s.len() > 0 {
        let init = s.drop_last();
        assert forall|i: int| 0 <= i < init.len() implies coverage.contains((#[trigger] init[i]).id@) by {
            assert(init[i] == s[i]);
        }
        lemma_lacking_none(init, coverage);
        assert(s[s.len() - 1] == s.last());
    }
}

/// A pull answer from a replica that already holds `held`: its coverage
/// takes in every held id, and it offers no verified event outside `held`.
pub open spec fn converged_answer(held: Seq<HeldEvent>, x: PeerExchange) -> bool {
    covers(x.have, held) && match x.pull {
        Ok((evs, cov)) => {
            &&& forall|k: int| 0 <= k < evs.len() && (#[trigger] evs[k]).verified ==> ids_of(held).contains(evs[k].id@)
            &&& forall|y: Seq<char>| #[trigger] ids_of(held).contains(y) ==> cov.contains(y)
        },
        Err(_) => false,
    }
}

/// A round between replicas that already hold the same events changes
/// nothing: when every peer answers its pull with its coverage taking in
/// all of `held` and offers no verified event outside `held`, the round
/// merges nothing, pushes nothing and records no error; and it makes no
/// push, so the answers fit exactly when none has a push answer.
pub proof fn law_converged_round_changes_nothing(
    seen: Seq<Seq<char>>,
    held: Seq<HeldEvent>,
    peers: Seq<Seq<char>>,
    xs: Seq<PeerExchange>,
)
    requires
        forall|i: int| 0 <= i < xs.len() ==> converged_answer(held, #[trigger] xs[i]),
    ensures
        round_fold(held, round_start(seen, held), peers, xs) is Some <==> forall|i: int| 0 <= i < xs.len() ==> (
        #[trigger] xs[i]).push is None,
        round_fold(held, round_start(seen, held), peers, xs) matches Some(st) ==> {
            &&& st.seen == round_start(seen, held).seen
            &&& st.fresh.len() == 0
            &&& st.pushed == 0
            &&& st.errors.len() == 0
            &&& st.pushes.len() == 0
        },
    decreases xs.len(),
{
    let start = round_start(seen, held);
    if xs.len() > 0 {
        let init = xs.drop_last();
        assert forall|i: int| 0 <= i < init.len() implies converged_answer(held, #[trigger] init[i]) by {
            assert(init[i] == xs[i]);
        }
        law_converged_round_changes_nothing(seen, held, peers, init);
        let last = xs.last();
        assert(last == xs[xs.len() - 1]);
        assert(converged_answer(held, last));
        if let Some(st) = round_fold(held, start, peers, init) {
            if let Ok((evs, cov)) = last.pull {
                assert forall|k: int| 0 <= k < evs.len() && (#[trigger] evs[k]).verified implies st.seen.contains(
                    evs[k].id@,
                ) by {
                    lemma_concat_contains(seen, ids_of(held), evs[k].id@);
                }
                lemma_nothing_new(st.seen, evs);
                let added = absorb_spec(st.seen, evs).0;
                assert(added.len() == 0);
                assert(ids_of(added) =~= Seq::<Seq<char>>::empty());
                assert(st.seen + ids_of(added) =~= st.seen);
                assert(st.fresh + added =~= st.fresh);
                assert(held + st.fresh =~= held);
                assert forall|i: int| 0 <= i < held.len() implies cov.contains((#[trigger] held[i]).id@) by {
                    assert(ids_of(held)[i] == held[i].id@);
                    assert(ids_of(held).contains(held[i].id@));
                }
                lemma_lacking_none(held, cov);
            }
            assert(round_fold(held, start, peers, xs) is Some <==> last.push is None);
        }
        assert((forall|i: int| 0 <= i < xs.len() ==> (#[trigger] xs[i]).push is None) <==> ((forall|i: int|
            0 <= i < init.len() ==> (#[trigger] init[i]).push is None) && last.push is None)) by {
            if forall|i: int| 0 <= i < init.len() ==> (#[trigger] init[i]).push is None {
                if last.push is None {
                    assert forall|i: int| 0 <= i < xs.len() implies (#[trigger] xs[i]).push is None by {
                        if i < init.len() {
                            assert(init[i] == xs[i]);
                        }
                    }
                }
            } else {
                let j = choose|j: int| 0 <= j < init.len() && !((#[trigger] init[j]).push is None);
                assert(init[j] == xs[j]);
            }
        }
    }
}

} // verus!
