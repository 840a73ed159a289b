//! Client-side mailbox sync: collecting what arrived while the client was
//! offline, and getting out what it signed while offline.
//!
//! The server is a convenience, never a source of truth:
//!
//! - Everything delivered is verified locally; an event that fails, or is
//!   addressed to somebody else, is dropped and counted, never folded in.
//! - The cursor only moves on success: a fetch that fails leaves it where
//!   it was, so the next poll re-asks for the same window.
//! - `since` is inclusive and duplicates are dropped by id, so events
//!   sharing a second with the newest one seen are not lost.

use vstd::prelude::*;

use crate::events::{by_time, copy_event, ids_of, ids_unique, sort_by_time, HeldEvent};
use crate::ledger::{error_view, lemma_concat_contains, names_peers, peer_names, sat_add};
use crate::text::{contains_str, insert_sorted, sorted_unique, str_eq, string_from_str, strs};

verus! {

/// What a server said about an event this client tried to publish.
#[derive(Debug, Clone, Copy, PartialEq, Eq, Structural)]
pub enum PublishOutcome {
    /// Newly held for the recipient.
    Accepted,
    /// The server already had it: a retry after an answer never seen.
    AlreadyHeld,
    /// The recipient's mailbox is full: the event stays queued and another
    /// server may take it.
    MailboxFull,
}

/// The I/O half, supplied by whatever is running: HTTP in an app, a fake
/// in tests.
pub trait MailboxTransport {
    /// Events addressed to `pubkey` held by the server at `base_url` since
    /// `since` (inclusive), oldest first. A failure is reported as text.
    fn fetch(&mut self, base_url: &str, pubkey: &str, since: Option<u64>) -> Result<Vec<HeldEvent>, String>;

    /// Hand one signed event to a server.
    fn publish(&mut self, base_url: &str, event: &HeldEvent) -> Result<PublishOutcome, String>;
}

/// What a poll collected.
#[derive(Debug)]
pub struct PollReport {
    /// New, verified events addressed to this client, oldest first.
    pub delivered: Vec<HeldEvent>,
    /// Events a server returned that failed verification or were addressed
    /// elsewhere.
    pub rejected: usize,
    /// Per-server failures, `(base_url, message)`.
    pub errors: Vec<(String, String)>,
}

/// What a flush sent.
#[derive(Debug)]
pub struct FlushReport {
    pub published: usize,
    pub still_queued: usize,
    pub errors: Vec<(String, String)>,
}

/// The newest time taken from each server, by server.
pub open spec fn cursor_lookup(cs: Seq<(String, u64)>, url: Seq<char>) -> Option<u64>
    decreases cs.len(),
{
    if cs.len() == 0 {
        None
    } else if cs.last().0@ == url {
        Some(cs.last().1)
    } else {
        cursor_lookup(cs.drop_last(), url)
    }
}

/// `e` is one this client may believe: it verified, and it is addressed to
/// `me`.
pub open spec fn acceptable(e: HeldEvent, me: Seq<char>) -> bool {
    e.verified && (e.recipient matches Some(p) && p@ == me)
}

/// What taking in one server's batch does: the acceptable events whose ids
/// are neither in `seen` nor earlier in the batch, in order; how many were
/// not acceptable; and the new cursor, the newest acceptable time or the
/// old cursor, whichever is later.
pub open spec fn batch_spec(me: Seq<char>, seen: Seq<Seq<char>>, since: u64, batch: Seq<HeldEvent>) -> (Seq<HeldEvent>, nat, u64)
    decreases batch.len(),
{
    if batch.len() == 0 {
        (Seq::empty(), 0, since)
    } else {
        let (fresh, bad, newest) = batch_spec(me, seen, since, batch.drop_last());
        let e = batch.last();
        if !acceptable(e, me) {
            (fresh, bad + 1, newest)
        } else {
            let n = if e.created_at > newest { e.created_at } else { newest };
            if seen.contains(e.id@) || ids_of(fresh).contains(e.id@) {
                (fresh, bad, n)
            } else {
                (fresh.push(e), bad, n)
            }
        }
    }
}

/// How many of `servers` are `url`.
pub open spec fn occurrences(servers: Seq<&str>, url: Seq<char>) -> nat
    decreases servers.len(),
{
    if servers.len() == 0 {
        0
    } else {
        occurrences(servers.drop_last(), url) + if servers.last()@ == url {
            1nat
        } else {
            0nat
        }
    }
}

proof fn lemma_two_occurrences(servers: Seq<&str>, a: int, b: int)
    requires
        0 <= a < b < servers.len(),
        servers[a]@ == servers[b]@,
    ensures
        occurrences(servers, servers[a]@) >= 2,
    decreases servers.len(),
{
    let u = servers[a]@;
    if b < servers.len() - 1 {
        lemma_two_occurrences(servers.drop_last(), a, b);
        assert(servers.drop_last()[a] == servers[a]);
    } else {
        lemma_one_occurrence(servers.drop_last(), a, u);
    }
}

proof fn lemma_one_occurrence(servers: Seq<&str>, a: int, u: Seq<char>)
    requires
        0 <= a < servers.len(),
        servers[a]@ == u,
    ensures
        occurrences(servers, u) >= 1,
    decreases servers.len(),
{
    if a < servers.len() - 1 {
        lemma_one_occurrence(servers.drop_last(), a, u);
        assert(servers.drop_last()[a] == servers[a]);
    }
}

/// A server's answer to a publish, with a failure as text.
pub type PublishAnswer = Result<PublishOutcome, Seq<char>>;

/// The server took the event, or already held it: it leaves the queue.
pub open spec fn taken(a: PublishAnswer) -> bool {
    a matches Ok(o) && (o == PublishOutcome::Accepted || o == PublishOutcome::AlreadyHeld)
}

/// The answers one queued event got, servers tried in order: each server
/// at most once, trying stops right after the first server that took it,
/// and if none did every server was tried.
pub open spec fn tries_fit(servers: Seq<Seq<char>>, t: Seq<PublishAnswer>) -> bool {
    &&& t.len() <= servers.len()
    &&& forall|i: int| 0 <= i < t.len() - 1 ==> !taken(#[trigger] t[i])
    &&& (t.len() == servers.len() || (t.len() > 0 && taken(t.last())))
}

/// Some server took the event.
pub open spec fn handed_over(t: Seq<PublishAnswer>) -> bool {
    t.len() > 0 && taken(t.last())
}

/// The failures among one event's answers, each with the server that gave
/// it, in order; a full mailbox is no failure.
pub open spec fn try_errors(servers: Seq<Seq<char>>, t: Seq<PublishAnswer>) -> Seq<(Seq<char>, Seq<char>)>
    decreases t.len(),
{
    if t.len() == 0 {
        Seq::empty()
    } else {
        let prev = try_errors(servers, t.drop_last());
        match t.last() {
            Err(e) => prev.push((servers[t.len() - 1], e)),
            Ok(_) => prev,
        }
    }
}

/// A flush of queue `q`, the i-th event getting the answers `ts[i]`: what
/// stays queued (the events no server took, in order), how many were
/// handed over, and the failures, event by event.
pub open spec fn flush_fold(servers: Seq<Seq<char>>, q: Seq<HeldEvent>, ts: Seq<Seq<PublishAnswer>>) -> (
    Seq<HeldEvent>,
    nat,
    Seq<(Seq<char>, Seq<char>)>,
)
    decreases q.len(),
{
    if q.len() == 0 || ts.len() == 0 {
        (Seq::empty(), 0, Seq::empty())
    } else {
        let (stay, n, errs) = flush_fold(servers, q.drop_last(), ts.drop_last());
        let t = ts.last();
        let errs2 = errs + try_errors(servers, t);
        if handed_over(t) {
            (stay, n + 1, errs2)
        } else {
            (stay.push(q.last()), n, errs2)
        }
    }
}

/// Some answers of the servers, fitting the order they are tried in, make
/// `stays`, `published` and `errors` the flush of `q`.
pub open spec fn flush_outcome(
    servers: Seq<Seq<char>>,
    q: Seq<HeldEvent>,
    stays: Seq<HeldEvent>,
    published: nat,
    errors: Seq<(Seq<char>, Seq<char>)>,
) -> bool {
    exists|ts: Seq<Seq<PublishAnswer>>|
        ts.len() == q.len() && (forall|i: int| 0 <= i < ts.len() ==> tries_fit(servers, #[trigger] ts[i]))
            && #[trigger] flush_fold(servers, q, ts) == (stays, published, errors)
}

/// Take one server's answer to a publish: `true` when the server took the
/// event or already held it (it leaves the queue; no further server is
/// tried); a full mailbox is `false` with nothing recorded; a failure is
/// `false` and recorded against the server.
pub fn take_publish_answer(url: &str, answer: Result<PublishOutcome, String>, errors: &mut Vec<(String, String)>) -> (r: bool)
    ensures
        r == taken(
            match answer {
                Ok(o) => Ok(o),
                Err(e) => Err(e@),
            },
        ),
        match answer {
            Err(e) => error_view(final(errors)@) == error_view(old(errors)@).push((url@, e@))
                && final(errors)@.drop_last() == old(errors)@,
            Ok(_) => final(errors)@ == old(errors)@,
        },
{
    match answer {
        Ok(PublishOutcome::Accepted) => true,
        Ok(PublishOutcome::AlreadyHeld) => true,
        Ok(PublishOutcome::MailboxFull) => false,
        Err(e) => {
            let ghost before = errors@;
            errors.push((string_from_str(url), e));
            assert(error_view(errors@) =~= error_view(before).push((url@, errors@.last().1@)));
            assert(errors@.drop_last() =~= before);
            false
        },
    }
}

/// A server's answer to a fetch: its batch, or a failure as text.
pub type FetchAnswer = Result<Seq<HeldEvent>, Seq<char>>;

/// One server's part in a poll: the `since` it was asked from, and its
/// answer.
pub struct FetchExchange {
    pub since: Option<u64>,
    pub answer: FetchAnswer,
}

/// Where a poll stands: the ids delivered so far (before and now), the
/// cursor held for each server, what was delivered this poll (in merge
/// order), the rejected count and the errors.
pub struct PollState {
    pub seen: Seq<Seq<char>>,
    pub cursors: spec_fn(Seq<char>) -> Option<u64>,
    pub delivered: Seq<HeldEvent>,
    pub rejected: nat,
    pub errors: Seq<(Seq<char>, Seq<char>)>,
}

/// One server's turn in a poll for `me`: a failure is recorded and its
/// cursor stays; a batch is taken in against the server's cursor as it
/// stood (zero when none), delivering what [`batch_spec`] says, adding its
/// rejections (held at `usize::MAX`) and moving the cursor to the newest
/// acceptable time.
pub open spec fn fetch_step(me: Seq<char>, st: PollState, url: Seq<char>, x: FetchExchange) -> PollState {
    match x.answer {
        Err(e) => PollState { errors: st.errors.push((url, e)), ..st },
        Ok(batch) => {
            let since = match (st.cursors)(url) {
                Some(c) => c,
                None => 0,
            };
            let (fresh, bad, newest) = batch_spec(me, st.seen, since, batch);
            PollState {
                seen: st.seen + ids_of(fresh),
                cursors: |u: Seq<char>| if u == url { Some(newest) } else { (st.cursors)(u) },
                delivered: st.delivered + fresh,
                rejected: sat_add(st.rejected, bad),
                errors: st.errors,
            }
        },
    }
}

/// A poll over `servers` in order, the i-th answering `xs[i]`.
pub open spec fn poll_fold(me: Seq<char>, st: PollState, servers: Seq<Seq<char>>, xs: Seq<FetchExchange>) -> PollState
    decreases xs.len(),
{
    if xs.len() == 0 {
        st
    } else {
        fetch_step(me, poll_fold(me, st, servers, xs.drop_last()), servers[xs.len() - 1], xs.last())
    }
}

/// Each server was asked from its cursor as it stood when its turn came
/// (inclusive; `None` when it had none).
pub open spec fn asked_as_stood(me: Seq<char>, st: PollState, servers: Seq<Seq<char>>, xs: Seq<FetchExchange>) -> bool
    decreases xs.len(),
{
    if xs.len() == 0 {
        true
    } else {
        asked_as_stood(me, st, servers, xs.drop_last()) && xs.last().since == (poll_fold(
            me,
            st,
            servers,
            xs.drop_last(),
        ).cursors)(servers[xs.len() - 1])
    }
}

proof fn lemma_batch_same_seen(me: Seq<char>, s1: Seq<Seq<char>>, s2: Seq<Seq<char>>, since: u64, batch: Seq<HeldEvent>)
    requires
        forall|x: Seq<char>| s1.contains(x) <==> s2.contains(x),
    ensures
        batch_spec(me, s1, since, batch) == batch_spec(me, s2, since, batch),
    decreases batch.len(),
{
    if batch.len() > 0 {
        lemma_batch_same_seen(me, s1, s2, since, batch.drop_last());
        assert(s1.contains(batch.last().id@) <==> s2.contains(batch.last().id@));
    }
}

/// Offer one event to the servers in order until one takes it: the
/// answers it got fit that order, and their failures are recorded.
fn publish_one<T: MailboxTransport>(
    transport: &mut T,
    servers: &[&str],
    event: &HeldEvent,
    errors: &mut Vec<(String, String)>,
) -> (r: (bool, Ghost<Seq<PublishAnswer>>))
    requires
        names_peers(old(errors)@, servers@),
    ensures
        names_peers(final(errors)@, servers@),
        tries_fit(peer_names(servers@), r.1@),
        r.0 == handed_over(r.1@),
        error_view(final(errors)@) == error_view(old(errors)@) + try_errors(peer_names(servers@), r.1@),
{
    let ghost names = peer_names(servers@);
    let mut delivered = false;
    let mut s: usize = 0;
    let ghost mut t: Seq<PublishAnswer> = Seq::empty();
    let ghost e_start = error_view(errors@);
    assert(e_start + try_errors(names, t) =~= e_start);
    while s < servers.len() && !delivered
        invariant
            s <= servers@.len(),
            names_peers(errors@, servers@),
            names == peer_names(servers@),
            t.len() == s,
            forall|i: int| 0 <= i < t.len() - 1 ==> !taken(#[trigger] t[i]),
            delivered <==> (t.len() > 0 && taken(t.last())),
            error_view(errors@) == e_start + try_errors(names, t),
        decreases servers.len() - s,
    {
        let ans = transport.publish(servers[s], event);
        let ghost a: PublishAnswer = match &ans {
            Ok(o) => Ok(*o),
            Err(e) => Err(e@),
        };
        let ghost eb = errors@;
        delivered = take_publish_answer(servers[s], ans, errors);
        proof {
            let nt = t.push(a);
            assert(nt.drop_last() =~= t);
            assert(nt.last() == a);
            assert(names[s as int] == servers@[s as int]@);
            if let Err(e) = a {
                assert(error_view(errors@).len() == eb.len() + 1);
                assert(error_view(errors@)[errors@.len() - 1] == (servers@[s as int]@, e));
                assert(errors@[errors@.len() - 1].0@ == servers@[s as int]@);
                assert forall|i: int| 0 <= i < errors@.len() implies exists|j: int|
                    0 <= j < servers@.len() && (#[trigger] errors@[i]).0@ == (#[trigger] servers@[j])@ by {
                    if i == eb.len() {
                        assert(errors@[i].0@ == servers@[s as int]@);
                    } else {
                        assert(errors@[i] == eb[i]);
                        assert(names_peers(eb, servers@));
                    }
                }
                assert(error_view(errors@) =~= e_start + try_errors(names, nt));
            } else {
                assert(error_view(errors@) =~= e_start + try_errors(names, nt));
            }
            assert forall|i: int| 0 <= i < nt.len() - 1 implies !taken(#[trigger] nt[i]) by {
                assert(nt[i] == t[i]);
                if i == t.len() - 1 {
                    assert(t[i] == t.last());
                }
            }
            t = nt;
        }
        s = s + 1;
    }
    (delivered, Ghost(t))
}

/// Client-side mailbox state: this client's key, a cursor per server, the
/// ids already delivered, and the outbox.
pub struct MailboxSync {
    self_pubkey: String,
    cursors: Vec<(String, u64)>,
    seen: Vec<String>,
    outbox: Vec<HeldEvent>,
}

impl MailboxSync {
    /// This client's key.
    pub closed spec fn me(&self) -> Seq<char> {
        self.self_pubkey@
    }

    /// The cursor held for a server, if any.
    pub closed spec fn cursor_of(&self, url: Seq<char>) -> Option<u64> {
        cursor_lookup(self.cursors@, url)
    }

    /// The ids already delivered.
    pub closed spec fn seen_ids(&self) -> Seq<Seq<char>> {
        strs(self.seen@)
    }

    /// The events waiting to go out, in queue order.
    pub closed spec fn queued(&self) -> Seq<HeldEvent> {
        self.outbox@
    }

    /// The internal bookkeeping is consistent.
    pub closed spec fn wf(&self) -> bool {
        sorted_unique(strs(self.seen@)) && ids_unique(self.outbox@)
    }

    /// A fresh client state for `self_pubkey`: no cursors, nothing
    /// delivered, nothing queued.
    pub fn new(self_pubkey: &str) -> (r: Self)
        ensures
            r.wf(),
            r.me() == self_pubkey@,
            forall|u: Seq<char>| r.cursor_of(u) is None,
            r.seen_ids().len() == 0,
            r.queued().len() == 0,
    {
        MailboxSync {
            self_pubkey: string_from_str(self_pubkey),
            cursors: Vec::new(),
            seen: Vec::new(),
            outbox: Vec::new(),
        }
    }

    /// Restore a persisted cursor, so a cold start does not re-download
    /// what the mailbox still holds.
    pub fn restore_cursor(&mut self, base_url: &str, created_at: u64)
        ensures
            final(self).wf() == old(self).wf(),
            final(self).me() == old(self).me(),
            final(self).seen_ids() == old(self).seen_ids(),
            final(self).queued() == old(self).queued(),
            final(self).cursor_of(base_url@) == Some(created_at),
            forall|u: Seq<char>| u != base_url@ ==> final(self).cursor_of(u) == old(self).cursor_of(u),
    {
        self.cursors.push((string_from_str(base_url), created_at));
        proof {
            assert(self.cursors@.drop_last() == old(self).cursors@);
        }
    }

    /// The cursor held for a server, if any.
    pub fn cursor(&self, base_url: &str) -> (r: Option<u64>)
        ensures
            r == self.cursor_of(base_url@),
    {
        let mut i: usize = self.cursors.len();
        assert(self.cursors@.take(i as int) =~= self.cursors@);
        while i > 0
            invariant
                i <= self.cursors@.len(),
                cursor_lookup(self.cursors@, base_url@) == cursor_lookup(self.cursors@.take(i as int), base_url@),
            decreases i,
        {
            proof {
                assert(self.cursors@.take(i as int).drop_last() =~= self.cursors@.take(i - 1));
                assert(self.cursors@.take(i as int).last() == self.cursors@[i - 1]);
            }
            if str_eq(self.cursors[i - 1].0.as_str(), base_url) {
                return Some(self.cursors[i - 1].1);
            }
            i = i - 1;
        }
        None
    }

    /// Queue a signed event for delivery; one already queued is not queued
    /// twice.
    pub fn queue(&mut self, event: HeldEvent)
        requires
            old(self).wf(),
        ensures
            final(self).wf(),
            final(self).me() == old(self).me(),
            final(self).seen_ids() == old(self).seen_ids(),
            forall|u: Seq<char>| final(self).cursor_of(u) == old(self).cursor_of(u),
            ids_of(old(self).queued()).contains(event.id@) ==> final(self).queued() == old(self).queued(),
            !ids_of(old(self).queued()).contains(event.id@) ==> final(self).queued() == old(self).queued().push(event),
    {
        let mut i: usize = 0;
        while i < self.outbox.len()
            invariant
                i <= self.outbox@.len(),
                self.wf(),
                *self == *old(self),
                forall|j: int| 0 <= j < i ==> (#[trigger] self.outbox@[j]).id@ != event.id@,
            decreases self.outbox.len() - i,
        {
            if str_eq(self.outbox[i].id.as_str(), event.id.as_str()) {
                assert(ids_of(self.outbox@)[i as int] == event.id@);
                return;
            }
            i = i + 1;
        }
        let ghost before = self.outbox@;
        proof {
            if ids_of(before).contains(event.id@) {
                let k = choose|k: int| 0 <= k < ids_of(before).len() && ids_of(before)[k] == event.id@;
                assert(before[k].id@ == event.id@);
            }
        }
        self.outbox.push(event);
        proof {
            assert forall|a: int, b: int| 0 <= a < b < self.outbox@.len() implies (#[trigger] self.outbox@[a]).id@
                != (#[trigger] self.outbox@[b]).id@ by {
                if b == self.outbox@.len() - 1 {
                    assert(self.outbox@[a] == before[a]);
                }
            }
        }
    }

    /// The events waiting to go out.
    pub fn pending(&self) -> (r: &[HeldEvent])
        ensures
            r@ == self.queued(),
    {
        self.outbox.as_slice()
    }

    /// Take in one server's batch: the acceptable events not delivered
    /// before are appended to `delivered` and marked seen, and the server's
    /// cursor becomes the newest acceptable time seen (or stays). Returns
    /// how many events were not acceptable.
    pub fn absorb_batch(&mut self, base_url: &str, batch: Vec<HeldEvent>, delivered: &mut Vec<HeldEvent>) -> (rejected: usize)
        requires
            old(self).wf(),
        ensures
            final(self).wf(),
            final(self).me() == old(self).me(),
            final(self).queued() == old(self).queued(),
            ({
                let since = match old(self).cursor_of(base_url@) {
                    Some(c) => c,
                    None => 0,
                };
                let (fresh, bad, newest) = batch_spec(old(self).me(), old(self).seen_ids(), since, batch@);
                &&& final(delivered)@ == old(delivered)@ + fresh
                &&& rejected == bad
                &&& final(self).cursor_of(base_url@) == Some(newest)
                &&& forall|x: Seq<char>| #[trigger] final(self).seen_ids().contains(x) <==> (old(self).seen_ids().contains(x)
                    || ids_of(fresh).contains(x))
            }),
            forall|u: Seq<char>| u != base_url@ ==> final(self).cursor_of(u) == old(self).cursor_of(u),
    {
        let since = match self.cursor(base_url) {
            Some(c) => c,
            None => 0,
        };
        let ghost me = self.me();
        let ghost s0 = strs(self.seen@);
        let ghost d0 = delivered@;
        let mut newest: u64 = since;
        let mut rejected: usize = 0;
        let mut i: usize = 0;
        while i < batch.len()
            invariant
                i <= batch@.len(),
                me == self.self_pubkey@,
                self.outbox@ == old(self).outbox@,
                self.cursors@ == old(self).cursors@,
                self.self_pubkey == old(self).self_pubkey,
                sorted_unique(strs(self.seen@)),
                ids_unique(self.outbox@),
                delivered@ == d0 + batch_spec(me, s0, since, batch@.take(i as int)).0,
                rejected == batch_spec(me, s0, since, batch@.take(i as int)).1,
                newest == batch_spec(me, s0, since, batch@.take(i as int)).2,
                rejected <= i,
                forall|x: Seq<char>| #[trigger] strs(self.seen@).contains(x) <==> (s0.contains(x) || ids_of(
                    batch_spec(me, s0, since, batch@.take(i as int)).0,
                ).contains(x)),
            decreases batch.len() - i,
        {
            proof {
                assert(batch@.take(i + 1).drop_last() =~= batch@.take(i as int));
                assert(batch@.take(i + 1).last() == batch@[i as int]);
            }
            let e = &batch[i];
            let ghost fr = batch_spec(me, s0, since, batch@.take(i as int)).0;
            let ghost nf = batch_spec(me, s0, since, batch@.take(i + 1)).0;
            let ghost sv = strs(self.seen@);
            assert(forall|x: Seq<char>| #[trigger] sv.contains(x) <==> (s0.contains(x) || ids_of(fr).contains(x)));
            let ok = e.verified && match &e.recipient {
                Some(p) => str_eq(p.as_str(), self.self_pubkey.as_str()),
                None => false,
            };
            if !ok {
                rejected = rejected + 1;
            } else {
                if e.created_at > newest {
                    newest = e.created_at;
                }
                let already = contains_str(&self.seen, e.id.as_str());
                if !already {
                    insert_sorted(&mut self.seen, e.id.clone());
                    delivered.push(copy_event(e));
                }
            }
            proof {
                if !ok {
                    assert(nf == fr);
                    assert(strs(self.seen@) == sv);
                } else if !sv.contains(e.id@) {
                    assert(!s0.contains(e.id@) && !ids_of(fr).contains(e.id@));
                    assert(nf == fr.push(*e));
                    assert(ids_of(nf) =~= ids_of(fr).push(e.id@));
                    assert forall|x: Seq<char>| #[trigger] strs(self.seen@).contains(x) <==> (s0.contains(x) || ids_of(nf).contains(x)) by {
                        assert(sv.contains(x) <==> (s0.contains(x) || ids_of(fr).contains(x)));
                        if ids_of(nf).contains(x) && x != e.id@ {
                            let k = choose|k: int| 0 <= k < ids_of(nf).len() && ids_of(nf)[k] == x;
                            assert(ids_of(fr)[k] == x);
                        }
                        if ids_of(fr).contains(x) {
                            let k = choose|k: int| 0 <= k < ids_of(fr).len() && ids_of(fr)[k] == x;
                            assert(ids_of(nf)[k] == x);
                        }
                        if x == e.id@ {
                            assert(ids_of(nf)[fr.len() as int] == x);
                        }
                    }
                    assert(delivered@ =~= d0 + nf);
                } else {
                    assert(s0.contains(e.id@) || ids_of(fr).contains(e.id@));
                    assert(nf == fr);
                    assert(strs(self.seen@) == sv);
                }
            }
            i = i + 1;
        }
        assert(batch@.take(batch@.len() as int) =~= batch@);
        let ghost fin = batch_spec(me, s0, since, batch@).0;
        assert forall|x: Seq<char>| #[trigger] strs(self.seen@).contains(x) <==> (s0.contains(x) || ids_of(fin).contains(x)) by {
            assert(strs(self.seen@).contains(x) <==> (s0.contains(x) || ids_of(
                batch_spec(me, s0, since, batch@.take(batch@.len() as int)).0,
            ).contains(x)));
        }
        let ghost before_cursors = self.cursors@;
        self.cursors.push((string_from_str(base_url), newest));
        proof {
            assert(self.cursors@.drop_last() == before_cursors);
        }
        rejected
    }

    /// Where a poll starts from this state: what was delivered before, the
    /// cursors held, nothing delivered or rejected yet.
    pub open spec fn poll_start(&self) -> PollState {
        PollState {
            seen: self.seen_ids(),
            cursors: |u: Seq<char>| self.cursor_of(u),
            delivered: Seq::empty(),
            rejected: 0,
            errors: Seq::empty(),
        }
    }

    /// `report`, with this state after it, is exactly where the poll left
    /// off in `st`; the delivered events are the merged ones, each once, in
    /// some order.
    pub open spec fn polls(&self, report: PollReport, st: PollState) -> bool {
        &&& report.delivered@.len() == st.delivered.len()
        &&& forall|e: HeldEvent| #[trigger] report.delivered@.contains(e) <==> st.delivered.contains(e)
        &&& report.rejected == st.rejected
        &&& error_view(report.errors@) == st.errors
        &&& forall|u: Seq<char>| #[trigger] self.cursor_of(u) == (st.cursors)(u)
        &&& forall|x: Seq<char>| #[trigger] self.seen_ids().contains(x) <==> st.seen.contains(x)
    }

    /// Some answers of the servers, one per server, each server asked from
    /// its cursor as it stood, make `report` and this state the fold of
    /// [`fetch_step`] over them from `before`.
    pub open spec fn poll_outcome(&self, before: MailboxSync, servers: Seq<Seq<char>>, report: PollReport) -> bool {
        exists|xs: Seq<FetchExchange>|
            xs.len() == servers.len() && asked_as_stood(before.me(), before.poll_start(), servers, xs)
                && #[trigger] self.polls(report, poll_fold(before.me(), before.poll_start(), servers, xs))
    }

    /// Take one server's answer to a fetch. A failure is recorded against
    /// the server and nothing else changes, its cursor included. A batch is
    /// taken in as [`MailboxSync::absorb_batch`] does, its rejections added
    /// to `rejected` (held at `usize::MAX`).
    pub fn take_fetch_answer(
        &mut self,
        url: &str,
        answer: Result<Vec<HeldEvent>, String>,
        delivered: &mut Vec<HeldEvent>,
        rejected: &mut usize,
        errors: &mut Vec<(String, String)>,
    )
        requires
            old(self).wf(),
        ensures
            final(self).wf(),
            final(self).me() == old(self).me(),
            final(self).queued() == old(self).queued(),
            forall|u: Seq<char>| u != url@ ==> final(self).cursor_of(u) == old(self).cursor_of(u),
            match answer {
                Err(e) => {
                    &&& final(self).seen_ids() == old(self).seen_ids()
                    &&& final(self).cursor_of(url@) == old(self).cursor_of(url@)
                    &&& final(delivered)@ == old(delivered)@
                    &&& *final(rejected) == *old(rejected)
                    &&& error_view(final(errors)@) == error_view(old(errors)@).push((url@, e@))
                    &&& final(errors)@.drop_last() == old(errors)@
                    &&& final(errors)@.len() == old(errors)@.len() + 1
                    &&& final(errors)@.last().0@ == url@
                },
                Ok(batch) => {
                    let since = match old(self).cursor_of(url@) {
                        Some(c) => c,
                        None => 0,
                    };
                    let (fresh, bad, newest) = batch_spec(old(self).me(), old(self).seen_ids(), since, batch@);
                    &&& final(delivered)@ == old(delivered)@ + fresh
                    &&& *final(rejected) == sat_add(*old(rejected) as nat, bad)
                    &&& final(self).cursor_of(url@) == Some(newest)
                    &&& forall|x: Seq<char>| #[trigger] final(self).seen_ids().contains(x) <==> (
                    old(self).seen_ids().contains(x) || ids_of(fresh).contains(x))
                    &&& final(errors)@ == old(errors)@
                },
            },
    {
        match answer {
            Err(e) => {
                let ghost before = errors@;
                errors.push((string_from_str(url), e));
                assert(error_view(errors@) =~= error_view(before).push((url@, errors@.last().1@)));
                assert(errors@.drop_last() =~= before);
            },
            Ok(batch) => {
                let bad = self.absorb_batch(url, batch, delivered);
                *rejected = rejected.saturating_add(bad);
            },
        }
    }

    /// Collect new mail from every server, in order. Whatever the servers
    /// answer: everything delivered verified, is addressed to this client,
    /// is delivered once and was not delivered before, comes oldest first,
    /// and is now marked seen; no cursor moves backwards, and a server not
    /// polled keeps its cursor; each error names one of the servers, at
    /// most one per server; every server is accounted for, either holding a
    /// cursor afterwards (its fetch was taken in) or named by an error, and a
    /// failing server listed once keeps the cursor it had. Exactly: for some
    /// answers of the servers, one per server in order, the report, the
    /// cursors and the ids now delivered are the fold of [`fetch_step`]
    /// over them, each batch read against its server's cursor as it stood
    /// ([`MailboxSync::take_fetch_answer`]). With no servers nothing
    /// changes.
    #[verifier::spinoff_prover]
    #[verifier::rlimit(80)]
    pub fn poll<T: MailboxTransport>(&mut self, transport: &mut T, servers: &[&str]) -> (report: PollReport)
        requires
            old(self).wf(),
        ensures
            final(self).wf(),
            final(self).me() == old(self).me(),
            final(self).queued() == old(self).queued(),
            ids_unique(report.delivered@),
            by_time(report.delivered@),
            forall|i: int| 0 <= i < report.delivered@.len() ==> {
                &&& acceptable(#[trigger] report.delivered@[i], old(self).me())
                &&& !old(self).seen_ids().contains(report.delivered@[i].id@)
                &&& final(self).seen_ids().contains(report.delivered@[i].id@)
            },
            forall|x: Seq<char>| old(self).seen_ids().contains(x) ==> final(self).seen_ids().contains(x),
            forall|x: Seq<char>| #[trigger] final(self).seen_ids().contains(x) ==> (old(self).seen_ids().contains(x)
                || ids_of(report.delivered@).contains(x)),
            forall|u: Seq<char>| old(self).cursor_of(u) is Some ==> (final(self).cursor_of(u) is Some && old(self).cursor_of(u)->Some_0 <= final(self).cursor_of(u)->Some_0),
            forall|u: Seq<char>| (forall|j: int| 0 <= j < servers@.len() ==> (#[trigger] servers@[j])@ != u) ==> final(self).cursor_of(u) == old(self).cursor_of(u),
            report.errors@.len() <= servers@.len(),
            names_peers(report.errors@, servers@),
            forall|i: int|
                0 <= i < report.errors@.len() && occurrences(servers@, (#[trigger] report.errors@[i]).0@) == 1
                    ==> final(self).cursor_of(report.errors@[i].0@) == old(self).cursor_of(report.errors@[i].0@),
            forall|j: int|
                0 <= j < servers@.len() ==> final(self).cursor_of((#[trigger] servers@[j])@) is Some || exists|i: int|
                    0 <= i < report.errors@.len() && (#[trigger] report.errors@[i]).0@ == servers@[j]@,
            final(self).poll_outcome(*old(self), peer_names(servers@), report),
            servers@.len() == 0 ==> report.delivered@.len() == 0 && report.rejected == 0 && report.errors@.len() == 0
                && (forall|x: Seq<char>| #[trigger] final(self).seen_ids().contains(x) <==> old(self).seen_ids().contains(x))
                && forall|u: Seq<char>| #[trigger] final(self).cursor_of(u) == old(self).cursor_of(u),
    {
        let ghost seen0 = self.seen_ids();
        let mut delivered: Vec<HeldEvent> = Vec::new();
        let mut rejected: usize = 0;
        let mut errors: Vec<(String, String)> = Vec::new();
        let ghost me0 = self.me();
        let ghost names = peer_names(servers@);
        let ghost start = self.poll_start();
        let ghost mut xs: Seq<FetchExchange> = Seq::empty();
        let ghost mut st: PollState = start;
        assert(error_view(errors@) =~= Seq::<(Seq<char>, Seq<char>)>::empty());
        let mut k: usize = 0;
        while k < servers.len()
            invariant
                k <= servers@.len(),
                self.wf(),
                self.me() == old(self).me(),
                self.queued() == old(self).queued(),
                ids_unique(delivered@),
                forall|i: int| 0 <= i < delivered@.len() ==> {
                    &&& acceptable(#[trigger] delivered@[i], old(self).me())
                    &&& !seen0.contains(delivered@[i].id@)
                    &&& self.seen_ids().contains(delivered@[i].id@)
                },
                seen0 == old(self).seen_ids(),
                forall|x: Seq<char>| #[trigger] seen0.contains(x) ==> self.seen_ids().contains(x),
                forall|x: Seq<char>| #[trigger] self.seen_ids().contains(x) ==> (seen0.contains(x) || ids_of(delivered@).contains(x)),
                forall|u: Seq<char>| old(self).cursor_of(u) is Some ==> (self.cursor_of(u) is Some && old(self).cursor_of(u)->Some_0 <= self.cursor_of(u)->Some_0),
                forall|u: Seq<char>| (forall|j: int| 0 <= j < k ==> (#[trigger] servers@[j])@ != u) ==> self.cursor_of(u) == old(self).cursor_of(u),
                errors@.len() <= k,
                names_peers(errors@, servers@),
                forall|i: int| 0 <= i < errors@.len() ==> exists|j: int| 0 <= j < k && (#[trigger] errors@[i]).0@ == (#[trigger] servers@[j])@,
                forall|i: int|
                    0 <= i < errors@.len() && occurrences(servers@, (#[trigger] errors@[i]).0@) == 1
                        ==> self.cursor_of(errors@[i].0@) == old(self).cursor_of(errors@[i].0@),
                forall|j: int|
                    0 <= j < k ==> self.cursor_of((#[trigger] servers@[j])@) is Some || exists|i: int|
                        0 <= i < errors@.len() && (#[trigger] errors@[i]).0@ == servers@[j]@,
                me0 == old(self).me(),
                names == peer_names(servers@),
                start == old(self).poll_start(),
                xs.len() == k,
                st == poll_fold(me0, start, names, xs),
                asked_as_stood(me0, start, names, xs),
                forall|x: Seq<char>| self.seen_ids().contains(x) <==> st.seen.contains(x),
                forall|u: Seq<char>| self.cursor_of(u) == (st.cursors)(u),
                delivered@ == st.delivered,
                rejected == st.rejected,
                error_view(errors@) == st.errors,
            decreases servers.len() - k,
        {
            let url = servers[k];
            let since = self.cursor(url);
            let answer = transport.fetch(url, self.self_pubkey.as_str(), since);
            let ghost av: FetchAnswer = match &answer {
                Ok(bt) => Ok(bt@),
                Err(e) => Err(e@),
            };
            let ghost pre = *self;
            let ghost d_before = delivered@;
            let ghost before = errors@;
            self.take_fetch_answer(url, answer, &mut delivered, &mut rejected, &mut errors);
            proof {
                match av {
                    Err(_) => {
                        assert forall|i: int| 0 <= i < errors@.len() implies exists|j: int|
                            0 <= j < servers@.len() && (#[trigger] errors@[i]).0@ == (#[trigger] servers@[j])@ by {
                            if i == before.len() {
                                assert(errors@[i].0@ == servers@[k as int]@);
                            } else {
                                assert(errors@[i] == before[i]);
                                assert(names_peers(before, servers@));
                            }
                        }
                        assert forall|i: int| 0 <= i < errors@.len() implies exists|j: int| 0 <= j < k + 1 && (#[trigger] errors@[i]).0@
                            == (#[trigger] servers@[j])@ by {
                            if i == before.len() {
                                assert(errors@[i].0@ == servers@[k as int]@);
                            } else {
                                assert(errors@[i] == before[i]);
                            }
                        }
                        assert forall|j: int|
                            0 <= j < k + 1 implies self.cursor_of((#[trigger] servers@[j])@) is Some || exists|i: int|
                                0 <= i < errors@.len() && (#[trigger] errors@[i]).0@ == servers@[j]@ by {
                            if j == k {
                                assert(errors@[before.len() as int].0@ == servers@[j]@);
                            } else if !(self.cursor_of(servers@[j]@) is Some) {
                                let i = choose|i: int| 0 <= i < before.len() && (#[trigger] before[i]).0@ == servers@[j]@;
                                assert(errors@[i] == before[i]);
                            }
                        }
                        assert forall|i: int|
                            0 <= i < errors@.len() && occurrences(servers@, (#[trigger] errors@[i]).0@) == 1 implies self.cursor_of(
                                errors@[i].0@,
                            ) == old(self).cursor_of(errors@[i].0@) by {
                            if i == before.len() {
                                let u = errors@[i].0@;
                                assert(u == servers@[k as int]@);
                                if exists|j: int| 0 <= j < k && (#[trigger] servers@[j])@ == u {
                                    let j = choose|j: int| 0 <= j < k && (#[trigger] servers@[j])@ == u;
                                    lemma_two_occurrences(servers@, j, k as int);
                                }
                                assert(forall|j: int| 0 <= j < k ==> (#[trigger] servers@[j])@ != u);
                            } else {
                                assert(errors@[i] == before[i]);
                            }
                        }
                    },
                    Ok(b) => {
                        let sp = match pre.cursor_of(url@) {
                            Some(c) => c,
                            None => 0,
                        };
                        lemma_batch_props(pre.me(), pre.seen_ids(), sp, b);
                        let (fresh, bad2, newest) = batch_spec(pre.me(), pre.seen_ids(), sp, b);
                        assert(delivered@ =~= d_before + fresh);
                        assert forall|x: Seq<char>| seen0.contains(x) implies self.seen_ids().contains(x) by {
                            assert(pre.seen_ids().contains(x));
                        }
                        assert forall|x: Seq<char>| #[trigger] self.seen_ids().contains(x) implies (seen0.contains(x)
                            || ids_of(delivered@).contains(x)) by {
                            if ids_of(fresh).contains(x) {
                                let q = choose|q: int| 0 <= q < ids_of(fresh).len() && ids_of(fresh)[q] == x;
                                assert(ids_of(delivered@)[d_before.len() + q] == x);
                            } else {
                                assert(pre.seen_ids().contains(x));
                                if !seen0.contains(x) {
                                    assert(ids_of(d_before).contains(x));
                                    let q = choose|q: int| 0 <= q < ids_of(d_before).len() && ids_of(d_before)[q] == x;
                                    assert(ids_of(delivered@)[q] == x);
                                }
                            }
                        }
                        assert forall|i: int| 0 <= i < delivered@.len() implies {
                            &&& acceptable(#[trigger] delivered@[i], old(self).me())
                            &&& !seen0.contains(delivered@[i].id@)
                            &&& self.seen_ids().contains(delivered@[i].id@)
                        } by {
                            if i >= d_before.len() {
                                let q = i - d_before.len();
                                assert(delivered@[i] == fresh[q]);
                                assert(acceptable(fresh[q], pre.me()));
                                assert(ids_of(fresh)[q] == fresh[q].id@);
                                assert(ids_of(fresh).contains(fresh[q].id@));
                                if seen0.contains(fresh[q].id@) {
                                    assert(pre.seen_ids().contains(fresh[q].id@));
                                }
                            } else {
                                assert(delivered@[i] == d_before[i]);
                                assert(acceptable(d_before[i], old(self).me()));
                                assert(pre.seen_ids().contains(d_before[i].id@));
                            }
                        }
                        assert forall|a: int, b: int| 0 <= a < b < delivered@.len() implies (#[trigger] delivered@[a]).id@
                            != (#[trigger] delivered@[b]).id@ by {
                            if a >= d_before.len() {
                                assert(delivered@[a] == fresh[a - d_before.len()] && delivered@[b] == fresh[b - d_before.len()]);
                            } else if b >= d_before.len() {
                                assert(delivered@[b] == fresh[b - d_before.len()]);
                                assert(pre.seen_ids().contains(d_before[a].id@));
                            }
                        }
                        assert forall|u: Seq<char>| old(self).cursor_of(u) is Some implies (self.cursor_of(u) is Some && old(self).cursor_of(u)->Some_0 <= self.cursor_of(u)->Some_0) by {
                            if u == url@ {
                                assert(newest >= sp);
                            }
                        }
                        assert forall|i: int|
                            0 <= i < errors@.len() && occurrences(servers@, (#[trigger] errors@[i]).0@) == 1 implies self.cursor_of(
                                errors@[i].0@,
                            ) == old(self).cursor_of(errors@[i].0@) by {
                            let u = errors@[i].0@;
                            assert(pre.cursor_of(u) == old(self).cursor_of(u));
                            if u == url@ {
                                let j = choose|j: int| 0 <= j < k && (#[trigger] errors@[i]).0@ == (#[trigger] servers@[j])@;
                                lemma_two_occurrences(servers@, j, k as int);
                            }
                        }
                        assert forall|i: int| 0 <= i < errors@.len() implies exists|j: int| 0 <= j < k + 1 && (#[trigger] errors@[i]).0@
                            == (#[trigger] servers@[j])@ by {
                            let j = choose|j: int| 0 <= j < k && (#[trigger] errors@[i]).0@ == (#[trigger] servers@[j])@;
                        }
                        assert forall|j: int|
                            0 <= j < k + 1 implies self.cursor_of((#[trigger] servers@[j])@) is Some || exists|i: int|
                                0 <= i < errors@.len() && (#[trigger] errors@[i]).0@ == servers@[j]@ by {
                            if servers@[j]@ != url@ {
                                assert(self.cursor_of(servers@[j]@) == pre.cursor_of(servers@[j]@));
                            }
                        }
                    },
                }
                let fx = FetchExchange { since, answer: av };
                let nxs = xs.push(fx);
                assert(nxs.drop_last() =~= xs);
                assert(names[k as int] == url@);
                assert(since == (st.cursors)(url@));
                assert(asked_as_stood(me0, start, names, nxs));
                let nst = fetch_step(me0, st, url@, fx);
                assert(poll_fold(me0, start, names, nxs) == nst);
                if let Ok(b) = av {
                    let sp = match pre.cursor_of(url@) {
                        Some(c) => c,
                        None => 0,
                    };
                    assert((st.cursors)(url@) == pre.cursor_of(url@));
                    lemma_batch_same_seen(me0, st.seen, pre.seen_ids(), sp, b);
                    let fresh = batch_spec(me0, st.seen, sp, b).0;
                    assert forall|y: Seq<char>| self.seen_ids().contains(y) <==> nst.seen.contains(y) by {
                        lemma_concat_contains(st.seen, ids_of(fresh), y);
                    }
                    assert forall|u: Seq<char>| self.cursor_of(u) == (nst.cursors)(u) by {
                        if u != url@ {
                            assert(self.cursor_of(u) == pre.cursor_of(u));
                        }
                    }
                } else {
                    assert forall|u: Seq<char>| self.cursor_of(u) == (nst.cursors)(u) by {
                        if u != url@ {
                            assert(self.cursor_of(u) == pre.cursor_of(u));
                        }
                    }
                }
                xs = nxs;
                st = nst;
            }
            k = k + 1;
        }
        let ghost unsorted = delivered@;
        let sorted = sort_by_time(delivered);
        proof {
            assert forall|i: int| 0 <= i < sorted@.len() implies {
                &&& acceptable(#[trigger] sorted@[i], old(self).me())
                &&& !old(self).seen_ids().contains(sorted@[i].id@)
                &&& self.seen_ids().contains(sorted@[i].id@)
            } by {
                assert(unsorted.contains(sorted@[i]));
                let q = choose|q: int| 0 <= q < unsorted.len() && unsorted[q] == sorted@[i];
            }
            assert forall|x: Seq<char>| #[trigger] self.seen_ids().contains(x) implies (old(self).seen_ids().contains(x)
                || ids_of(sorted@).contains(x)) by {
                if !old(self).seen_ids().contains(x) {
                    assert(ids_of(unsorted).contains(x));
                    let q = choose|q: int| 0 <= q < ids_of(unsorted).len() && ids_of(unsorted)[q] == x;
                    assert(unsorted.contains(unsorted[q]));
                    assert(sorted@.contains(unsorted[q]));
                    let r = choose|r: int| 0 <= r < sorted@.len() && sorted@[r] == unsorted[q];
                    assert(ids_of(sorted@)[r] == x);
                }
            }
        }
        let report = PollReport { delivered: sorted, rejected, errors };
        proof {
            assert forall|e: HeldEvent| #[trigger] report.delivered@.contains(e) <==> st.delivered.contains(e) by {}
            assert(self.polls(report, poll_fold(old(self).me(), old(self).poll_start(), peer_names(servers@), xs)));
            if servers@.len() == 0 {
                assert(xs.len() == 0);
                assert(st == start);
            }
        }
        report
    }

    /// Try to hand every queued event to a server, servers in order: an
    /// event leaves the outbox as soon as one server takes it or already
    /// holds it; a full mailbox moves on to the next server without an
    /// error; a failing server is recorded and the next one tried.
    /// Whatever the servers answer, what stays queued is the events not
    /// handed over, in their order, and every queued event is counted as
    /// published or still queued. Exactly: for some answers of the servers,
    /// fitting that order of trying, what stays, the published count and
    /// the errors are the flush of the queue over them ([`flush_fold`],
    /// one [`take_publish_answer`] per answer). With no servers everything
    /// stays queued.
    #[verifier::spinoff_prover]
    #[verifier::rlimit(40)]
    pub fn flush<T: MailboxTransport>(&mut self, transport: &mut T, servers: &[&str]) -> (report: FlushReport)
        requires
            old(self).wf(),
        ensures
            final(self).wf(),
            final(self).me() == old(self).me(),
            final(self).seen_ids() == old(self).seen_ids(),
            forall|u: Seq<char>| final(self).cursor_of(u) == old(self).cursor_of(u),
            report.published + report.still_queued == old(self).queued().len(),
            report.still_queued == final(self).queued().len(),
            forall|i: int| 0 <= i < final(self).queued().len() ==> old(self).queued().contains(#[trigger] final(self).queued()[i]),
            forall|a: int, b: int, p: int, q: int|
                0 <= a < b < final(self).queued().len() && 0 <= p < old(self).queued().len() && 0 <= q < old(self).queued().len()
                    && #[trigger] old(self).queued()[p] == #[trigger] final(self).queued()[a] && #[trigger] old(self).queued()[q]
                    == #[trigger] final(self).queued()[b] ==> p < q,
            names_peers(report.errors@, servers@),
            flush_outcome(
                peer_names(servers@),
                old(self).queued(),
                final(self).queued(),
                report.published as nat,
                error_view(report.errors@),
            ),
            servers@.len() == 0 ==> final(self).queued() == old(self).queued() && report.published == 0
                && report.errors@.len() == 0,
    {
        let mut queued: Vec<HeldEvent> = Vec::new();
        std::mem::swap(&mut queued, &mut self.outbox);
        let ghost all = queued@;
        let mut published: usize = 0;
        let mut errors: Vec<(String, String)> = Vec::new();
        let ghost names = peer_names(servers@);
        let ghost mut ts: Seq<Seq<PublishAnswer>> = Seq::empty();
        proof {
            assert(all.take(0) =~= Seq::<HeldEvent>::empty());
            assert(error_view(errors@) =~= Seq::<(Seq<char>, Seq<char>)>::empty());
            assert(self.outbox@ =~= Seq::<HeldEvent>::empty());
        }
        let mut k: usize = 0;
        while k < queued.len()
            invariant
                k <= queued@.len(),
                queued@ == all,
                all == old(self).outbox@,
                ids_unique(all),
                self.self_pubkey == old(self).self_pubkey,
                self.seen == old(self).seen,
                self.cursors == old(self).cursors,
                published + self.outbox@.len() == k,
                forall|i: int| 0 <= i < self.outbox@.len() ==> exists|j: int| 0 <= j < k && all[j] == #[trigger] self.outbox@[i],
                forall|a: int, b: int| 0 <= a < b < self.outbox@.len() ==> (#[trigger] self.outbox@[a]).id@ != (#[trigger] self.outbox@[b]).id@,
                forall|i: int, j: int| 0 <= i < self.outbox@.len() && k <= j < all.len() ==> (#[trigger] self.outbox@[i]).id@ != (#[trigger] all[j]).id@,
                forall|a: int, b: int, p: int, q: int|
                    0 <= a < b < self.outbox@.len() && 0 <= p < all.len() && 0 <= q < all.len() && #[trigger] all[p]
                        == #[trigger] self.outbox@[a] && #[trigger] all[q] == #[trigger] self.outbox@[b] ==> p < q,
                names_peers(errors@, servers@),
                names == peer_names(servers@),
                ts.len() == k,
                forall|i: int| 0 <= i < ts.len() ==> tries_fit(names, #[trigger] ts[i]),
                flush_fold(names, all.take(k as int), ts) == (self.outbox@, published as nat, error_view(errors@)),
            decreases queued.len() - k,
        {
            let event = &queued[k];
            let ghost e_start = error_view(errors@);
            let (delivered, Ghost(t)) = publish_one(transport, servers, event, &mut errors);
            proof {
                let nts = ts.push(t);
                assert(nts.drop_last() =~= ts);
                assert(all.take(k + 1).drop_last() =~= all.take(k as int));
                assert(all.take(k + 1).last() == all[k as int]);
                assert forall|i: int| 0 <= i < nts.len() implies tries_fit(names, #[trigger] nts[i]) by {
                    if i < ts.len() {
                        assert(nts[i] == ts[i]);
                    }
                }
                ts = nts;
            }
            if delivered {
                published = published + 1;
                proof {
                    assert(flush_fold(names, all.take(k + 1), ts) == (self.outbox@, published as nat, error_view(errors@)));
                }
            } else {
                let ghost before = self.outbox@;
                self.outbox.push(copy_event(event));
                proof {
                    assert forall|i: int| 0 <= i < self.outbox@.len() implies exists|j: int| 0 <= j < k + 1 && all[j] == #[trigger] self.outbox@[i] by {
                        if i == before.len() {
                            assert(all[k as int] == self.outbox@[i]);
                        } else {
                            assert(self.outbox@[i] == before[i]);
                        }
                    }
                    assert forall|a: int, b: int| 0 <= a < b < self.outbox@.len() implies (#[trigger] self.outbox@[a]).id@ != (#[trigger] self.outbox@[b]).id@ by {
                        if b == before.len() {
                            assert(self.outbox@[a] == before[a]);
                            assert(self.outbox@[b] == all[k as int]);
                        }
                    }
                    assert forall|a: int, b: int, p: int, q: int|
                        0 <= a < b < self.outbox@.len() && 0 <= p < all.len() && 0 <= q < all.len() && #[trigger] all[p]
                            == #[trigger] self.outbox@[a] && #[trigger] all[q] == #[trigger] self.outbox@[b] implies p < q by {
                        if b == before.len() {
                            assert(self.outbox@[a] == before[a]);
                            assert(self.outbox@[b] == all[k as int]);
                            if q != k {
                                assert(all[q].id@ == all[k as int].id@);
                            }
                            let j = choose|j: int| 0 <= j < k && all[j] == #[trigger] before[a];
                            if p != j {
                                assert(all[p].id@ == all[j].id@);
                            }
                        } else {
                            assert(self.outbox@[a] == before[a] && self.outbox@[b] == before[b]);
                        }
                    }
                    assert(self.outbox@ =~= before.push(all[k as int]));
                    assert(flush_fold(names, all.take(k + 1), ts) == (self.outbox@, published as nat, error_view(errors@)));
                }
            }
            k = k + 1;
        }
        proof {
            assert forall|i: int| 0 <= i < self.outbox@.len() implies old(self).outbox@.contains(#[trigger] self.outbox@[i]) by {
                let j = choose|j: int| 0 <= j < k && all[j] == #[trigger] self.outbox@[i];
            }
        }
        let still_queued = self.outbox.len();
        proof {
            assert(all.take(all.len() as int) =~= all);
            assert(flush_fold(names, all, ts) == (self.outbox@, published as nat, error_view(errors@)));
            if servers@.len() == 0 {
                lemma_flush_no_servers(names, all, ts);
            }
        }
        FlushReport { published, still_queued, errors }
    }
}

/// Some event of `batch` that this client may believe carries the id `x`.
pub open spec fn offers(batch: Seq<HeldEvent>, me: Seq<char>, x: Seq<char>) -> bool {
    exists|i: int| 0 <= i < batch.len() && acceptable(#[trigger] batch[i], me) && batch[i].id@ == x
}

/// Taking in a batch loses nothing and invents nothing: afterwards an id
/// has been delivered (now or before) exactly when it had been before or
/// an acceptable event of the batch carries it, whatever its time, so an
/// event sharing a second with the cursor still arrives.
pub proof fn law_batch_delivers_every_new_event(me: Seq<char>, seen: Seq<Seq<char>>, since: u64, batch: Seq<HeldEvent>, x: Seq<char>)
    ensures
        (seen.contains(x) || ids_of(batch_spec(me, seen, since, batch).0).contains(x)) <==> (seen.contains(x) || offers(
            batch,
            me,
            x,
        )),
    decreases batch.len(),
{
    if batch.len() > 0 {
        let init = batch.drop_last();
        law_batch_delivers_every_new_event(me, seen, since, init, x);
        let (fresh, bad, newest) = batch_spec(me, seen, since, init);
        let e = batch.last();
        let nf = batch_spec(me, seen, since, batch).0;
        assert(offers(batch, me, x) <==> (offers(init, me, x) || (acceptable(e, me) && e.id@ == x))) by {
            if offers(batch, me, x) {
                let i = choose|i: int| 0 <= i < batch.len() && acceptable(#[trigger] batch[i], me) && batch[i].id@ == x;
                if i < init.len() {
                    assert(init[i] == batch[i]);
                }
            }
            if offers(init, me, x) {
                let i = choose|i: int| 0 <= i < init.len() && acceptable(#[trigger] init[i], me) && init[i].id@ == x;
                assert(batch[i] == init[i]);
            }
            if acceptable(e, me) && e.id@ == x {
                assert(batch[batch.len() - 1] == e);
            }
        }
        if acceptable(e, me) && !seen.contains(e.id@) && !ids_of(fresh).contains(e.id@) {
            assert(ids_of(nf) =~= ids_of(fresh).push(e.id@));
            if ids_of(nf).contains(x) && x != e.id@ {
                let k = choose|k: int| 0 <= k < ids_of(nf).len() && ids_of(nf)[k] == x;
                assert(ids_of(fresh)[k] == x);
            }
            if ids_of(fresh).contains(x) {
                let k = choose|k: int| 0 <= k < ids_of(fresh).len() && ids_of(fresh)[k] == x;
                assert(ids_of(nf)[k] == x);
            }
            if x == e.id@ {
                assert(ids_of(nf)[fresh.len() as int] == x);
            }
        } else {
            assert(nf == fresh);
        }
    }
}

/// Re-fetching is harmless: taking in the same batch again, with what it
/// delivered marked seen and the cursor it produced, delivers nothing,
/// rejects the same events and leaves the cursor where it was.
pub proof fn law_batch_is_idempotent(me: Seq<char>, seen: Seq<Seq<char>>, since: u64, batch: Seq<HeldEvent>)
    ensures
        ({
            let (fresh, bad, newest) = batch_spec(me, seen, since, batch);
            batch_spec(me, seen + ids_of(fresh), newest, batch) == (Seq::<HeldEvent>::empty(), bad, newest)
        }),
{
    let (fresh, bad, newest) = batch_spec(me, seen, since, batch);
    let s1 = seen + ids_of(fresh);
    assert forall|i: int| 0 <= i < batch.len() && acceptable(#[trigger] batch[i], me) implies s1.contains(batch[i].id@)
        && batch[i].created_at <= newest by {
        let x = batch[i].id@;
        law_batch_delivers_every_new_event(me, seen, since, batch, x);
        assert(offers(batch, me, x));
        if seen.contains(x) {
            let k = choose|k: int| 0 <= k < seen.len() && seen[k] == x;
            assert(s1[k] == x);
        } else {
            let k = choose|k: int| 0 <= k < ids_of(fresh).len() && ids_of(fresh)[k] == x;
            assert(s1[seen.len() + k] == x);
        }
        lemma_newest_bounds(me, seen, since, batch);
    }
    lemma_batch_again(me, s1, newest, batch);
    lemma_rejections_ignore_seen(me, seen, s1, since, newest, batch);
    assert(batch_spec(me, s1, newest, batch).0 =~= Seq::<HeldEvent>::empty());
}

proof fn lemma_newest_bounds(me: Seq<char>, seen: Seq<Seq<char>>, since: u64, batch: Seq<HeldEvent>)
    ensures
        batch_spec(me, seen, since, batch).2 >= since,
        forall|i: int| 0 <= i < batch.len() && acceptable(#[trigger] batch[i], me) ==> batch[i].created_at
            <= batch_spec(me, seen, since, batch).2,
    decreases batch.len(),
{
    if batch.len() > 0 {
        let init = batch.drop_last();
        lemma_newest_bounds(me, seen, since, init);
        assert forall|i: int| 0 <= i < batch.len() && acceptable(#[trigger] batch[i], me) implies batch[i].created_at
            <= batch_spec(me, seen, since, batch).2 by {
            if i < init.len() {
                assert(init[i] == batch[i]);
            }
        }
    }
}

proof fn lemma_batch_again(me: Seq<char>, seen: Seq<Seq<char>>, since: u64, batch: Seq<HeldEvent>)
    requires
        forall|i: int| 0 <= i < batch.len() && acceptable(#[trigger] batch[i], me) ==> seen.contains(batch[i].id@)
            && batch[i].created_at <= since,
    ensures
        batch_spec(me, seen, since, batch).0.len() == 0,
        batch_spec(me, seen, since, batch).2 == since,
    decreases batch.len(),
{
    if batch.len() > 0 {
        let init = batch.drop_last();
        assert forall|i: int| 0 <= i < init.len() && acceptable(#[trigger] init[i], me) implies seen.contains(init[i].id@)
            && init[i].created_at <= since by {
            assert(batch[i] == init[i]);
        }
        lemma_batch_again(me, seen, since, init);
        assert(batch[batch.len() - 1] == batch.last());
    }
}

proof fn lemma_rejections_ignore_seen(me: Seq<char>, s1: Seq<Seq<char>>, s2: Seq<Seq<char>>, c1: u64, c2: u64, batch: Seq<HeldEvent>)
    ensures
        batch_spec(me, s1, c1, batch).1 == batch_spec(me, s2, c2, batch).1,
    decreases batch.len(),
{
    if batch.len() > 0 {
        lemma_rejections_ignore_seen(me, s1, s2, c1, c2, batch.drop_last());
    }
}

proof fn lemma_batch_props(me: Seq<char>, seen: Seq<Seq<char>>, since: u64, batch: Seq<HeldEvent>)
    ensures
        ids_unique(batch_spec(me, seen, since, batch).0),
        forall|i: int| 0 <= i < batch_spec(me, seen, since, batch).0.len() ==> {
            &&& acceptable(#[trigger] batch_spec(me, seen, since, batch).0[i], me)
            &&& !seen.contains(batch_spec(me, seen, since, batch).0[i].id@)
        },
        batch_spec(me, seen, since, batch).2 >= since,
    decreases batch.len(),
{
    if batch.len() > 0 {
        lemma_batch_props(me, seen, since, batch.drop_last());
        let (fresh, bad, newest) = batch_spec(me, seen, since, batch.drop_last());
        let e = batch.last();
        if acceptable(e, me) && !seen.contains(e.id@) && !ids_of(fresh).contains(e.id@) {
            let nf = fresh.push(e);
            assert forall|a: int, b: int| 0 <= a < b < nf.len() implies (#[trigger] nf[a]).id@ != (#[trigger] nf[b]).id@ by {
                if b == nf.len() - 1 {
                    assert(ids_of(fresh)[a] == fresh[a].id@);
                }
            }
        }
    }
}

proof fn lemma_flush_no_servers(servers: Seq<Seq<char>>, q: Seq<HeldEvent>, ts: Seq<Seq<PublishAnswer>>)
    requires
        servers.len() == 0,
        ts.len() == q.len(),
        forall|i: int| 0 <= i < ts.len() ==> tries_fit(servers, #[trigger] ts[i]),
    ensures
        flush_fold(servers, q, ts) == (q, 0nat, Seq::<(Seq<char>, Seq<char>)>::empty()),
    decreases q.len(),
{
    if q.len() > 0 {
        let init = ts.drop_last();
        assert forall|i: int| 0 <= i < init.len() implies tries_fit(servers, #[trigger] init[i]) by {
            assert(init[i] == ts[i]);
        }
        lemma_flush_no_servers(servers, q.drop_last(), init);
        assert(ts.last() == ts[ts.len() - 1]);
        assert(ts.last().len() == 0);
        assert(q.drop_last().push(q.last()) =~= q);
        assert(Seq::<(Seq<char>, Seq<char>)>::empty() + try_errors(servers, ts.last()) =~= Seq::<(Seq<char>, Seq<char>)>::empty());
    }
}

} // verus!
