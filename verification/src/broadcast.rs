//! Broadcast propagation between nodes: the parts of the relay decision
//! that are plain bookkeeping, and the cache of this node's own signed
//! hop ratings.
//!
//! The relay decision runs in a fixed order: an envelope past its expiry, older
//! than its type allows or larger than its type allows is dropped; one
//! whose path is at its type's hop limit is held; only then is the path's
//! hop score folded and compared against the type's floor.

use vstd::prelude::*;

use crate::events::{copy_event, HeldEvent};
use crate::text::{str_eq, string_from_str};

verus! {

/// What to do with a broadcast envelope.
#[derive(Debug, Clone, Copy, PartialEq, Eq)]
pub enum RelayAdvice {
    /// Forward to up to `fanout` onward peers.
    Relay { fanout: u8 },
    /// Keep and surface locally, but do not forward.
    Hold { reason: &'static str },
    /// Do not even store.
    Drop { reason: &'static str },
}

/// The limits of one broadcast type that the relay decision checks before any score.
#[derive(Debug, Clone, Copy, PartialEq, Eq, Structural)]
pub struct RelayLimits {
    pub max_hops: u8,
    pub max_age_secs: u64,
    pub max_bytes: u32,
    pub fanout: u8,
}

/// The relay checks that need no score, in order: past expiry, older than
/// `max_age_secs`, larger than `max_bytes` (all dropped), then a path whose
/// relayers (every entry after the originator) already number `max_hops`
/// (held). `None` when the envelope passes them all.
pub open spec fn gate_spec(created_at: u64, expires_at: u64, envelope_bytes: nat, path_len: nat, limits: RelayLimits, now: u64) -> Option<
    RelayAdvice,
> {
    let age: int = if now >= created_at { now - created_at } else { 0 };
    let relayers: int = if path_len >= 1 { path_len - 1 } else { 0 };
    if now >= expires_at {
        Some(RelayAdvice::Drop { reason: "past expires_at" })
    } else if age > limits.max_age_secs {
        Some(RelayAdvice::Drop { reason: "older than max_age for this type" })
    } else if envelope_bytes > limits.max_bytes {
        Some(RelayAdvice::Drop { reason: "over max_bytes for this type" })
    } else if relayers >= limits.max_hops {
        Some(RelayAdvice::Hold { reason: "at hop limit for this type" })
    } else {
        None
    }
}

/// Run the relay checks that need no score. `path_len` counts the path
/// origin-first with this node last.
pub fn relay_gate(created_at: u64, expires_at: u64, envelope_bytes: usize, path_len: usize, limits: &RelayLimits, now: u64) -> (r: Option<
    RelayAdvice,
>)
    ensures
        r == gate_spec(created_at, expires_at, envelope_bytes as nat, path_len as nat, *limits, now),
{
    if now >= expires_at {
        return Some(RelayAdvice::Drop { reason: "past expires_at" });
    }
    if now.saturating_sub(created_at) > limits.max_age_secs {
        return Some(RelayAdvice::Drop { reason: "older than max_age for this type" });
    }
    if envelope_bytes as u64 > limits.max_bytes as u64 {
        return Some(RelayAdvice::Drop { reason: "over max_bytes for this type" });
    }
    let relayers = path_len.saturating_sub(1);
    if relayers >= limits.max_hops as usize {
        return Some(RelayAdvice::Hold { reason: "at hop limit for this type" });
    }
    None
}

/// How the path's hop score came out against the type's floor.
#[derive(Debug, Clone, Copy, PartialEq, Eq, Structural)]
pub enum ScoreVerdict {
    /// No relayer on the path has a valid rating of the originator.
    NoRating,
    /// The fold met an unknown-risk rating or relayer.
    UnknownRisk,
    /// The folded score is below the floor.
    BelowFloor,
    /// The folded score is at or above the floor.
    Clears,
}

/// The advice once the score is in.
pub open spec fn scored_spec(verdict: ScoreVerdict, fanout: u8) -> RelayAdvice {
    match verdict {
        ScoreVerdict::NoRating => RelayAdvice::Hold { reason: "no valid hop rating yet" },
        ScoreVerdict::UnknownRisk => RelayAdvice::Hold { reason: "unknown-risk on the path" },
        ScoreVerdict::BelowFloor => RelayAdvice::Hold { reason: "below the score floor for this type" },
        ScoreVerdict::Clears => RelayAdvice::Relay { fanout },
    }
}

/// The advice once the score is in: only a score that clears the floor is
/// relayed, to `fanout` peers; anything else is held.
pub fn advise_scored(verdict: ScoreVerdict, fanout: u8) -> (r: RelayAdvice)
    ensures
        r == scored_spec(verdict, fanout),
{
    match verdict {
        ScoreVerdict::NoRating => RelayAdvice::Hold { reason: "no valid hop rating yet" },
        ScoreVerdict::UnknownRisk => RelayAdvice::Hold { reason: "unknown-risk on the path" },
        ScoreVerdict::BelowFloor => RelayAdvice::Hold { reason: "below the score floor for this type" },
        ScoreVerdict::Clears => RelayAdvice::Relay { fanout },
    }
}

/// One cached rating: this node's signed rating of `subject` in `domain`,
/// kept until `valid_until` (exclusive).
#[derive(Debug, Clone)]
pub struct CachedRating {
    pub subject: String,
    pub domain: String,
    pub rating: HeldEvent,
    pub valid_until: u64,
}

/// The entry for `(subject, domain)`: the last one with that key.
pub open spec fn lookup(es: Seq<CachedRating>, subject: Seq<char>, domain: Seq<char>) -> Option<(HeldEvent, u64)>
    decreases es.len(),
{
    if es.len() == 0 {
        None
    } else if es.last().subject@ == subject && es.last().domain@ == domain {
        Some((es.last().rating, es.last().valid_until))
    } else {
        lookup(es.drop_last(), subject, domain)
    }
}

/// No key occurs twice.
pub open spec fn keys_unique(es: Seq<CachedRating>) -> bool {
    forall|a: int, b: int|
        0 <= a < b < es.len() ==> !((#[trigger] es[a]).subject@ == (#[trigger] es[b]).subject@ && es[a].domain@
            == es[b].domain@)
}

/// What an entry looks like once the clock reads `now`: gone if expired.
pub open spec fn live_at(e: Option<(HeldEvent, u64)>, now: u64) -> Option<(HeldEvent, u64)> {
    match e {
        Some((ev, until)) => if now < until { Some((ev, until)) } else { None },
        None => None,
    }
}

/// This node's own signed hop ratings, one per `(subject, domain)`, each
/// kept until it expires and re-attached to every broadcast relayed from
/// that originator.
pub struct HopRatingCache {
    entries: Vec<CachedRating>,
}

impl HopRatingCache {
    /// The entry held for `(subject, domain)`, expired or not.
    pub closed spec fn entry(&self, subject: Seq<char>, domain: Seq<char>) -> Option<(HeldEvent, u64)> {
        lookup(self.entries@, subject, domain)
    }

    /// Each key is held once.
    pub closed spec fn wf(&self) -> bool {
        keys_unique(self.entries@)
    }

    /// How many entries are held.
    pub closed spec fn size(&self) -> nat {
        self.entries@.len()
    }

    /// An empty cache.
    pub fn new() -> (r: Self)
        ensures
            r.wf(),
            r.size() == 0,
            forall|s: Seq<char>, d: Seq<char>| r.entry(s, d) is None,
    {
        HopRatingCache { entries: Vec::new() }
    }

    /// The still-valid rating for `(subject, domain)`, if one is cached:
    /// valid while `now` is before its expiry.
    pub fn valid(&self, subject: &str, domain: &str, now: u64) -> (r: Option<&HeldEvent>)
        ensures
            match live_at(self.entry(subject@, domain@), now) {
                Some((ev, _)) => r == Some(&ev),
                None => r is None,
            },
    {
        let mut i: usize = self.entries.len();
        assert(self.entries@.take(i as int) =~= self.entries@);
        while i > 0
            invariant
                i <= self.entries@.len(),
                lookup(self.entries@, subject@, domain@) == lookup(self.entries@.take(i as int), subject@, domain@),
            decreases i,
        {
            proof {
                assert(self.entries@.take(i as int).drop_last() =~= self.entries@.take(i - 1));
                assert(self.entries@.take(i as int).last() == self.entries@[i - 1]);
            }
            let e = &self.entries[i - 1];
            if str_eq(e.subject.as_str(), subject) && str_eq(e.domain.as_str(), domain) {
                if now < e.valid_until {
                    return Some(&e.rating);
                } else {
                    return None;
                }
            }
            i = i - 1;
        }
        None
    }

    /// Cache `event` as the rating of `subject` in `domain` until
    /// `valid_until`, replacing whatever was held for that key.
    pub fn store(&mut self, subject: &str, domain: &str, event: HeldEvent, valid_until: u64)
        requires
            old(self).wf(),
        ensures
            final(self).wf(),
            final(self).entry(subject@, domain@) == Some((event, valid_until)),
            forall|s: Seq<char>, d: Seq<char>|
                !(s == subject@ && d == domain@) ==> #[trigger] final(self).entry(s, d) == old(self).entry(s, d),
    {
        let mut i: usize = 0;
        while i < self.entries.len()
            invariant
                i <= self.entries@.len(),
                self.entries@ == old(self).entries@,
                forall|j: int| 0 <= j < i ==> !((#[trigger] self.entries@[j]).subject@ == subject@ && self.entries@[j].domain@ == domain@),
            ensures
                i <= self.entries@.len(),
                self.entries@ == old(self).entries@,
                forall|j: int| 0 <= j < i ==> !((#[trigger] self.entries@[j]).subject@ == subject@ && self.entries@[j].domain@ == domain@),
                i < self.entries@.len() ==> self.entries@[i as int].subject@ == subject@ && self.entries@[i as int].domain@ == domain@,
            decreases self.entries.len() - i,
        {
            if str_eq(self.entries[i].subject.as_str(), subject) && str_eq(self.entries[i].domain.as_str(), domain) {
                break;
            }
            i = i + 1;
        }
        let ghost before = self.entries@;
        if i < self.entries.len() {
            let ghost at = i as int;
            self.entries.remove(i);
            proof {
                assert forall|s: Seq<char>, d: Seq<char>| !(s == subject@ && d == domain@) implies lookup(self.entries@, s, d)
                    == lookup(before, s, d) by {
                    lemma_lookup_remove(before, at, s, d);
                }
            }
        }
        let ghost mid = self.entries@;
        proof {
            assert forall|j: int| 0 <= j < mid.len() implies !((#[trigger] mid[j]).subject@ == subject@ && mid[j].domain@
                == domain@) by {
                if i < before.len() {
                    if j < i {
                        assert(mid[j] == before[j]);
                    } else {
                        assert(mid[j] == before[j + 1]);
                        assert(!(before[i as int].subject@ == before[j + 1].subject@ && before[i as int].domain@
                            == before[j + 1].domain@));
                    }
                } else {
                    assert(mid[j] == before[j]);
                }
            }
        }
        let entry = CachedRating { subject: string_from_str(subject), domain: string_from_str(domain), rating: event, valid_until };
        self.entries.push(entry);
        proof {
            assert(self.entries@.drop_last() == mid);
            assert forall|a: int, b: int| 0 <= a < b < self.entries@.len() implies !((#[trigger] self.entries@[a]).subject@
                == (#[trigger] self.entries@[b]).subject@ && self.entries@[a].domain@ == self.entries@[b].domain@) by {
                if b == self.entries@.len() - 1 {
                    assert(self.entries@[a] == mid[a]);
                } else {
                    assert(self.entries@[a] == mid[a] && self.entries@[b] == mid[b]);
                    if i < before.len() {
                        let (pa, pb) = (if a < i { a } else { a + 1 }, if b < i { b } else { b + 1 });
                        assert(mid[a] == before[pa] && mid[b] == before[pb]);
                    } else {
                        assert(mid[a] == before[a] && mid[b] == before[b]);
                    }
                }
            }
        }
    }

    /// Drop every expired entry; what is still valid at `now` stays.
    pub fn prune(&mut self, now: u64)
        requires
            old(self).wf(),
        ensures
            final(self).wf(),
            forall|s: Seq<char>, d: Seq<char>| #[trigger] final(self).entry(s, d) == live_at(old(self).entry(s, d), now),
    {
        let ghost all = self.entries@;
        let mut kept: Vec<CachedRating> = Vec::new();
        let mut i: usize = 0;
        while i < self.entries.len()
            invariant
                i <= all.len(),
                self.entries@ == all,
                keys_unique(all),
                kept@ == live_rows(all.take(i as int), now),
            decreases self.entries.len() - i,
        {
            proof {
                assert(all.take(i + 1).drop_last() =~= all.take(i as int));
                assert(all.take(i + 1).last() == all[i as int]);
            }
            if now < self.entries[i].valid_until {
                let e = &self.entries[i];
                let c = CachedRating {
                    subject: e.subject.clone(),
                    domain: e.domain.clone(),
                    rating: copy_event(&e.rating),
                    valid_until: e.valid_until,
                };
                kept.push(c);
                proof {
                    assert(c.subject@ == all[i as int].subject@ && c.domain@ == all[i as int].domain@);
                }
            }
            i = i + 1;
        }
        assert(all.take(all.len() as int) =~= all);
        proof {
            lemma_live_rows(all, now);
        }
        self.entries = kept;
    }
}

/// A stored rating reads back: once `(subject, domain)` holds `event`
/// until `valid_until`, a read at `now` gives that event exactly while
/// `now` is before `valid_until`, and pruning at `now` keeps it exactly as
/// long.
pub proof fn law_stored_rating_reads_back(
    c: HopRatingCache,
    subject: Seq<char>,
    domain: Seq<char>,
    event: HeldEvent,
    valid_until: u64,
    now: u64,
)
    requires
        c.entry(subject, domain) == Some((event, valid_until)),
    ensures
        live_at(c.entry(subject, domain), now) == (if now < valid_until {
            Some((event, valid_until))
        } else {
            None
        }),
{
}

/// The entries of `es` still valid at `now`, in order.
pub open spec fn live_rows(es: Seq<CachedRating>, now: u64) -> Seq<CachedRating>
    decreases es.len(),
{
    if es.len() == 0 {
        Seq::empty()
    } else if now < es.last().valid_until {
        live_rows(es.drop_last(), now).push(es.last())
    } else {
        live_rows(es.drop_last(), now)
    }
}

proof fn lemma_lookup_remove(es: Seq<CachedRating>, at: int, s: Seq<char>, d: Seq<char>)
    requires
        0 <= at < es.len(),
        !(es[at].subject@ == s && es[at].domain@ == d),
    ensures
        lookup(es.remove(at), s, d) == lookup(es, s, d),
    decreases es.len(),
{
    if at == es.len() - 1 {
        assert(es.remove(at) =~= es.drop_last());
    } else {
        assert(es.remove(at).drop_last() =~= es.drop_last().remove(at));
        assert(es.remove(at).last() == es.last());
        lemma_lookup_remove(es.drop_last(), at, s, d);
    }
}

proof fn lemma_live_rows(es: Seq<CachedRating>, now: u64)
    requires
        keys_unique(es),
    ensures
        keys_unique(live_rows(es, now)),
        forall|s: Seq<char>, d: Seq<char>| #[trigger] lookup(live_rows(es, now), s, d) == live_at(lookup(es, s, d), now),
        forall|j: int| 0 <= j < live_rows(es, now).len() ==> es.contains(#[trigger] live_rows(es, now)[j]),
    decreases es.len(),
{
    if es.len() > 0 {
        let init = es.drop_last();
        assert forall|a: int, b: int| 0 <= a < b < init.len() implies !((#[trigger] init[a]).subject@
            == (#[trigger] init[b]).subject@ && init[a].domain@ == init[b].domain@) by {
            assert(init[a] == es[a] && init[b] == es[b]);
        }
        lemma_live_rows(init, now);
        let prev = live_rows(init, now);
        let e = es.last();
        assert forall|j: int| 0 <= j < prev.len() implies es.contains(#[trigger] prev[j]) by {
            let k = choose|k: int| 0 <= k < init.len() && init[k] == prev[j];
            assert(es[k] == prev[j]);
        }
        assert forall|s: Seq<char>, d: Seq<char>| (e.subject@ == s && e.domain@ == d) implies lookup(init, s, d) is None by {
            lemma_lookup_absent(init, e, s, d);
        }
        if now < e.valid_until {
            let nv = prev.push(e);
            assert forall|a: int, b: int| 0 <= a < b < nv.len() implies !((#[trigger] nv[a]).subject@
                == (#[trigger] nv[b]).subject@ && nv[a].domain@ == nv[b].domain@) by {
                if b == nv.len() - 1 {
                    assert(nv[a] == prev[a]);
                    assert(es.contains(prev[a]));
                    let k = choose|k: int| 0 <= k < es.len() && es[k] == prev[a];
                    if k == es.len() - 1 {
                        assert(init.contains(prev[a]));
                        let k2 = choose|k2: int| 0 <= k2 < init.len() && init[k2] == prev[a];
                        assert(es[k2] == prev[a]);
                        assert(!(es[k2].subject@ == es[es.len() - 1].subject@ && es[k2].domain@ == es[es.len() - 1].domain@));
                    } else {
                        assert(!(es[k].subject@ == es[es.len() - 1].subject@ && es[k].domain@ == es[es.len() - 1].domain@));
                    }
                }
            }
            assert forall|j: int| 0 <= j < nv.len() implies es.contains(#[trigger] nv[j]) by {
                if j == nv.len() - 1 {
                    assert(es[es.len() - 1] == e);
                } else {
                    assert(nv[j] == prev[j]);
                }
            }
        }
        assert forall|s: Seq<char>, d: Seq<char>| #[trigger] lookup(live_rows(es, now), s, d) == live_at(lookup(es, s, d), now) by {
            assert(lookup(prev, s, d) == live_at(lookup(init, s, d), now));
            if e.subject@ == s && e.domain@ == d {
                assert(lookup(init, s, d) is None);
            }
            if now < e.valid_until {
                let nv = prev.push(e);
                assert(live_rows(es, now) == nv);
                assert(nv.last() == e);
                assert(nv.drop_last() =~= prev);
            } else {
                assert(live_rows(es, now) == prev);
            }
        }
    }
}

proof fn lemma_lookup_absent(es: Seq<CachedRating>, e: CachedRating, s: Seq<char>, d: Seq<char>)
    requires
        keys_unique(es.push(e)),
        e.subject@ == s && e.domain@ == d,
    ensures
        lookup(es, s, d) is None,
    decreases es.len(),
{
    if es.len() > 0 {
        let all = es.push(e);
        assert(all[es.len() - 1] == es.last());
        assert(all[es.len() as int] == e);
        let init = es.drop_last();
        assert(init.push(e) =~= all.remove(es.len() - 1));
        assert forall|a: int, b: int| 0 <= a < b < init.push(e).len() implies !((#[trigger] init.push(e)[a]).subject@
            == (#[trigger] init.push(e)[b]).subject@ && init.push(e)[a].domain@ == init.push(e)[b].domain@) by {
            let ip = init.push(e);
            if b == ip.len() - 1 {
                assert(ip[a] == all[a] && ip[b] == all[all.len() - 1]);
            } else {
                assert(ip[a] == all[a] && ip[b] == all[b]);
            }
        }
        lemma_lookup_absent(init, e, s, d);
    }
}

} // verus!
