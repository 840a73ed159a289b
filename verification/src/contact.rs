//! Per-contact relay policy: how far this node relays queries along one
//! contact edge, what it accepts from that contact, and a per-day rate limit.
//! Entirely local state, never published.

use vstd::prelude::*;

use crate::routing::{same_domain, same_domain_spec};

verus! {

/// Seconds in one rate-limit day.
pub const DAY_SECS: u64 = 86_400;

/// The permissions one contact edge carries.
#[derive(Debug, Clone, PartialEq)]
pub struct ContactPolicy {
    /// Cap on `hops_from_origin` (after incrementing) for queries extended to
    /// this contact.
    pub relay_depth: u8,
    /// Cap on `hops_from_origin` as received from this contact.
    pub accept_depth: u8,
    /// Tag-domain allowlist (`sector/domain` prefixes). Empty = unrestricted.
    pub categories: Vec<String>,
    /// Queries per day accepted from this contact.
    pub rate_limit: u32,
    /// May this contact's cached skill tags be populated at all.
    pub share_tags: bool,
}

impl ContactPolicy {
    /// No restriction beyond the protocol's own limits: depth 3 both ways,
    /// no category allowlist, 100 queries a day, tags shared.
    pub fn open() -> (p: Self)
        ensures
            p.relay_depth == 3,
            p.accept_depth == 3,
            p.categories@.len() == 0,
            p.rate_limit == 100,
            p.share_tags,
    {
        ContactPolicy {
            relay_depth: 3,
            accept_depth: 3,
            categories: Vec::new(),
            rate_limit: 100,
            share_tags: true,
        }
    }
}

/// One contact in the local book.
#[derive(Debug, Clone)]
pub struct Contact {
    pub pubkey: String,
    pub policy: ContactPolicy,
    /// Skill tags this contact is locally known to have declared.
    pub cached_skill_tags: Vec<String>,
    /// Skill tags from contracts this contact completed and a counterparty
    /// countersigned.
    pub earned_skill_tags: Vec<String>,
    /// The per-day window the rate limit counts in.
    pub rate_window: RateWindow,
}

/// A per-day query counter: the day it counts for and how many queries it
/// has counted. Opaque outside this module; only [`Contact::record_incoming`]
/// moves it.
#[derive(Debug, Clone)]
pub struct RateWindow {
    day: Option<u64>,
    count: u32,
}

impl RateWindow {
    /// The day this window counts for, if any query was ever recorded.
    pub closed spec fn day(&self) -> Option<u64> {
        self.day
    }

    /// Queries counted for that day.
    pub closed spec fn count(&self) -> u32 {
        self.count
    }
}

/// Does any category of the allowlist share a domain with `tag`?
pub open spec fn any_category_matches(categories: Seq<String>, tag: Seq<char>) -> bool {
    exists|i: int| 0 <= i < categories.len() && same_domain_spec(#[trigger] categories[i]@, tag)
}

/// The category check: an empty allowlist admits every tag.
pub open spec fn category_allows_spec(policy: ContactPolicy, tag: Seq<char>) -> bool {
    policy.categories@.len() == 0 || any_category_matches(policy.categories@, tag)
}

/// The day a unix-seconds instant falls in.
pub open spec fn day_of(now: u64) -> u64 {
    (now / DAY_SECS) as u64
}

impl Contact {
    /// The day of the current rate window, if any query was ever recorded.
    pub open spec fn window_day(&self) -> Option<u64> {
        self.rate_window.day()
    }

    /// Queries counted in the current rate window.
    pub open spec fn window_count(&self) -> u32 {
        self.rate_window.count()
    }

    /// The count a query recorded at `now` starts from: the window's count if
    /// `now` is in the window's day, else zero.
    pub open spec fn count_at(&self, now: u64) -> u32 {
        if self.window_day() == Some(day_of(now)) {
            self.window_count()
        } else {
            0
        }
    }

    /// A contact with no cached or earned tags and an empty rate window.
    pub fn new(pubkey: &str, policy: ContactPolicy) -> (c: Self)
        ensures
            c.pubkey@ == pubkey@,
            c.policy == policy,
            c.cached_skill_tags@.len() == 0,
            c.earned_skill_tags@.len() == 0,
            c.window_day() is None,
            c.window_count() == 0,
    {
        Contact {
            pubkey: pubkey.to_owned(),
            policy,
            cached_skill_tags: Vec::new(),
            earned_skill_tags: Vec::new(),
            rate_window: RateWindow { day: None, count: 0 },
        }
    }

    /// The same contact with its declared tags replaced by `tags`.
    pub fn with_cached_tags(self, tags: Vec<String>) -> (c: Self)
        ensures
            c == (Contact { cached_skill_tags: tags, ..self }),
    {
        let mut c = self;
        c.cached_skill_tags = tags;
        c
    }

    /// The same contact with its earned tags replaced by `tags`.
    pub fn with_earned_tags(self, tags: Vec<String>) -> (c: Self)
        ensures
            c == (Contact { earned_skill_tags: tags, ..self }),
    {
        let mut c = self;
        c.earned_skill_tags = tags;
        c
    }

    fn category_allows(&self, skill_tag: &str) -> (r: bool)
        ensures
            r == category_allows_spec(self.policy, skill_tag@),
    {
        let n = self.policy.categories.len();
        if n == 0 {
            return true;
        }
        let mut i: usize = 0;
        while i < n
            invariant
                n == self.policy.categories@.len(),
                i <= n,
                forall|j: int| 0 <= j < i ==> !same_domain_spec(
                    #[trigger] self.policy.categories@[j]@,
                    skill_tag@,
                ),
            decreases n - i,
        {
            if same_domain(self.policy.categories[i].as_str(), skill_tag) {
                return true;
            }
            i = i + 1;
        }
        false
    }

    /// Eligibility of an inbound query from this contact: depth and category
    /// only, nothing is recorded.
    pub fn accepts_incoming(&self, hops_from_origin: u8, skill_tag: &str) -> (r: bool)
        ensures
            r == (hops_from_origin <= self.policy.accept_depth && category_allows_spec(
                self.policy,
                skill_tag@,
            )),
    {
        hops_from_origin <= self.policy.accept_depth && self.category_allows(skill_tag)
    }

    /// Record one incoming query at `now` (unix seconds). A new day opens a
    /// fresh window; the query is refused (and not counted) once the day's
    /// count has reached `rate_limit`.
    pub fn record_incoming(&mut self, now: u64) -> (r: bool)
        ensures
            r == (old(self).count_at(now) < old(self).policy.rate_limit),
            final(self).window_day() == Some(day_of(now)),
            final(self).window_count() == if r {
                (old(self).count_at(now) + 1) as u32
            } else {
                old(self).count_at(now)
            },
            final(self).pubkey == old(self).pubkey,
            final(self).policy == old(self).policy,
            final(self).cached_skill_tags == old(self).cached_skill_tags,
            final(self).earned_skill_tags == old(self).earned_skill_tags,
    {
        let day = now / DAY_SECS;
        let same_day = match self.rate_window.day {
            Some(d) => d == day,
            None => false,
        };
        if !same_day {
            self.rate_window = RateWindow { day: Some(day), count: 0 };
        }
        if self.rate_window.count >= self.policy.rate_limit {
            return false;
        }
        self.rate_window.count = self.rate_window.count + 1;
        true
    }

    /// Outbound cap: may a query be extended along this edge at
    /// `outgoing_hops_from_origin`?
    pub fn allows_relay_at(&self, outgoing_hops_from_origin: u8) -> (r: bool)
        ensures
            r == (outgoing_hops_from_origin <= self.policy.relay_depth),
    {
        outgoing_hops_from_origin <= self.policy.relay_depth
    }
}

} // verus!
