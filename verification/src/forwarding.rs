//! What a node does with a skill query it holds: whether it answers it
//! itself, whether that answer goes back upstream, and which contacts the
//! query is forwarded to. Building and signing the answer and the forwarded
//! queries is the caller's work; this module decides.

use vstd::prelude::*;

use crate::contact::Contact;
use crate::routing::{bucket, firsts, matched, ranked_spec, select_forward_targets, GREEDY_FANOUT};
use crate::text::{str_eq, strs};

verus! {

/// The decision for one query.
pub struct RelayPlan<'a> {
    /// The queried tag is one of this node's own declared or earned tags.
    pub own_match: bool,
    /// An answer goes to whoever forwarded the query here: there is a match
    /// and a received event to answer.
    pub answer_upstream: bool,
    /// The contacts the query goes on to, in the order chosen.
    pub forwards: Vec<&'a Contact>,
}

/// An optional name as text.
pub open spec fn opt_view(o: Option<&str>) -> Option<Seq<char>> {
    match o {
        Some(s) => Some(s@),
        None => None,
    }
}

/// `cs` without the contact whose key is `exclude`, in order.
pub open spec fn excluding<'a>(cs: Seq<&'a Contact>, exclude: Option<Seq<char>>) -> Seq<&'a Contact>
    decreases cs.len(),
{
    if cs.len() == 0 {
        Seq::empty()
    } else {
        let prev = excluding(cs.drop_last(), exclude);
        if exclude == Some(cs.last().pubkey@) {
            prev
        } else {
            prev.push(cs.last())
        }
    }
}

/// The contacts of `cs` whose policy lets a query go on at `hops` from
/// its origin, in order.
pub open spec fn relaying_at<'a>(cs: Seq<&'a Contact>, hops: u8) -> Seq<&'a Contact>
    decreases cs.len(),
{
    if cs.len() == 0 {
        Seq::empty()
    } else {
        let prev = relaying_at(cs.drop_last(), hops);
        if hops <= cs.last().policy.relay_depth {
            prev.push(cs.last())
        } else {
            prev
        }
    }
}

/// Whether `t` is among `v`.
fn has_tag(v: &[String], t: &str) -> (r: bool)
    ensures
        r == strs(v@).contains(t@),
{
    let mut i: usize = 0;
    while i < v.len()
        invariant
            i <= v@.len(),
            forall|j: int| 0 <= j < i ==> v@[j]@ != t@,
        decreases v.len() - i,
    {
        if str_eq(v[i].as_str(), t) {
            assert(strs(v@)[i as int] == t@);
            return true;
        }
        i = i + 1;
    }
    proof {
        if strs(v@).contains(t@) {
            let k = choose|k: int| 0 <= k < strs(v@).len() && strs(v@)[k] == t@;
            assert(v@[k]@ == t@);
        }
    }
    false
}

/// Decide what to do with a query for `skill_tag` that goes on at
/// `outgoing_hops` from its origin, with at most `max_hops`: a match
/// against this node's declared tags `own_tags` or earned tags `earned` is
/// its own answer, sent upstream when the query arrived as an event
/// (`has_received`); while `outgoing_hops` is below `max_hops` the query is
/// forwarded to the greedy selection among `contacts` other than
/// `exclude` (the one it came from), keeping those whose policy relays at
/// that depth.
pub fn relay_plan<'a>(
    own_tags: &[String],
    earned: &[String],
    contacts: &[&'a Contact],
    exclude: Option<&str>,
    skill_tag: &str,
    outgoing_hops: u8,
    max_hops: u8,
    has_received: bool,
) -> (r: RelayPlan<'a>)
    ensures
        r.own_match == (strs(own_tags@).contains(skill_tag@) || strs(earned@).contains(skill_tag@)),
        r.answer_upstream == (r.own_match && has_received),
        outgoing_hops >= max_hops ==> r.forwards@.len() == 0,
        outgoing_hops < max_hops ==> r.forwards@ == relaying_at(
            firsts(ranked_spec(excluding(contacts@, opt_view(exclude)), skill_tag@)),
            outgoing_hops,
        ),
{
    let own_match = has_tag(own_tags, skill_tag) || has_tag(earned, skill_tag);
    let mut forwards: Vec<&'a Contact> = Vec::new();
    if outgoing_hops < max_hops {
        let ghost ex = opt_view(exclude);
        let mut candidates: Vec<&'a Contact> = Vec::new();
        let mut i: usize = 0;
        while i < contacts.len()
            invariant
                i <= contacts@.len(),
                ex == opt_view(exclude),
                candidates@ == excluding(contacts@.take(i as int), ex),
            decreases contacts.len() - i,
        {
            proof {
                assert(contacts@.take(i + 1).drop_last() =~= contacts@.take(i as int));
                assert(contacts@.take(i + 1).last() == contacts@[i as int]);
            }
            let c = contacts[i];
            let skip = match exclude {
                Some(x) => str_eq(c.pubkey.as_str(), x),
                None => false,
            };
            if !skip {
                candidates.push(c);
            }
            i = i + 1;
        }
        assert(contacts@.take(contacts@.len() as int) =~= contacts@);
        let targets = select_forward_targets(candidates.as_slice(), skill_tag);
        let mut j: usize = 0;
        while j < targets.len()
            invariant
                j <= targets@.len(),
                forwards@ == relaying_at(targets@.take(j as int), outgoing_hops),
            decreases targets.len() - j,
        {
            proof {
                assert(targets@.take(j + 1).drop_last() =~= targets@.take(j as int));
                assert(targets@.take(j + 1).last() == targets@[j as int]);
            }
            let c = targets[j];
            if c.allows_relay_at(outgoing_hops) {
                forwards.push(c);
            }
            j = j + 1;
        }
        assert(targets@.take(targets@.len() as int) =~= targets@);
    }
    RelayPlan { own_match, answer_upstream: own_match && has_received, forwards }
}

/// No contact in `cs` has the key `ex`.
pub open spec fn avoids<'a>(cs: Seq<&'a Contact>, ex: Option<Seq<char>>) -> bool {
    forall|i: int| 0 <= i < cs.len() ==> Some((#[trigger] cs[i]).pubkey@) != ex
}

proof fn lemma_excluding_avoids<'a>(cs: Seq<&'a Contact>, ex: Option<Seq<char>>)
    ensures
        avoids(excluding(cs, ex), ex),
    decreases cs.len(),
{
    if cs.len() > 0 {
        lemma_excluding_avoids(cs.drop_last(), ex);
    }
}

proof fn lemma_bucket_avoids<'a>(cs: Seq<&'a Contact>, want: Seq<char>, k: int, ex: Option<Seq<char>>)
    requires
        avoids(cs, ex),
    ensures
        avoids(firsts(bucket(cs, want, k)), ex),
    decreases cs.len(),
{
    if cs.len() > 0 {
        assert forall|i: int| 0 <= i < cs.drop_last().len() implies Some((#[trigger] cs.drop_last()[i]).pubkey@) != ex by {
            assert(cs.drop_last()[i] == cs[i]);
        }
        lemma_bucket_avoids(cs.drop_last(), want, k, ex);
        assert(cs[cs.len() - 1] == cs.last());
        let prev = bucket(cs.drop_last(), want, k);
        if crate::routing::tier(*cs.last(), want) == k {
            assert(firsts(bucket(cs, want, k)) =~= firsts(prev).push(cs.last()));
        } else {
            assert(bucket(cs, want, k) == prev);
        }
    }
}

proof fn lemma_relaying_avoids<'a>(cs: Seq<&'a Contact>, hops: u8, ex: Option<Seq<char>>)
    requires
        avoids(cs, ex),
    ensures
        avoids(relaying_at(cs, hops), ex),
    decreases cs.len(),
{
    if cs.len() > 0 {
        assert forall|i: int| 0 <= i < cs.drop_last().len() implies Some((#[trigger] cs.drop_last()[i]).pubkey@) != ex by {
            assert(cs.drop_last()[i] == cs[i]);
        }
        lemma_relaying_avoids(cs.drop_last(), hops, ex);
        assert(cs[cs.len() - 1] == cs.last());
    }
}

/// A query is never forwarded back to the contact it came from.
pub proof fn law_never_back_to_sender<'a>(cs: Seq<&'a Contact>, exclude: Option<Seq<char>>, want: Seq<char>, hops: u8)
    ensures
        avoids(relaying_at(firsts(ranked_spec(excluding(cs, exclude), want)), hops), exclude),
{
    let e = excluding(cs, exclude);
    lemma_excluding_avoids(cs, exclude);
    lemma_bucket_avoids(e, want, 0, exclude);
    lemma_bucket_avoids(e, want, 1, exclude);
    lemma_bucket_avoids(e, want, 2, exclude);
    lemma_bucket_avoids(e, want, 3, exclude);
    lemma_bucket_avoids(e, want, 4, exclude);
    let m = matched(e, want);
    let all = if m.len() < GREEDY_FANOUT { m + bucket(e, want, 4) } else { m };
    assert(avoids(firsts(all), exclude)) by {
        assert forall|i: int| 0 <= i < firsts(all).len() implies Some((#[trigger] firsts(all)[i]).pubkey@) != exclude by {
            let b0 = bucket(e, want, 0);
            let b1 = bucket(e, want, 1);
            let b2 = bucket(e, want, 2);
            let b3 = bucket(e, want, 3);
            let b4 = bucket(e, want, 4);
            let n0 = b0.len() as int;
            let n1 = n0 + b1.len();
            let n2 = n1 + b2.len();
            let n3 = n2 + b3.len();
            assert(firsts(all)[i] == all[i].0);
            if i < n0 {
                assert(all[i] == b0[i]);
                assert(firsts(b0)[i] == b0[i].0);
            } else if i < n1 {
                assert(all[i] == b1[i - n0]);
                assert(firsts(b1)[i - n0] == b1[i - n0].0);
            } else if i < n2 {
                assert(all[i] == b2[i - n1]);
                assert(firsts(b2)[i - n1] == b2[i - n1].0);
            } else if i < n3 {
                assert(all[i] == b3[i - n2]);
                assert(firsts(b3)[i - n2] == b3[i - n2].0);
            } else {
                assert(all[i] == b4[i - n3]);
                assert(firsts(b4)[i - n3] == b4[i - n3].0);
            }
        }
    }
    let r = ranked_spec(e, want);
    assert(avoids(firsts(r), exclude)) by {
        assert forall|i: int| 0 <= i < firsts(r).len() implies Some((#[trigger] firsts(r)[i]).pubkey@) != exclude by {
            assert(r[i] == all[i]);
            assert(firsts(all)[i] == all[i].0);
        }
    }
    lemma_relaying_avoids(firsts(r), hops, exclude);
}

/// Where the answer to a relayed query goes: the contact (or requester) it
/// came from, and the id of the event it arrived in, if it arrived as one.
pub type RouteView = (Seq<char>, Option<Seq<char>>);

/// The routes as a map from query id, built by taking entries in order.
pub open spec fn routes_of(e: Seq<(String, String, Option<String>)>) -> Map<Seq<char>, RouteView>
    decreases e.len(),
{
    if e.len() == 0 {
        Map::empty()
    } else {
        routes_of(e.drop_last()).insert(
            e.last().0@,
            (
                e.last().1@,
                match e.last().2 {
                    Some(x) => Some(x@),
                    None => None,
                },
            ),
        )
    }
}

/// Taking in a query: the first arrival of a query id records its route;
/// a later arrival of the same id changes nothing.
pub open spec fn arrival_spec(m: Map<Seq<char>, RouteView>, q: Seq<char>, v: RouteView) -> Map<Seq<char>, RouteView> {
    if m.contains_key(q) {
        m
    } else {
        m.insert(q, v)
    }
}

/// The queries this node has taken in, each with the route its answer goes
/// back by.
pub struct RelayTable {
    entries: Vec<(String, String, Option<String>)>,
}

proof fn lemma_routes_keys(e: Seq<(String, String, Option<String>)>, k: Seq<char>)
    ensures
        routes_of(e).contains_key(k) <==> exists|i: int| 0 <= i < e.len() && (#[trigger] e[i]).0@ == k,
    decreases e.len(),
{
    if e.len() > 0 {
        lemma_routes_keys(e.drop_last(), k);
        if exists|i: int| 0 <= i < e.drop_last().len() && (#[trigger] e.drop_last()[i]).0@ == k {
            let i = choose|i: int| 0 <= i < e.drop_last().len() && (#[trigger] e.drop_last()[i]).0@ == k;
            assert(e[i] == e.drop_last()[i]);
        }
        if exists|i: int| 0 <= i < e.len() && (#[trigger] e[i]).0@ == k {
            let i = choose|i: int| 0 <= i < e.len() && (#[trigger] e[i]).0@ == k;
            if i < e.len() - 1 {
                assert(e.drop_last()[i] == e[i]);
            }
        }
    }
}

impl RelayTable {
    /// The route recorded for each query id taken in.
    pub closed spec fn routes(&self) -> Map<Seq<char>, RouteView> {
        routes_of(self.entries@)
    }

    /// No query id is recorded twice.
    pub closed spec fn wf(&self) -> bool {
        forall|a: int, b: int| 0 <= a < b < self.entries@.len() ==> (#[trigger] self.entries@[a]).0@ != (
        #[trigger] self.entries@[b]).0@
    }

    /// A table that has taken in nothing.
    pub fn new() -> (r: Self)
        ensures
            r.wf(),
            r.routes() == Map::<Seq<char>, RouteView>::empty(),
    {
        RelayTable { entries: Vec::new() }
    }

    fn find(&self, query_id: &str) -> (r: Option<usize>)
        requires
            self.wf(),
        ensures
            match r {
                Some(i) => i < self.entries@.len() && self.entries@[i as int].0@ == query_id@,
                None => forall|j: int| 0 <= j < self.entries@.len() ==> (#[trigger] self.entries@[j]).0@ != query_id@,
            },
    {
        let mut i: usize = 0;
        while i < self.entries.len()
            invariant
                i <= self.entries@.len(),
                forall|j: int| 0 <= j < i ==> (#[trigger] self.entries@[j]).0@ != query_id@,
            decreases self.entries.len() - i,
        {
            if str_eq(self.entries[i].0.as_str(), query_id) {
                return Some(i);
            }
            i = i + 1;
        }
        None
    }

    /// Take in query `query_id`, arrived from `upstream` (in the event
    /// `received`, if it arrived as one). The first arrival of an id
    /// records its route and answers `true`; a repeat answers `false` and
    /// changes nothing, so the query is not processed again.
    pub fn take_in(&mut self, query_id: &str, upstream: &str, received: Option<&str>) -> (r: bool)
        requires
            old(self).wf(),
        ensures
            final(self).wf(),
            r == !old(self).routes().contains_key(query_id@),
            final(self).routes() == arrival_spec(old(self).routes(), query_id@, (upstream@, opt_view(received))),
    {
        proof {
            lemma_routes_keys(self.entries@, query_id@);
        }
        if self.find(query_id).is_some() {
            return false;
        }
        let rec = match received {
            Some(x) => Some(x.to_string()),
            None => None,
        };
        let ghost before = self.entries@;
        self.entries.push((query_id.to_string(), upstream.to_string(), rec));
        proof {
            assert(self.entries@.drop_last() =~= before);
            assert forall|a: int, b: int| 0 <= a < b < self.entries@.len() implies (#[trigger] self.entries@[a]).0@
                != (#[trigger] self.entries@[b]).0@ by {
                if b == before.len() {
                    assert(self.entries@[a] == before[a]);
                }
            }
        }
        true
    }

    /// Where the answer to `query_id` goes: the upstream it came from and
    /// the event to reference, or `None` for a query never taken in.
    pub fn route(&self, query_id: &str) -> (r: Option<(String, Option<String>)>)
        requires
            self.wf(),
        ensures
            match r {
                Some((to, ev)) => self.routes().contains_key(query_id@) && self.routes()[query_id@] == (
                    to@,
                    match ev {
                        Some(x) => Some(x@),
                        None => None,
                    },
                ),
                None => !self.routes().contains_key(query_id@),
            },
    {
        proof {
            lemma_routes_keys(self.entries@, query_id@);
        }
        match self.find(query_id) {
            None => None,
            Some(i) => {
                proof {
                    lemma_routes_at(self.entries@, i as int);
                }
                let ev = match &self.entries[i].2 {
                    Some(x) => Some(x.clone()),
                    None => None,
                };
                Some((self.entries[i].1.clone(), ev))
            },
        }
    }
}

proof fn lemma_routes_at(e: Seq<(String, String, Option<String>)>, i: int)
    requires
        0 <= i < e.len(),
        forall|a: int, b: int| 0 <= a < b < e.len() ==> (#[trigger] e[a]).0@ != (#[trigger] e[b]).0@,
    ensures
        routes_of(e).contains_key(e[i].0@),
        routes_of(e)[e[i].0@] == (
            e[i].1@,
            match e[i].2 {
                Some(x) => Some(x@),
                None => None,
            },
        ),
    decreases e.len(),
{
    if i < e.len() - 1 {
        let d = e.drop_last();
        assert(d[i] == e[i]);
        assert forall|a: int, b: int| 0 <= a < b < d.len() implies (#[trigger] d[a]).0@ != (#[trigger] d[b]).0@ by {
            assert(d[a] == e[a] && d[b] == e[b]);
        }
        lemma_routes_at(d, i);
        assert(e[e.len() - 1] == e.last());
    }
}

/// The first arrival of a query fixes where its answer goes: taking the
/// same query in again, from anywhere, leaves every route as it was.
pub proof fn law_first_arrival_wins(m: Map<Seq<char>, RouteView>, q: Seq<char>, first: RouteView, again: RouteView)
    ensures
        arrival_spec(arrival_spec(m, q, first), q, again) == arrival_spec(m, q, first),
        !m.contains_key(q) ==> arrival_spec(m, q, first)[q] == first,
        m.contains_key(q) ==> arrival_spec(m, q, first) == m,
{
}

} // verus!
