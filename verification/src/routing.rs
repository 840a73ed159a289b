//! Greedy, small-world routing: forward a query only to tag-similar
//! contacts, never flood. Similarity is measured against a contact's earned
//! tags (countersigned work) and declared tags (self-published), earned
//! first at each precision level, precision first overall.

use vstd::prelude::*;

use crate::contact::Contact;
use crate::text::{chars_eq, chars_of};

verus! {

/// Fanout cap: a query goes to at most this many contacts.
pub const GREEDY_FANOUT: usize = 3;

/// Where the `sector/domain` part of a tag ends, scanning from `i` with
/// `slashes` separators already seen: at a `#`, at the second `/`, or at the
/// end. `None` when that part does not hold exactly one `/`.
pub open spec fn domain_end_from(t: Seq<char>, i: int, slashes: nat) -> Option<int>
    decreases t.len() - i,
{
    if i >= t.len() || i < 0 {
        if slashes == 1 { Some(t.len() as int) } else { None }
    } else if t[i] == '#' {
        if slashes == 1 { Some(i) } else { None }
    } else if t[i] == '/' {
        if slashes == 1 { Some(i) } else { domain_end_from(t, i + 1, slashes + 1) }
    } else {
        domain_end_from(t, i + 1, slashes)
    }
}

/// The `sector/domain` prefix of a skill tag (`sector/domain[/area]#skill`)
/// or of a category (`sector/domain`), if it has one.
pub open spec fn tag_domain(t: Seq<char>) -> Option<Seq<char>> {
    match domain_end_from(t, 0, 0) {
        Some(e) => Some(t.subrange(0, e)),
        None => None,
    }
}

/// Two tags are in the same domain when both have a `sector/domain` prefix
/// and the prefixes are equal.
pub open spec fn same_domain_spec(a: Seq<char>, b: Seq<char>) -> bool {
    tag_domain(a) is Some && tag_domain(a) == tag_domain(b)
}

proof fn lemma_domain_end_bounds(t: Seq<char>, i: int, slashes: nat)
    requires
        0 <= i,
    ensures
        domain_end_from(t, i, slashes) matches Some(e) ==> i <= e <= t.len() || (i > t.len()
            && e == t.len()),
    decreases t.len() - i,
{
    if i < t.len() && t[i] != '#' && !(t[i] == '/' && slashes == 1) {
        lemma_domain_end_bounds(t, i + 1, if t[i] == '/' { slashes + 1 } else { slashes });
    }
}

fn domain_end(t: &Vec<char>) -> (r: Option<usize>)
    ensures
        r matches Some(e) ==> e <= t@.len(),
        domain_end_from(t@, 0, 0) == (match r {
            Some(e) => Some(e as int),
            None => None::<int>,
        }),
{
    let mut i: usize = 0;
    let mut slashes: usize = 0;
    while i < t.len()
        invariant
            i <= t@.len(),
            slashes <= 1,
            domain_end_from(t@, 0, 0) == domain_end_from(t@, i as int, slashes as nat),
        decreases t.len() - i,
    {
        if t[i] == '#' {
            if slashes == 1 {
                return Some(i);
            } else {
                return None;
            }
        }
        if t[i] == '/' {
            if slashes == 1 {
                return Some(i);
            }
            slashes = slashes + 1;
        }
        i = i + 1;
    }
    if slashes == 1 {
        Some(t.len())
    } else {
        None
    }
}

/// Do `a` and `b` share their `sector/domain` prefix?
pub fn same_domain(a: &str, b: &str) -> (r: bool)
    ensures
        r == same_domain_spec(a@, b@),
{
    let ca = chars_of(a);
    let cb = chars_of(b);
    match (domain_end(&ca), domain_end(&cb)) {
        (Some(ea), Some(eb)) => {
            assert(tag_domain(a@) == Some(ca@.subrange(0, ea as int)));
            assert(tag_domain(b@) == Some(cb@.subrange(0, eb as int)));
            if ea != eb {
                proof {
                    assert(ca@.subrange(0, ea as int).len() != cb@.subrange(0, eb as int).len());
                    assert(ca@.subrange(0, ea as int) != cb@.subrange(0, eb as int));
                }
                return false;
            }
            let mut i: usize = 0;
            while i < ea
                invariant
                    ea == eb,
                    ea <= ca@.len(),
                    eb <= cb@.len(),
                    i <= ea,
                    tag_domain(a@) == Some(ca@.subrange(0, ea as int)),
                    tag_domain(b@) == Some(cb@.subrange(0, eb as int)),
                    forall|j: int| 0 <= j < i ==> ca@[j] == cb@[j],
                decreases ea - i,
            {
                if ca[i] != cb[i] {
                    proof {
                        assert(ca@.subrange(0, ea as int)[i as int] != cb@.subrange(
                            0,
                            eb as int,
                        )[i as int]);
                        assert(ca@.subrange(0, ea as int) != cb@.subrange(0, eb as int));
                    }
                    return false;
                }
                i = i + 1;
            }
            assert(ca@.subrange(0, ea as int) =~= cb@.subrange(0, eb as int));
            true
        },
        (Some(_), None) => false,
        (None, _) => false,
    }
}

/// Why a contact was selected.
#[derive(Debug, Clone, Copy, PartialEq, Eq, Structural)]
pub enum MatchSource {
    /// Tag of a contract the contact completed and a counterparty
    /// countersigned.
    Earned,
    /// Tag from the contact's self-published profile.
    Declared,
    /// Nothing matched; selected only to keep a forward path open.
    Fallback,
}

/// `tags` holds `want` exactly.
pub open spec fn tags_have(tags: Seq<String>, want: Seq<char>) -> bool {
    exists|i: int| 0 <= i < tags.len() && #[trigger] tags[i]@ == want
}

/// `tags` holds a tag in the same domain as `want`.
pub open spec fn tags_near(tags: Seq<String>, want: Seq<char>) -> bool {
    exists|i: int| 0 <= i < tags.len() && same_domain_spec(#[trigger] tags[i]@, want)
}

/// The rank tier of a contact for `want`: 0 earned exact, 1 declared exact,
/// 2 earned same-domain, 3 declared same-domain, 4 fallback.
pub open spec fn tier(c: Contact, want: Seq<char>) -> int {
    if tags_have(c.earned_skill_tags@, want) {
        0
    } else if tags_have(c.cached_skill_tags@, want) {
        1
    } else if tags_near(c.earned_skill_tags@, want) {
        2
    } else if tags_near(c.cached_skill_tags@, want) {
        3
    } else {
        4
    }
}

/// The provenance label of a tier.
pub open spec fn tier_source(k: int) -> MatchSource {
    if k == 0 || k == 2 {
        MatchSource::Earned
    } else if k == 1 || k == 3 {
        MatchSource::Declared
    } else {
        MatchSource::Fallback
    }
}

/// The contacts of `cs` in tier `k`, in input order, each with its label.
pub open spec fn bucket<'a>(cs: Seq<&'a Contact>, want: Seq<char>, k: int) -> Seq<
    (&'a Contact, MatchSource),
>
    decreases cs.len(),
{
    if cs.len() == 0 {
        Seq::empty()
    } else {
        let prev = bucket(cs.drop_last(), want, k);
        if tier(*cs.last(), want) == k {
            prev.push((cs.last(), tier_source(k)))
        } else {
            prev
        }
    }
}

/// The tag-matched selection before the cap: tiers 0 to 3 in rank order.
pub open spec fn matched<'a>(cs: Seq<&'a Contact>, want: Seq<char>) -> Seq<
    (&'a Contact, MatchSource),
> {
    bucket(cs, want, 0) + bucket(cs, want, 1) + bucket(cs, want, 2) + bucket(cs, want, 3)
}

/// The ranked, capped selection: the matched contacts, topped up with the
/// fallback tier only when fewer than the fanout matched, then cut to the
/// fanout.
pub open spec fn ranked_spec<'a>(cs: Seq<&'a Contact>, want: Seq<char>) -> Seq<
    (&'a Contact, MatchSource),
> {
    let m = matched(cs, want);
    let all = if m.len() < GREEDY_FANOUT { m + bucket(cs, want, 4) } else { m };
    if all.len() <= GREEDY_FANOUT {
        all
    } else {
        all.take(GREEDY_FANOUT as int)
    }
}

fn tags_have_exec(tags: &Vec<String>, want: &str) -> (r: bool)
    ensures
        r == tags_have(tags@, want@),
{
    let mut i: usize = 0;
    while i < tags.len()
        invariant
            i <= tags@.len(),
            forall|j: int| 0 <= j < i ==> #[trigger] tags@[j]@ != want@,
        decreases tags.len() - i,
    {
        if crate::text::str_eq(tags[i].as_str(), want) {
            return true;
        }
        i = i + 1;
    }
    false
}

fn tags_near_exec(tags: &Vec<String>, want: &str) -> (r: bool)
    ensures
        r == tags_near(tags@, want@),
{
    let mut i: usize = 0;
    while i < tags.len()
        invariant
            i <= tags@.len(),
            forall|j: int| 0 <= j < i ==> !same_domain_spec(#[trigger] tags@[j]@, want@),
        decreases tags.len() - i,
    {
        if same_domain(tags[i].as_str(), want) {
            return true;
        }
        i = i + 1;
    }
    false
}

fn tier_of(c: &Contact, want: &str) -> (k: u8)
    ensures
        k as int == tier(*c, want@),
{
    if tags_have_exec(&c.earned_skill_tags, want) {
        0
    } else if tags_have_exec(&c.cached_skill_tags, want) {
        1
    } else if tags_near_exec(&c.earned_skill_tags, want) {
        2
    } else if tags_near_exec(&c.cached_skill_tags, want) {
        3
    } else {
        4
    }
}

fn source_of(k: u8) -> (s: MatchSource)
    ensures
        s == tier_source(k as int),
{
    if k == 0 || k == 2 {
        MatchSource::Earned
    } else if k == 1 || k == 3 {
        MatchSource::Declared
    } else {
        MatchSource::Fallback
    }
}

fn append_all<'a>(dst: &mut Vec<(&'a Contact, MatchSource)>, src: Vec<(&'a Contact, MatchSource)>)
    ensures
        final(dst)@ == old(dst)@ + src@,
{
    let mut s = src;
    dst.append(&mut s);
}

/// Rank-then-cap selection of forward targets for `skill_tag`: earned exact,
/// declared exact, earned same-domain, declared same-domain, then (only when
/// fewer than [`GREEDY_FANOUT`] matched) everyone else as fallback; at most
/// [`GREEDY_FANOUT`] in all.
pub fn select_forward_targets_ranked<'a>(contacts: &[&'a Contact], skill_tag: &str) -> (r: Vec<
    (&'a Contact, MatchSource),
>)
    ensures
        r@ == ranked_spec(contacts@, skill_tag@),
{
    let mut b0: Vec<(&'a Contact, MatchSource)> = Vec::new();
    let mut b1: Vec<(&'a Contact, MatchSource)> = Vec::new();
    let mut b2: Vec<(&'a Contact, MatchSource)> = Vec::new();
    let mut b3: Vec<(&'a Contact, MatchSource)> = Vec::new();
    let mut b4: Vec<(&'a Contact, MatchSource)> = Vec::new();
    let ghost want = skill_tag@;
    let mut i: usize = 0;
    while i < contacts.len()
        invariant
            i <= contacts@.len(),
            want == skill_tag@,
            b0@ == bucket(contacts@.take(i as int), want, 0),
            b1@ == bucket(contacts@.take(i as int), want, 1),
            b2@ == bucket(contacts@.take(i as int), want, 2),
            b3@ == bucket(contacts@.take(i as int), want, 3),
            b4@ == bucket(contacts@.take(i as int), want, 4),
        decreases contacts.len() - i,
    {
        let c = contacts[i];
        let k = tier_of(c, skill_tag);
        let entry = (c, source_of(k));
        if k == 0 {
            b0.push(entry);
        } else if k == 1 {
            b1.push(entry);
        } else if k == 2 {
            b2.push(entry);
        } else if k == 3 {
            b3.push(entry);
        } else {
            b4.push(entry);
        }
        proof {
            assert(contacts@.take(i + 1).drop_last() =~= contacts@.take(i as int));
            assert(contacts@.take(i + 1).last() == contacts@[i as int]);
        }
        i = i + 1;
    }
    proof {
        assert(contacts@.take(contacts@.len() as int) =~= contacts@);
    }
    let mut selected = b0;
    append_all(&mut selected, b1);
    append_all(&mut selected, b2);
    append_all(&mut selected, b3);
    if selected.len() < GREEDY_FANOUT {
        append_all(&mut selected, b4);
    }
    if selected.len() > GREEDY_FANOUT {
        selected.truncate(GREEDY_FANOUT);
    }
    selected
}

/// The first components of a ranked selection.
pub open spec fn firsts<'a>(s: Seq<(&'a Contact, MatchSource)>) -> Seq<&'a Contact> {
    s.map_values(|p: (&'a Contact, MatchSource)| p.0)
}

/// [`select_forward_targets_ranked`] without the provenance labels.
pub fn select_forward_targets<'a>(contacts: &[&'a Contact], skill_tag: &str) -> (r: Vec<
    &'a Contact,
>)
    ensures
        r@ == firsts(ranked_spec(contacts@, skill_tag@)),
{
    let ranked = select_forward_targets_ranked(contacts, skill_tag);
    let mut out: Vec<&'a Contact> = Vec::new();
    let mut i: usize = 0;
    while i < ranked.len()
        invariant
            i <= ranked@.len(),
            out@ =~= firsts(ranked@.take(i as int)),
        decreases ranked.len() - i,
    {
        out.push(ranked[i].0);
        i = i + 1;
    }
    assert(ranked@.take(ranked@.len() as int) =~= ranked@);
    out
}

} // verus!

verus! {

/// Every entry of tier `k`'s bucket is a contact of tier `k`, labelled with
/// that tier's source, and drawn from `cs`.
proof fn lemma_bucket_members<'a>(cs: Seq<&'a Contact>, want: Seq<char>, k: int)
    ensures
        forall|j: int|
            0 <= j < bucket(cs, want, k).len() ==> {
                &&& tier(*(#[trigger] bucket(cs, want, k)[j]).0, want) == k
                &&& bucket(cs, want, k)[j].1 == tier_source(k)
                &&& cs.contains(bucket(cs, want, k)[j].0)
            },
        bucket(cs, want, k).len() <= cs.len(),
    decreases cs.len(),
{
    if cs.len() > 0 {
        lemma_bucket_members(cs.drop_last(), want, k);
        let prev = bucket(cs.drop_last(), want, k);
        assert forall|j: int| 0 <= j < prev.len() implies cs.contains(#[trigger] prev[j].0) by {
            assert(cs.drop_last().contains(prev[j].0));
            let w = choose|w: int| 0 <= w < cs.drop_last().len() && cs.drop_last()[w] == prev[j].0;
            assert(cs[w] == prev[j].0);
        }
        assert(cs[cs.len() - 1] == cs.last());
    }
}

/// A contact of tier `k` in `cs` appears in tier `k`'s bucket.
proof fn lemma_bucket_complete<'a>(cs: Seq<&'a Contact>, want: Seq<char>, k: int, i: int)
    requires
        0 <= i < cs.len(),
        tier(*cs[i], want) == k,
    ensures
        exists|j: int| 0 <= j < bucket(cs, want, k).len() && #[trigger] bucket(cs, want, k)[j].0 == cs[i],
    decreases cs.len(),
{
    let b = bucket(cs, want, k);
    if i == cs.len() - 1 {
        assert(b[b.len() - 1].0 == cs[i]);
    } else {
        lemma_bucket_complete(cs.drop_last(), want, k, i);
        let prev = bucket(cs.drop_last(), want, k);
        let j = choose|j: int| 0 <= j < prev.len() && #[trigger] prev[j].0 == cs.drop_last()[i];
        assert(b[j] == prev[j]);
    }
}

/// The selection never exceeds the fanout cap.
pub proof fn law_selection_within_fanout<'a>(cs: Seq<&'a Contact>, want: Seq<char>)
    ensures
        ranked_spec(cs, want).len() <= GREEDY_FANOUT,
{
}

/// The selection is ordered by rank tier: an entry never follows one of a
/// worse tier, and each entry carries its tier's label.
pub proof fn law_selection_ranked<'a>(cs: Seq<&'a Contact>, want: Seq<char>)
    ensures
        forall|i: int, j: int|
            0 <= i < j < ranked_spec(cs, want).len() ==> tier(
                *(#[trigger] ranked_spec(cs, want)[i]).0,
                want,
            ) <= tier(*(#[trigger] ranked_spec(cs, want)[j]).0, want),
        forall|i: int|
            0 <= i < ranked_spec(cs, want).len() ==> (#[trigger] ranked_spec(cs, want)[i]).1
                == tier_source(tier(*ranked_spec(cs, want)[i].0, want)),
        forall|i: int| 0 <= i < ranked_spec(cs, want).len() ==> cs.contains(
            (#[trigger] ranked_spec(cs, want)[i]).0,
        ),
{
    lemma_bucket_members(cs, want, 0);
    lemma_bucket_members(cs, want, 1);
    lemma_bucket_members(cs, want, 2);
    lemma_bucket_members(cs, want, 3);
    lemma_bucket_members(cs, want, 4);
    let b0 = bucket(cs, want, 0);
    let b1 = bucket(cs, want, 1);
    let b2 = bucket(cs, want, 2);
    let b3 = bucket(cs, want, 3);
    let b4 = bucket(cs, want, 4);
    let m = matched(cs, want);
    let all = if m.len() < GREEDY_FANOUT { m + b4 } else { m };
    assert forall|i: int| 0 <= i < all.len() implies {
        &&& 0 <= tier(*(#[trigger] all[i]).0, want) <= 4
        &&& all[i].1 == tier_source(tier(*all[i].0, want))
        &&& cs.contains(all[i].0)
        &&& (i < b0.len() ==> tier(*all[i].0, want) == 0)
        &&& (b0.len() <= i < b0.len() + b1.len() ==> tier(*all[i].0, want) == 1)
        &&& (b0.len() + b1.len() <= i < b0.len() + b1.len() + b2.len() ==> tier(*all[i].0, want) == 2)
        &&& (b0.len() + b1.len() + b2.len() <= i < m.len() ==> tier(*all[i].0, want) == 3)
        &&& (m.len() <= i ==> tier(*all[i].0, want) == 4)
    } by {
        if i < b0.len() {
            assert(all[i] == b0[i]);
        } else if i < b0.len() + b1.len() {
            assert(all[i] == b1[i - b0.len()]);
        } else if i < b0.len() + b1.len() + b2.len() {
            assert(all[i] == b2[i - b0.len() - b1.len()]);
        } else if i < m.len() {
            assert(all[i] == b3[i - b0.len() - b1.len() - b2.len()]);
        } else {
            assert(all[i] == b4[i - m.len()]);
        }
    }
    let r = ranked_spec(cs, want);
    assert forall|i: int| 0 <= i < r.len() implies #[trigger] r[i] == all[i] by {}
}

/// The fallback tier is only drawn on when fewer contacts than the fanout
/// matched by tag: with enough matches, no fallback pick is made.
pub proof fn law_fallback_only_when_short<'a>(cs: Seq<&'a Contact>, want: Seq<char>)
    ensures
        matched(cs, want).len() >= GREEDY_FANOUT ==> forall|i: int|
            0 <= i < ranked_spec(cs, want).len() ==> (#[trigger] ranked_spec(cs, want)[i]).1
                != MatchSource::Fallback,
{
    law_selection_ranked(cs, want);
    if matched(cs, want).len() >= GREEDY_FANOUT {
        let m = matched(cs, want);
        lemma_bucket_members(cs, want, 0);
        lemma_bucket_members(cs, want, 1);
        lemma_bucket_members(cs, want, 2);
        lemma_bucket_members(cs, want, 3);
        let b0 = bucket(cs, want, 0);
        let b1 = bucket(cs, want, 1);
        let b2 = bucket(cs, want, 2);
        let b3 = bucket(cs, want, 3);
        assert forall|i: int| 0 <= i < m.len() implies (#[trigger] m[i]).1 != MatchSource::Fallback by {
            if i < b0.len() {
                assert(m[i] == b0[i]);
            } else if i < b0.len() + b1.len() {
                assert(m[i] == b1[i - b0.len()]);
            } else if i < b0.len() + b1.len() + b2.len() {
                assert(m[i] == b2[i - b0.len() - b1.len()]);
            } else {
                assert(m[i] == b3[i - b0.len() - b1.len() - b2.len()]);
            }
        }
    }
}

/// A contact whose countersigned work holds the exact tag is always
/// selected while fewer than the fanout such contacts exist: evidence makes a
/// contact reachable even with no published profile.
pub proof fn law_earned_exact_is_reached<'a>(cs: Seq<&'a Contact>, want: Seq<char>, i: int)
    requires
        0 <= i < cs.len(),
        tags_have(cs[i].earned_skill_tags@, want),
        bucket(cs, want, 0).len() <= GREEDY_FANOUT,
    ensures
        exists|j: int| 0 <= j < ranked_spec(cs, want).len() && #[trigger] ranked_spec(cs, want)[j].0 == cs[i],
{
    lemma_bucket_complete(cs, want, 0, i);
    let b0 = bucket(cs, want, 0);
    let j = choose|j: int| 0 <= j < b0.len() && #[trigger] b0[j].0 == cs[i];
    let r = ranked_spec(cs, want);
    let m = matched(cs, want);
    assert(m[j] == b0[j]);
    assert(r[j] == m[j]);
}

} // verus!
