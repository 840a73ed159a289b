//! Everything this client has been handed, as held in memory: append-only,
//! verified on the way in and on the way out, one copy of each event.
//!
//! The file itself (one encoded event per line, appended, never
//! rewritten) is read and written by the caller; this side decides what a
//! set of lines holds and what an append adds. A line that does not decode
//! or does not verify is skipped and counted, so a corrupt store is visible
//! rather than merely smaller; a partly written trailing line costs that
//! one event.

use vstd::prelude::*;

use crate::events::{by_time, copy_event, ids_of, ids_unique, sort_by_time, HeldEvent};
use crate::ledger::{absorb_pull, absorb_spec, lemma_absorb_props, lemma_absorb_same_seen, merged};
use crate::text::{sorted_unique, strs};

verus! {

/// The decoded events among the lines of a store, in order.
pub open spec fn decoded(lines: Seq<Option<HeldEvent>>) -> Seq<HeldEvent>
    decreases lines.len(),
{
    if lines.len() == 0 {
        Seq::empty()
    } else {
        match lines.last() {
            Some(e) => decoded(lines.drop_last()).push(e),
            None => decoded(lines.drop_last()),
        }
    }
}

/// How many lines did not decode.
pub open spec fn undecoded(lines: Seq<Option<HeldEvent>>) -> nat
    decreases lines.len(),
{
    if lines.len() == 0 {
        0
    } else {
        match lines.last() {
            Some(_) => undecoded(lines.drop_last()),
            None => undecoded(lines.drop_last()) + 1,
        }
    }
}

/// The events held after a load: the verified decoded events, the first
/// of each id.
pub open spec fn loaded(lines: Seq<Option<HeldEvent>>) -> Seq<HeldEvent> {
    absorb_spec(Seq::empty(), decoded(lines)).0
}

/// The in-memory side of the event store.
pub struct EventStore {
    events: Vec<HeldEvent>,
    ids: Vec<String>,
    rejected: usize,
}

impl EventStore {
    /// Everything held, oldest first.
    pub closed spec fn held(&self) -> Seq<HeldEvent> {
        self.events@
    }

    /// The ids held.
    pub closed spec fn held_ids(&self) -> Seq<Seq<char>> {
        strs(self.ids@)
    }

    /// Lines of the loaded file that did not decode or did not verify.
    pub closed spec fn skipped(&self) -> nat {
        self.rejected as nat
    }

    /// A well-formed store's ids are the ids of what it holds.
    pub proof fn lemma_held_ids(&self)
        requires
            self.wf(),
        ensures
            forall|x: Seq<char>| #[trigger] self.held_ids().contains(x) <==> ids_of(self.held()).contains(x),
            by_time(self.held()),
            ids_unique(self.held()),
    {
    }

    /// Each event once, oldest first, and the id index agrees with it.
    pub closed spec fn wf(&self) -> bool {
        &&& sorted_unique(strs(self.ids@))
        &&& ids_unique(self.events@)
        &&& by_time(self.events@)
        &&& forall|x: Seq<char>| #[trigger] strs(self.ids@).contains(x) <==> ids_of(self.events@).contains(x)
    }

    /// An empty store: the first run, with no file yet.
    pub fn empty() -> (r: Self)
        ensures
            r.wf(),
            r.held().len() == 0,
            r.skipped() == 0,
            by_time(r.held()),
            ids_unique(r.held()),
    {
        EventStore { events: Vec::new(), ids: Vec::new(), rejected: 0 }
    }

    /// The store a file's non-blank lines describe, each line decoded by
    /// the caller (`None` when it did not decode): the verified events,
    /// the first of each id, oldest first; every line that did not decode
    /// or did not verify is counted as skipped, a repeated id is not.
    pub fn open(lines: Vec<Option<HeldEvent>>) -> (r: Self)
        ensures
            r.wf(),
            r.skipped() == undecoded(lines@) + absorb_spec(Seq::empty(), decoded(lines@)).1,
            r.held().len() == loaded(lines@).len(),
            forall|e: HeldEvent| r.held().contains(e) <==> loaded(lines@).contains(e),
            by_time(r.held()),
            ids_unique(r.held()),
    {
        let mut events: Vec<HeldEvent> = Vec::new();
        let mut missing: usize = 0;
        let mut i: usize = 0;
        while i < lines.len()
            invariant
                i <= lines@.len(),
                events@ == decoded(lines@.take(i as int)),
                missing == undecoded(lines@.take(i as int)),
                missing + events@.len() == i,
            decreases lines.len() - i,
        {
            proof {
                assert(lines@.take(i + 1).drop_last() =~= lines@.take(i as int));
                assert(lines@.take(i + 1).last() == lines@[i as int]);
            }
            match &lines[i] {
                Some(e) => {
                    events.push(copy_event(e));
                },
                None => {
                    missing = missing + 1;
                },
            }
            i = i + 1;
        }
        assert(lines@.take(lines@.len() as int) =~= lines@);
        let ghost all = events@;
        let mut ids: Vec<String> = Vec::new();
        let mut fresh: Vec<HeldEvent> = Vec::new();
        assert(strs(ids@) =~= Seq::<Seq<char>>::empty());
        let bad = absorb_pull(&mut ids, &mut fresh, events);
        proof {
            lemma_absorb_props(Seq::empty(), all);
            assert(fresh@ =~= absorb_spec(Seq::empty(), all).0);
        }
        let ghost unsorted = fresh@;
        let sorted = sort_by_time(fresh);
        proof {
            assert forall|x: Seq<char>| #[trigger] strs(ids@).contains(x) <==> ids_of(sorted@).contains(x) by {
                lemma_same_ids(unsorted, sorted@, x);
            }
        }
        EventStore { events: sorted, ids, rejected: missing + bad }
    }

    /// Everything held, oldest first.
    pub fn events(&self) -> (r: &[HeldEvent])
        ensures
            r@ == self.held(),
            self.wf() ==> by_time(r@) && ids_unique(r@),
    {
        self.events.as_slice()
    }

    /// How many events are held.
    pub fn len(&self) -> (r: usize)
        ensures
            r == self.held().len(),
    {
        self.events.len()
    }

    /// Nothing is held.
    pub fn is_empty(&self) -> (r: bool)
        ensures
            r == (self.held().len() == 0),
    {
        self.events.len() == 0
    }

    /// Lines of the loaded file that did not decode or did not verify.
    pub fn rejected(&self) -> (r: usize)
        ensures
            r == self.skipped(),
    {
        self.rejected
    }

    /// What appending `batch` would add, in order: its verified events not
    /// held yet, the first of each id. The caller writes these out before
    /// calling [`EventStore::append`].
    pub fn to_append(&self, batch: &[HeldEvent]) -> (r: Vec<HeldEvent>)
        requires
            self.wf(),
        ensures
            r@ == absorb_spec(self.held_ids(), batch@).0,
    {
        let mut ids: Vec<String> = Vec::new();
        let mut i: usize = 0;
        while i < self.ids.len()
            invariant
                i <= self.ids@.len(),
                ids@ == self.ids@.take(i as int),
            decreases self.ids.len() - i,
        {
            ids.push(self.ids[i].clone());
            assert(ids@ =~= self.ids@.take(i + 1));
            i = i + 1;
        }
        assert(self.ids@.take(self.ids@.len() as int) =~= self.ids@);
        assert(ids@ == self.ids@);
        let mut copy: Vec<HeldEvent> = Vec::new();
        let mut j: usize = 0;
        while j < batch.len()
            invariant
                j <= batch@.len(),
                copy@ == batch@.take(j as int),
            decreases batch.len() - j,
        {
            copy.push(copy_event(&batch[j]));
            assert(copy@ =~= batch@.take(j + 1));
            j = j + 1;
        }
        assert(batch@.take(batch@.len() as int) =~= batch@);
        let mut fresh: Vec<HeldEvent> = Vec::new();
        let _ = absorb_pull(&mut ids, &mut fresh, copy);
        assert(fresh@ =~= absorb_spec(strs(self.ids@), batch@).0);
        fresh
    }

    /// Add what a sync delivered; returns how many were new. An event that
    /// does not verify is refused, not stored and not counted as skipped;
    /// one already held, or repeated in the batch, is stored once.
    pub fn append(&mut self, batch: Vec<HeldEvent>) -> (n: usize)
        requires
            old(self).wf(),
        ensures
            final(self).wf(),
            n == absorb_spec(old(self).held_ids(), batch@).0.len(),
            final(self).held().len() == old(self).held().len() + n,
            forall|e: HeldEvent| final(self).held().contains(e) <==> (old(self).held().contains(e)
                || absorb_spec(old(self).held_ids(), batch@).0.contains(e)),
            forall|x: Seq<char>| #[trigger] final(self).held_ids().contains(x) <==> (old(self).held_ids().contains(x)
                || ids_of(absorb_spec(old(self).held_ids(), batch@).0).contains(x)),
            final(self).skipped() == old(self).skipped(),
            by_time(final(self).held()),
            ids_unique(final(self).held()),
            absorb_spec(old(self).held_ids(), batch@) == absorb_spec(ids_of(old(self).held()), batch@),
    {
        proof {
            lemma_absorb_same_seen(strs(self.ids@), ids_of(self.events@), batch@);
        }
        let ghost ids0 = strs(self.ids@);
        let ghost ev0 = self.events@;
        let mut fresh: Vec<HeldEvent> = Vec::new();
        let _ = absorb_pull(&mut self.ids, &mut fresh, batch);
        let ghost added = absorb_spec(ids0, batch@).0;
        assert(fresh@ =~= added);
        proof {
            lemma_absorb_props(ids0, batch@);
        }
        let n = fresh.len();
        let mut all: Vec<HeldEvent> = Vec::new();
        std::mem::swap(&mut all, &mut self.events);
        let mut k: usize = 0;
        while k < fresh.len()
            invariant
                k <= fresh@.len(),
                fresh@ == added,
                all@ == ev0 + added.take(k as int),
            decreases fresh.len() - k,
        {
            all.push(copy_event(&fresh[k]));
            assert(all@ =~= ev0 + added.take(k + 1));
            k = k + 1;
        }
        assert(added.take(added.len() as int) =~= added);
        let ghost joined = all@;
        proof {
            assert forall|a: int, b: int| 0 <= a < b < joined.len() implies (#[trigger] joined[a]).id@
                != (#[trigger] joined[b]).id@ by {
                if b >= ev0.len() && a < ev0.len() {
                    assert(joined[a] == ev0[a]);
                    assert(joined[b] == added[b - ev0.len()]);
                    assert(ids_of(ev0)[a] == ev0[a].id@);
                    assert(ids0.contains(ev0[a].id@));
                } else if a >= ev0.len() {
                    assert(joined[a] == added[a - ev0.len()] && joined[b] == added[b - ev0.len()]);
                } else {
                    assert(joined[a] == ev0[a] && joined[b] == ev0[b]);
                }
            }
        }
        let sorted = sort_by_time(all);
        self.events = sorted;
        proof {
            assert forall|e: HeldEvent| self.events@.contains(e) <==> (ev0.contains(e) || added.contains(e)) by {
                if joined.contains(e) {
                    let q = choose|q: int| 0 <= q < joined.len() && joined[q] == e;
                    if q < ev0.len() {
                        assert(ev0[q] == e);
                    } else {
                        assert(added[q - ev0.len()] == e);
                    }
                }
                if ev0.contains(e) {
                    let q = choose|q: int| 0 <= q < ev0.len() && ev0[q] == e;
                    assert(joined[q] == e);
                }
                if added.contains(e) {
                    let q = choose|q: int| 0 <= q < added.len() && added[q] == e;
                    assert(joined[ev0.len() + q] == e);
                }
            }
            assert forall|x: Seq<char>| #[trigger] strs(self.ids@).contains(x) <==> ids_of(self.events@).contains(x) by {
                lemma_same_ids(joined, self.events@, x);
                if ids_of(joined).contains(x) {
                    let q = choose|q: int| 0 <= q < ids_of(joined).len() && ids_of(joined)[q] == x;
                    if q < ev0.len() {
                        assert(ids_of(ev0)[q] == x);
                    } else {
                        assert(ids_of(added)[q - ev0.len()] == x);
                    }
                }
                if ids_of(ev0).contains(x) {
                    let q = choose|q: int| 0 <= q < ids_of(ev0).len() && ids_of(ev0)[q] == x;
                    assert(ids_of(joined)[q] == x);
                }
                if ids_of(added).contains(x) {
                    let q = choose|q: int| 0 <= q < ids_of(added).len() && ids_of(added)[q] == x;
                    assert(ids_of(joined)[ev0.len() + q] == x);
                }
            }
        }
        n
    }
}

/// The same event twice is stored once, across calls too: once a batch
/// has been appended (the ids held afterwards are those held before plus
/// those it added), appending the same batch again adds nothing.
pub proof fn law_appending_again_adds_nothing(before: Seq<Seq<char>>, after: Seq<Seq<char>>, batch: Seq<HeldEvent>)
    requires
        forall|x: Seq<char>| #[trigger] after.contains(x) <==> (before.contains(x) || ids_of(absorb_spec(before, batch).0).contains(x)),
    ensures
        absorb_spec(after, batch).0.len() == 0,
{
    let m = merged(before, batch);
    assert forall|x: Seq<char>| after.contains(x) <==> m.contains(x) by {
        if m.contains(x) {
            let k = choose|k: int| 0 <= k < m.len() && m[k] == x;
            if k < before.len() {
                assert(before[k] == x);
            } else {
                assert(ids_of(absorb_spec(before, batch).0)[k - before.len()] == x);
            }
        }
        if before.contains(x) {
            let k = choose|k: int| 0 <= k < before.len() && before[k] == x;
            assert(m[k] == x);
        }
        if ids_of(absorb_spec(before, batch).0).contains(x) {
            let f = ids_of(absorb_spec(before, batch).0);
            let k = choose|k: int| 0 <= k < f.len() && f[k] == x;
            assert(m[before.len() + k] == x);
        }
    }
    lemma_absorb_same_seen(after, m, batch);
    crate::ledger::law_merge_is_idempotent(before, batch);
}

/// Two lists with the same elements carry the same ids.
proof fn lemma_same_ids(a: Seq<HeldEvent>, b: Seq<HeldEvent>, x: Seq<char>)
    requires
        forall|e: HeldEvent| a.contains(e) <==> b.contains(e),
    ensures
        ids_of(a).contains(x) <==> ids_of(b).contains(x),
{
    if ids_of(a).contains(x) {
        let q = choose|q: int| 0 <= q < ids_of(a).len() && ids_of(a)[q] == x;
        assert(a.contains(a[q]));
        let r = choose|r: int| 0 <= r < b.len() && b[r] == a[q];
        assert(ids_of(b)[r] == x);
    }
    if ids_of(b).contains(x) {
        let q = choose|q: int| 0 <= q < ids_of(b).len() && ids_of(b)[q] == x;
        assert(b.contains(b[q]));
        let r = choose|r: int| 0 <= r < a.len() && a[r] == b[q];
        assert(ids_of(a)[r] == x);
    }
}

} // verus!
