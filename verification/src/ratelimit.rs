//! Fixed-window rate limiting keyed by caller-chosen strings (a source
//! address, a target account, prefixed per route). One process, in memory.
//!
//! Time is counted in nanoseconds since the limiter was created. The
//! decisions are made by [`RateLimiter::check_at`] and
//! [`RateLimiter::sweep_at`] on an explicit clock reading; [`RateLimiter::check`]
//! and [`RateLimiter::sweep`] read the monotonic clock and delegate.

use std::time::Instant;

use vstd::prelude::*;

use crate::text::{str_eq, string_from_str};

verus! {

/// `std::time::Instant`, carried opaquely as the limiter's clock origin.
#[verifier::external_type_specification]
#[verifier::external_body]
pub struct ExInstant(Instant);

/// `Instant::now`: the current monotonic instant. Nothing is claimed of it.
#[verifier::external_body]
fn instant_now() -> Instant {
    Instant::now()
}

/// `Instant::elapsed`, in nanoseconds, saturated to `u64`. Nothing is
/// claimed of it: it depends on the clock.
#[verifier::external_body]
fn elapsed_nanos(origin: &Instant) -> u64 {
    u64::try_from(origin.elapsed().as_nanos()).unwrap_or(u64::MAX)
}


/// Nanoseconds in a second.
pub const NANOS_PER_SEC: u64 = 1_000_000_000;

/// The limit under a key was exceeded; retry no sooner than this.
#[derive(Debug, PartialEq, Eq, Structural)]
pub struct RateLimited {
    pub retry_after_secs: u64,
}

#[derive(Debug, Clone, Copy)]
struct Window {
    started: u64,
    count: u32,
    /// The window length of the latest attempt, in nanoseconds.
    len: u64,
}

/// The limiter: one counting window per key.
pub struct RateLimiter {
    origin: Instant,
    windows: Vec<(String, Window)>,
}

/// `now - then`, or zero when `then` is later.
pub open spec fn age(now: u64, then: u64) -> int {
    if now >= then { now - then } else { 0 }
}

/// A window as a `(started, count, length)` triple: when it opened, the
/// attempts counted in it, and the window length of the latest attempt.
pub type WindowView = (u64, u32, u64);

/// One recorded attempt: the window a key holds afterwards, and whether the
/// attempt is within the limit. A missing or elapsed window restarts at
/// `now` with a zero count; the count then goes up by one (saturating).
pub open spec fn step(w: Option<WindowView>, limit: u32, window: u64, now: u64) -> (WindowView, bool) {
    let (s, c) = match w {
        Some((s, c, _)) => if age(now, s) >= window { (now, 0u32) } else { (s, c) },
        None => (now, 0u32),
    };
    let c2: u32 = if c < u32::MAX { (c + 1) as u32 } else { c };
    ((s, c2, window), c2 <= limit)
}

/// A window is still worth keeping at `now`: it has not been closed for
/// `max_age` already (it closed `len` after it opened).
pub open spec fn kept_at(v: WindowView, now: u64, max_age: u64) -> bool {
    !(now >= v.0 + v.2 + max_age)
}

/// What a sweep at `now` with limit `max_age` leaves of a window.
pub open spec fn swept(w: Option<WindowView>, now: u64, max_age: u64) -> Option<WindowView> {
    match w {
        Some(v) => if kept_at(v, now, max_age) { Some(v) } else { None },
        None => None,
    }
}

/// Whole seconds until the window that started at `started` closes, and at
/// least one.
pub open spec fn retry_secs(window: u64, started: u64, now: u64) -> u64 {
    let left = window - age(now, started);
    let secs = if left > 0 { left / (NANOS_PER_SEC as int) } else { 0 };
    if secs >= 1 { secs as u64 } else { 1 }
}

/// The window of `key` among `entries`, first match.
pub open spec fn lookup(entries: Seq<(String, WindowView)>, key: Seq<char>) -> Option<WindowView>
    decreases entries.len(),
{
    if entries.len() == 0 {
        None
    } else if entries[0].0@ == key {
        Some(entries[0].1)
    } else {
        lookup(entries.drop_first(), key)
    }
}

spec fn view_entry(e: (String, Window)) -> (String, WindowView) {
    (e.0, (e.1.started, e.1.count, e.1.len))
}

spec fn view_entries(v: Seq<(String, Window)>) -> Seq<(String, WindowView)> {
    v.map_values(|e: (String, Window)| view_entry(e))
}

proof fn lemma_lookup_absent(entries: Seq<(String, WindowView)>, key: Seq<char>)
    requires
        forall|i: int| 0 <= i < entries.len() ==> (#[trigger] entries[i]).0@ != key,
    ensures
        lookup(entries, key) is None,
    decreases entries.len(),
{
    if entries.len() > 0 {
        assert forall|i: int| 0 <= i < entries.drop_first().len() implies (#[trigger] entries.drop_first()[i]).0@ != key by {
            assert(entries.drop_first()[i] == entries[i + 1]);
        }
        lemma_lookup_absent(entries.drop_first(), key);
    }
}

proof fn lemma_lookup_at(entries: Seq<(String, WindowView)>, key: Seq<char>, i: int)
    requires
        0 <= i < entries.len(),
        entries[i].0@ == key,
        forall|j: int| 0 <= j < i ==> (#[trigger] entries[j]).0@ != key,
    ensures
        lookup(entries, key) == Some(entries[i].1),
    decreases i,
{
    if i > 0 {
        assert forall|j: int| 0 <= j < i - 1 implies (#[trigger] entries.drop_first()[j]).0@ != key by {
            assert(entries.drop_first()[j] == entries[j + 1]);
        }
        lemma_lookup_at(entries.drop_first(), key, i - 1);
    }
}

proof fn lemma_lookup_unique(entries: Seq<(String, WindowView)>, key: Seq<char>, i: int)
    requires
        0 <= i < entries.len(),
        entries[i].0@ == key,
        forall|a: int, b: int| 0 <= a < b < entries.len() ==> (#[trigger] entries[a]).0@ != (#[trigger] entries[b]).0@,
    ensures
        lookup(entries, key) == Some(entries[i].1),
{
    lemma_lookup_at(entries, key, i);
}

impl RateLimiter {
    /// The entries, as `(key, (started, count, length))` pairs.
    pub closed spec fn entries(&self) -> Seq<(String, WindowView)> {
        view_entries(self.windows@)
    }

    /// The window `key` holds, if any.
    pub open spec fn window(&self, key: Seq<char>) -> Option<WindowView> {
        lookup(self.entries(), key)
    }

    /// Keys are held at most once.
    pub open spec fn wf(&self) -> bool {
        forall|a: int, b: int|
            0 <= a < b < self.entries().len() ==> (#[trigger] self.entries()[a]).0@ != (
            #[trigger] self.entries()[b]).0@
    }

    /// An empty limiter whose clock starts now.
    pub fn new() -> (r: Self)
        ensures
            r.wf(),
            forall|k: Seq<char>| #[trigger] r.window(k) is None,
    {
        let r = RateLimiter { origin: instant_now(), windows: Vec::new() };
        assert(r.entries() =~= Seq::<(String, WindowView)>::empty());
        r
    }

    fn find(&self, key: &str) -> (r: Option<usize>)
        requires
            self.wf(),
        ensures
            r matches Some(i) ==> i < self.windows@.len() && self.entries()[i as int].0@ == key@
                && self.window(key@) == Some(self.entries()[i as int].1),
            r is None ==> self.window(key@) is None,
            r is None ==> forall|j: int| 0 <= j < self.entries().len() ==> (#[trigger] self.entries()[j]).0@ != key@,
    {
        let mut i: usize = 0;
        while i < self.windows.len()
            invariant
                i <= self.windows@.len(),
                self.wf(),
                forall|j: int| 0 <= j < i ==> (#[trigger] self.entries()[j]).0@ != key@,
            decreases self.windows.len() - i,
        {
            if str_eq(self.windows[i].0.as_str(), key) {
                proof {
                    lemma_lookup_unique(self.entries(), key@, i as int);
                }
                return Some(i);
            }
            i = i + 1;
        }
        proof {
            lemma_lookup_absent(self.entries(), key@);
        }
        None
    }

    /// Whether `key` currently holds a window.
    pub fn holds(&self, key: &str) -> (r: bool)
        requires
            self.wf(),
        ensures
            r == self.window(key@) is Some,
    {
        self.find(key).is_some()
    }

    /// Record one attempt under `key` at clock reading `now` (nanoseconds),
    /// against `limit` attempts per `window` nanoseconds. `Ok` while the
    /// count inside the current window is at or below `limit`; past it,
    /// `Err` with the whole seconds (at least one) until the window closes.
    /// Every other key is untouched.
    pub fn check_at(&mut self, key: &str, limit: u32, window: u64, now: u64) -> (r: Result<
        (),
        RateLimited,
    >)
        requires
            old(self).wf(),
        ensures
            final(self).wf(),
            final(self).window(key@) == Some(step(old(self).window(key@), limit, window, now).0),
            r is Ok <==> step(old(self).window(key@), limit, window, now).1,
            r matches Err(e) ==> e.retry_after_secs == retry_secs(
                window,
                step(old(self).window(key@), limit, window, now).0.0,
                now,
            ),
            forall|k: Seq<char>| k != key@ ==> #[trigger] final(self).window(k) == old(self).window(k),
    {
        let found = self.find(key);
        let ghost old_entries = self.entries();
        let idx: usize = match found {
            Some(i) => i,
            None => {
                self.windows.push((string_from_str(key), Window { started: now, count: 0, len: window }));
                proof {
                    let e = self.entries();
                    assert(e =~= old_entries.push((e[e.len() - 1].0, (now, 0u32, window))));
                    assert forall|k: Seq<char>| k != key@ implies #[trigger] lookup(e, k) == lookup(old_entries, k) by {
                        lemma_lookup_push(old_entries, e[e.len() - 1], k);
                    }
                    assert forall|j: int| 0 <= j < e.len() - 1 implies (#[trigger] e[j]).0@ != key@ by {
                        assert(e[j] == old_entries[j]);
                    }
                }
                self.windows.len() - 1
            },
        };
        let ghost mid_entries = self.entries();
        proof {
            lemma_lookup_unique(mid_entries, key@, idx as int);
        }
        let mut w = self.windows[idx].1;
        let elapsed = if now >= w.started { now - w.started } else { 0 };
        if elapsed >= window {
            w.started = now;
            w.count = 0;
        }
        w.count = if w.count < u32::MAX { w.count + 1 } else { w.count };
        w.len = window;
        let k = self.windows[idx].0.clone();
        self.windows.set(idx, (k, w));
        proof {
            let e = self.entries();
            assert(e =~= mid_entries.update(idx as int, (mid_entries[idx as int].0, (w.started, w.count, w.len))));
            lemma_lookup_unique(e, key@, idx as int);
            assert forall|kk: Seq<char>| kk != key@ implies #[trigger] lookup(e, kk) == lookup(mid_entries, kk) by {
                lemma_lookup_update_other(mid_entries, idx as int, (w.started, w.count, w.len), kk);
            }
        }
        if w.count > limit {
            let since = if now >= w.started { now - w.started } else { 0 };
            let left = if window > since { window - since } else { 0 };
            let secs = left / NANOS_PER_SEC;
            Err(RateLimited { retry_after_secs: if secs >= 1 { secs } else { 1 } })
        } else {
            Ok(())
        }
    }

    /// What a recorded attempt under `key` at clock reading `now` made of
    /// `before`: exactly what [`RateLimiter::check_at`] promises.
    pub open spec fn checked_from(
        &self,
        before: RateLimiter,
        key: Seq<char>,
        limit: u32,
        window: u64,
        now: u64,
        r: Result<(), RateLimited>,
    ) -> bool {
        &&& self.window(key) == Some(step(before.window(key), limit, window, now).0)
        &&& (r is Ok <==> step(before.window(key), limit, window, now).1)
        &&& (r matches Err(e) ==> e.retry_after_secs == retry_secs(
            window,
            step(before.window(key), limit, window, now).0.0,
            now,
        ))
        &&& forall|k: Seq<char>| k != key ==> #[trigger] self.window(k) == before.window(k)
    }

    /// Record one attempt under `key` now, against `limit` attempts per
    /// `window` nanoseconds: the outcome is that of
    /// [`RateLimiter::check_at`] at the monotonic clock reading taken.
    pub fn check(&mut self, key: &str, limit: u32, window: u64) -> (r: Result<(), RateLimited>)
        requires
            old(self).wf(),
        ensures
            final(self).wf(),
            exists|now: u64| #[trigger] final(self).checked_from(*old(self), key@, limit, window, now, r),
    {
        let now = elapsed_nanos(&self.origin);
        let r = self.check_at(key, limit, window, now);
        assert(self.checked_from(*old(self), key@, limit, window, now, r));
        r
    }

    /// Drop every window that closed at least `max_age` nanoseconds before
    /// `now` (a window closes its length after it opened); keep the rest
    /// unchanged.
    pub fn sweep_at(&mut self, max_age: u64, now: u64)
        requires
            old(self).wf(),
        ensures
            final(self).wf(),
            final(self).swept_from(*old(self), max_age, now),
    {
        let ghost old_entries = self.entries();
        let ghost mut idxs: Seq<int> = Seq::empty();
        let mut kept: Vec<(String, Window)> = Vec::new();
        let mut i: usize = 0;
        while i < self.windows.len()
            invariant
                i <= self.windows@.len(),
                self.wf(),
                old_entries == self.entries(),
                idxs.len() == kept@.len(),
                forall|a: int| 0 <= a < idxs.len() ==> 0 <= #[trigger] idxs[a] < i,
                forall|a: int| 0 <= a < idxs.len() ==> #[trigger] view_entries(kept@)[a] == old_entries[idxs[a]],
                forall|a: int, b: int| 0 <= a < b < idxs.len() ==> #[trigger] idxs[a] < #[trigger] idxs[b],
                forall|k: Seq<char>| #[trigger] lookup(view_entries(kept@), k) == swept(lookup(old_entries.take(i as int), k), now, max_age),
            decreases self.windows.len() - i,
        {
            let e = (self.windows[i].0.clone(), self.windows[i].1);
            let w = self.windows[i].1;
            let keep = (now as u128) < (w.started as u128) + (w.len as u128) + (max_age as u128);
            let ghost before = view_entries(kept@);
            let ghost before_idxs = idxs;
            if keep {
                kept.push(e);
                proof {
                    idxs = idxs.push(i as int);
                    assert(view_entries(kept@) =~= before.push(old_entries[i as int]));
                }
            } else {
                proof {
                    assert(view_entries(kept@) =~= before);
                }
            }
            proof {
                lemma_sweep_step(old_entries, i as int, before, before_idxs, view_entries(kept@), keep, now, max_age);
            }
            i = i + 1;
        }
        proof {
            assert(old_entries.take(old_entries.len() as int) =~= old_entries);
            let v = view_entries(kept@);
            assert forall|a: int, b: int| 0 <= a < b < v.len() implies (#[trigger] v[a]).0@ != (#[trigger] v[b]).0@ by {
                assert(idxs[a] < idxs[b]);
            }
        }
        self.windows = kept;
    }

    /// What is left of `before` after a sweep at clock reading `now` with
    /// `max_age` (nanoseconds): the windows that had not been closed for
    /// `max_age` at `now`, unchanged; nothing else.
    pub open spec fn swept_from(&self, before: RateLimiter, max_age: u64, now: u64) -> bool {
        forall|k: Seq<char>| #[trigger] self.window(k) == swept(before.window(k), now, max_age)
    }

    /// Drop windows that closed at least `max_age` nanoseconds ago, so
    /// one-shot keys do not accumulate: the outcome is that of
    /// [`RateLimiter::sweep_at`] at the monotonic clock reading taken.
    pub fn sweep(&mut self, max_age: u64)
        requires
            old(self).wf(),
        ensures
            final(self).wf(),
            exists|now: u64| #[trigger] final(self).swept_from(*old(self), max_age, now),
    {
        let now = elapsed_nanos(&self.origin);
        self.sweep_at(max_age, now);
        assert(self.swept_from(*old(self), max_age, now));
    }
}

proof fn lemma_lookup_push(entries: Seq<(String, WindowView)>, e: (String, WindowView), k: Seq<char>)
    requires
        e.0@ != k,
    ensures
        lookup(entries.push(e), k) == lookup(entries, k),
    decreases entries.len(),
{
    if entries.len() > 0 {
        assert(entries.push(e)[0] == entries[0]);
        assert(entries.push(e).drop_first() =~= entries.drop_first().push(e));
        lemma_lookup_push(entries.drop_first(), e, k);
    } else {
        assert(entries.push(e)[0] == e);
        assert(entries.push(e).drop_first() =~= Seq::<(String, WindowView)>::empty());
        assert(lookup(Seq::<(String, WindowView)>::empty(), k) is None);
    }
}

proof fn lemma_lookup_update_other(entries: Seq<(String, WindowView)>, i: int, v: WindowView, k: Seq<char>)
    requires
        0 <= i < entries.len(),
        entries[i].0@ != k,
    ensures
        lookup(entries.update(i, (entries[i].0, v)), k) == lookup(entries, k),
    decreases entries.len(),
{
    let u = entries.update(i, (entries[i].0, v));
    if i > 0 {
        assert(u.drop_first() =~= entries.drop_first().update(i - 1, (entries.drop_first()[i - 1].0, v)));
        lemma_lookup_update_other(entries.drop_first(), i - 1, v, k);
    } else {
        assert(u.drop_first() =~= entries.drop_first());
    }
}

proof fn lemma_lookup_take_push(entries: Seq<(String, WindowView)>, i: int, k: Seq<char>)
    requires
        0 <= i < entries.len(),
    ensures
        lookup(entries.take(i + 1), k) == match lookup(entries.take(i), k) {
            Some(w) => Some(w),
            None => if entries[i].0@ == k { Some(entries[i].1) } else { None },
        },
    decreases i,
{
    if i > 0 {
        assert(entries.take(i + 1).drop_first() =~= entries.drop_first().take(i));
        assert(entries.take(i).drop_first() =~= entries.drop_first().take(i - 1));
        lemma_lookup_take_push(entries.drop_first(), i - 1, k);
    } else {
        assert(entries.take(1).drop_first() =~= Seq::<(String, WindowView)>::empty());
        assert(entries.take(0) =~= Seq::<(String, WindowView)>::empty());
    }
}

proof fn lemma_sweep_step(
    old_entries: Seq<(String, WindowView)>,
    i: int,
    before: Seq<(String, WindowView)>,
    idxs: Seq<int>,
    after: Seq<(String, WindowView)>,
    keep: bool,
    now: u64,
    max_age: u64,
)
    requires
        0 <= i < old_entries.len(),
        forall|a: int, b: int| 0 <= a < b < old_entries.len() ==> (#[trigger] old_entries[a]).0@ != (#[trigger] old_entries[b]).0@,
        keep == kept_at(old_entries[i].1, now, max_age),
        keep ==> after == before.push(old_entries[i]),
        !keep ==> after == before,
        forall|k: Seq<char>| #[trigger] lookup(before, k) == swept(lookup(old_entries.take(i), k), now, max_age),
        idxs.len() == before.len(),
        forall|a: int| 0 <= a < idxs.len() ==> 0 <= #[trigger] idxs[a] < i,
        forall|a: int| 0 <= a < idxs.len() ==> #[trigger] before[a] == old_entries[idxs[a]],
    ensures
        forall|k: Seq<char>| #[trigger] lookup(after, k) == swept(lookup(old_entries.take(i + 1), k), now, max_age),
{
    assert forall|k: Seq<char>| #[trigger] lookup(after, k) == swept(lookup(old_entries.take(i + 1), k), now, max_age) by {
        lemma_lookup_take_push(old_entries, i, k);
        if old_entries[i].0@ == k {
            assert forall|j: int| 0 <= j < i implies (#[trigger] old_entries.take(i)[j]).0@ != k by {
                assert(old_entries.take(i)[j] == old_entries[j]);
            }
            lemma_lookup_absent(old_entries.take(i), k);
            if keep {
                assert forall|a: int| 0 <= a < before.len() implies (#[trigger] before[a]).0@ != k by {
                    assert(before[a] == old_entries[idxs[a]]);
                }
                lemma_lookup_absent(before, k);
                lemma_lookup_push_hit(before, old_entries[i], k);
            }
        } else if keep {
            lemma_lookup_push(before, old_entries[i], k);
        }
    }
}

proof fn lemma_lookup_push_hit(entries: Seq<(String, WindowView)>, e: (String, WindowView), k: Seq<char>)
    requires
        e.0@ == k,
        lookup(entries, k) is None,
    ensures
        lookup(entries.push(e), k) == Some(e.1),
    decreases entries.len(),
{
    if entries.len() > 0 {
        assert(entries.push(e).drop_first() =~= entries.drop_first().push(e));
        lemma_lookup_push_hit(entries.drop_first(), e, k);
    } else {
        assert(entries.push(e)[0] == e);
    }
}

} // verus!

verus! {

/// Replay of attempts under one key: the window left behind and the verdict
/// of each attempt, in order.
pub open spec fn replay(w: Option<WindowView>, limit: u32, window: u64, times: Seq<u64>) -> (
    Option<WindowView>,
    Seq<bool>,
)
    decreases times.len(),
{
    if times.len() == 0 {
        (w, Seq::empty())
    } else {
        let (prev_w, prev_v) = replay(w, limit, window, times.drop_last());
        let (next, ok) = step(prev_w, limit, window, times.last());
        (Some(next), prev_v.push(ok))
    }
}

/// A fresh key gets exactly `limit` successful attempts inside one window:
/// attempts at non-decreasing clock readings all less than `window` after the
/// first are admitted while at most `limit` have been made, and refused after.
pub proof fn law_budget_within_one_window(limit: u32, window: u64, times: Seq<u64>)
    requires
        limit < u32::MAX,
        times.len() > 0,
        forall|i: int, j: int| 0 <= i <= j < times.len() ==> times[i] <= times[j],
        forall|j: int| 0 <= j < times.len() ==> age(#[trigger] times[j], times[0]) < window,
    ensures
        forall|j: int| 0 <= j < times.len() ==> (#[trigger] replay(None, limit, window, times).1[j])
            == (j < limit),
    decreases times.len(),
{
    lemma_replay_counts(limit, window, times);
}

proof fn lemma_replay_counts(limit: u32, window: u64, times: Seq<u64>)
    requires
        limit < u32::MAX,
        times.len() > 0,
        forall|i: int, j: int| 0 <= i <= j < times.len() ==> times[i] <= times[j],
        forall|j: int| 0 <= j < times.len() ==> age(#[trigger] times[j], times[0]) < window,
    ensures
        replay(None, limit, window, times).0 == Some(
            (times[0], if times.len() < u32::MAX { times.len() as u32 } else { u32::MAX }, window),
        ),
        replay(None, limit, window, times).1.len() == times.len(),
        forall|j: int| 0 <= j < times.len() ==> (#[trigger] replay(None, limit, window, times).1[j])
            == (j < limit),
    decreases times.len(),
{
    let r = replay(None, limit, window, times);
    if times.len() == 1 {
        assert(times.drop_last().len() == 0);
    } else {
        let init = times.drop_last();
        assert forall|i: int, j: int| 0 <= i <= j < init.len() implies init[i] <= init[j] by {
            assert(init[i] == times[i] && init[j] == times[j]);
        }
        assert forall|j: int| 0 <= j < init.len() implies age(#[trigger] init[j], init[0]) < window by {
            assert(init[j] == times[j]);
        }
        lemma_replay_counts(limit, window, init);
        let prev = replay(None, limit, window, init);
        assert(age(times.last(), times[0]) < window);
        assert forall|j: int| 0 <= j < times.len() implies (#[trigger] r.1[j]) == (j < limit) by {
            if j < init.len() {
                assert(r.1[j] == prev.1[j]);
            }
        }
    }
}

/// Once a key's window has elapsed, the next attempt is judged exactly as
/// for a key never seen: the budget is back in full.
pub proof fn law_window_rolls_over(s: u64, c: u32, len: u64, limit: u32, window: u64, now: u64)
    requires
        age(now, s) >= window,
    ensures
        step(Some((s, c, len)), limit, window, now) == step(None, limit, window, now),
{
}

/// A sweep never drops a window that is still open, whatever `max_age`.
pub proof fn law_sweep_keeps_open_windows(v: WindowView, now: u64, max_age: u64)
    requires
        now < v.0 + v.2,
    ensures
        swept(Some(v), now, max_age) == Some(v),
{
}

} // verus!
