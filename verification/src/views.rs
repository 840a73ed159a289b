//! What a shell is shown after a mailbox sync or a ledger round: counts,
//! and one line per failure, `source: message`, a run of identical lines
//! shown once.

use vstd::prelude::*;

use crate::ledger::LedgerRound;
use crate::sync::{FlushReport, PollReport};
use crate::text::{cat, str_eq};

verus! {

/// The line a failure is shown as.
pub open spec fn error_line(e: (String, String)) -> Seq<char> {
    e.0@ + ": "@ + e.1@
}

/// `lines` with each run of equal neighbours kept once.
pub open spec fn dedup_runs(lines: Seq<Seq<char>>) -> Seq<Seq<char>>
    decreases lines.len(),
{
    if lines.len() <= 1 {
        lines
    } else {
        let prev = dedup_runs(lines.drop_last());
        if lines.last() == lines[lines.len() - 2] {
            prev
        } else {
            prev.push(lines.last())
        }
    }
}

/// The failures of `errors`, in order, as shown.
pub open spec fn error_lines_spec(errors: Seq<(String, String)>) -> Seq<Seq<char>> {
    dedup_runs(errors.map_values(|e: (String, String)| error_line(e)))
}

proof fn lemma_dedup_last(lines: Seq<Seq<char>>)
    requires
        lines.len() > 0,
    ensures
        dedup_runs(lines).len() > 0,
        dedup_runs(lines).last() == lines.last(),
    decreases lines.len(),
{
    if lines.len() > 1 {
        lemma_dedup_last(lines.drop_last());
        assert(lines.drop_last().last() == lines[lines.len() - 2]);
    }
}

/// Show `errors` (`source`, `message`), one line each in order, a run of
/// identical lines once.
pub fn error_lines(errors: &[(String, String)]) -> (r: Vec<String>)
    ensures
        r@.map_values(|s: String| s@) == error_lines_spec(errors@),
{
    let ghost all = errors@.map_values(|e: (String, String)| error_line(e));
    let mut out: Vec<String> = Vec::new();
    let mut i: usize = 0;
    while i < errors.len()
        invariant
            i <= errors@.len(),
            all == errors@.map_values(|e: (String, String)| error_line(e)),
            out@.map_values(|s: String| s@) == dedup_runs(all.take(i as int)),
        decreases errors.len() - i,
    {
        let head = cat(errors[i].0.as_str(), ": ");
        let line = cat(head.as_str(), errors[i].1.as_str());
        let ghost before = out@;
        proof {
            assert(all.take(i + 1).drop_last() =~= all.take(i as int));
            assert(all.take(i + 1).last() == all[i as int]);
            assert(all[i as int] == error_line(errors@[i as int]));
            assert(line@ == all[i as int]);
            if i > 0 {
                lemma_dedup_last(all.take(i as int));
                assert(all.take(i + 1)[i - 1] == all.take(i as int).last());
            }
        }
        let repeat = out.len() > 0 && str_eq(out[out.len() - 1].as_str(), line.as_str());
        if !repeat {
            out.push(line);
            assert(out@.map_values(|s: String| s@) =~= before.map_values(|s: String| s@).push(all[i as int]));
        }
        proof {
            if i > 0 {
                assert(before.map_values(|s: String| s@).last() == before[before.len() - 1]@);
            }
        }
        i = i + 1;
    }
    assert(all.take(errors@.len() as int) =~= all);
    out
}

/// What one mailbox sync did, as a shell shows it.
#[derive(Debug, Clone)]
pub struct SyncView {
    pub delivered: usize,
    pub rejected: usize,
    /// Records held after this pass: the running total.
    pub held: usize,
    pub published: usize,
    pub still_queued: usize,
    /// Referral events this pass queued to forward on a contact's behalf.
    pub routed: usize,
    /// The flush's failures, then the poll's.
    pub errors: Vec<String>,
}

impl SyncView {
    /// The view of a flush then a poll, with `held` events held afterwards
    /// and `routed` events queued to forward.
    pub fn of(flushed: &FlushReport, polled: &PollReport, held: usize, routed: usize) -> (r: Self)
        ensures
            r.delivered == polled.delivered@.len(),
            r.rejected == polled.rejected,
            r.held == held,
            r.published == flushed.published,
            r.still_queued == flushed.still_queued,
            r.routed == routed,
            r.errors@.map_values(|s: String| s@) == error_lines_spec(flushed.errors@ + polled.errors@),
    {
        let mut all: Vec<(String, String)> = Vec::new();
        let mut i: usize = 0;
        while i < flushed.errors.len()
            invariant
                i <= flushed.errors@.len(),
                all@ == flushed.errors@.take(i as int),
            decreases flushed.errors.len() - i,
        {
            let e = &flushed.errors[i];
            all.push((e.0.clone(), e.1.clone()));
            assert(all@ =~= flushed.errors@.take(i + 1));
            i = i + 1;
        }
        assert(flushed.errors@.take(flushed.errors@.len() as int) =~= flushed.errors@);
        let mut j: usize = 0;
        while j < polled.errors.len()
            invariant
                j <= polled.errors@.len(),
                all@ == flushed.errors@ + polled.errors@.take(j as int),
            decreases polled.errors.len() - j,
        {
            let e = &polled.errors[j];
            all.push((e.0.clone(), e.1.clone()));
            assert(all@ =~= flushed.errors@ + polled.errors@.take(j + 1));
            j = j + 1;
        }
        assert(polled.errors@.take(polled.errors@.len() as int) =~= polled.errors@);
        SyncView {
            delivered: polled.delivered.len(),
            rejected: polled.rejected,
            held,
            published: flushed.published,
            still_queued: flushed.still_queued,
            routed,
            errors: error_lines(all.as_slice()),
        }
    }
}

/// What one ledger round did, as a shell shows it.
#[derive(Debug, Clone)]
pub struct LedgerView {
    /// New events merged from peers this round.
    pub received: usize,
    /// Events peers accepted as new to them.
    pub pushed: usize,
    /// Events a peer served that failed verification.
    pub rejected: usize,
    /// Running total held after the merge.
    pub held: usize,
    pub errors: Vec<String>,
}

impl LedgerView {
    /// The view of `round`, with `held` events held afterwards.
    pub fn of(round: &LedgerRound, held: usize) -> (r: Self)
        ensures
            r.received == round.received@.len(),
            r.pushed == round.pushed,
            r.rejected == round.rejected,
            r.held == held,
            r.errors@.map_values(|s: String| s@) == error_lines_spec(round.errors@),
    {
        LedgerView {
            received: round.received.len(),
            pushed: round.pushed,
            rejected: round.rejected,
            held,
            errors: error_lines(round.errors.as_slice()),
        }
    }
}

} // verus!
