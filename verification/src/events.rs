//! A signed event as replication and the mailbox handle it: enough of it to
//! deduplicate, order, address and trust it, with the encoded event
//! carried along untouched.

use vstd::prelude::*;

verus! {

/// A signed event as it travels between replicas and mailboxes.
#[derive(Debug, Clone)]
pub struct HeldEvent {
    /// The content address: the same event has the same id everywhere.
    pub id: String,
    /// Signing time, in Unix seconds.
    pub created_at: u64,
    /// The first `p` tag: whom the event is addressed to, if anyone.
    pub recipient: Option<String>,
    /// The id and signature checked out when the event was decoded on this
    /// machine.
    pub verified: bool,
    /// The encoded event, carried as is.
    pub encoded: String,
}

/// The ids of a list of events.
pub open spec fn ids_of(v: Seq<HeldEvent>) -> Seq<Seq<char>> {
    v.map_values(|e: HeldEvent| e.id@)
}

/// No id occurs twice.
pub open spec fn ids_unique(v: Seq<HeldEvent>) -> bool {
    forall|a: int, b: int| 0 <= a < b < v.len() ==> (#[trigger] v[a]).id@ != (#[trigger] v[b]).id@
}

/// Oldest first.
pub open spec fn by_time(v: Seq<HeldEvent>) -> bool {
    forall|a: int, b: int| 0 <= a < b < v.len() ==> (#[trigger] v[a]).created_at <= (#[trigger] v[b]).created_at
}

/// An independent copy of `e`.
pub fn copy_event(e: &HeldEvent) -> (r: HeldEvent)
    ensures
        r == *e,
{
    HeldEvent {
        id: e.id.clone(),
        created_at: e.created_at,
        recipient: match &e.recipient {
            Some(p) => Some(p.clone()),
            None => None,
        },
        verified: e.verified,
        encoded: e.encoded.clone(),
    }
}

/// `v` ordered oldest first; events signed in the same second keep their
/// order.
pub fn sort_by_time(v: Vec<HeldEvent>) -> (r: Vec<HeldEvent>)
    requires
        ids_unique(v@),
    ensures
        r@.len() == v@.len(),
        forall|x: HeldEvent| r@.contains(x) <==> v@.contains(x),
        ids_unique(r@),
        by_time(r@),
        forall|a: int, b: int, i: int, j: int|
            0 <= a < b < r@.len() && 0 <= i < v@.len() && 0 <= j < v@.len() && #[trigger] r@[a] == #[trigger] v@[i]
                && #[trigger] r@[b] == #[trigger] v@[j] && r@[a].created_at == r@[b].created_at ==> i < j,
{
    let ghost all = v@;
    let mut rest = v;
    let mut out: Vec<HeldEvent> = Vec::new();
    let ghost mut pos: Seq<int> = Seq::empty();
    assert(all.skip(0) =~= all);
    while rest.len() > 0
        invariant
            ids_unique(all),
            rest@ == all.skip(all.len() - rest@.len()),
            pos.len() == out@.len(),
            forall|a: int| 0 <= a < pos.len() ==> 0 <= #[trigger] pos[a] < all.len() - rest@.len() && out@[a] == all[pos[a]],
            forall|a: int, b: int| 0 <= a < b < out@.len() && (#[trigger] out@[a]).created_at == (#[trigger] out@[b]).created_at
                ==> pos[a] < pos[b],
            out@.len() + rest@.len() == all.len(),
            forall|x: HeldEvent| (out@.contains(x) || rest@.contains(x)) <==> all.contains(x),
            ids_unique(out@),
            ids_unique(rest@),
            forall|a: int, b: int|
                0 <= a < out@.len() && 0 <= b < rest@.len() ==> (#[trigger] out@[a]).id@ != (#[trigger] rest@[b]).id@,
            by_time(out@),
        decreases rest.len(),
    {
        let ghost old_rest = rest@;
        let ghost old_out = out@;
        let ghost taken = all.len() - rest@.len();
        let ghost old_pos = pos;
        let x = rest.remove(0);
        assert(rest@ =~= old_rest.drop_first());
        assert(x == old_rest[0]);
        let mut p: usize = 0;
        while p < out.len() && out[p].created_at <= x.created_at
            invariant
                p <= out@.len(),
                out@ == old_out,
                forall|j: int| 0 <= j < p ==> (#[trigger] out@[j]).created_at <= x.created_at,
            decreases out.len() - p,
        {
            p = p + 1;
        }
        out.insert(p, x);
        proof {
            let nv = out@;
            assert(old_rest[0] == all[taken]);
            assert(rest@ =~= all.skip(all.len() - rest@.len()));
            pos = old_pos.take(p as int).push(taken) + old_pos.skip(p as int);
            assert forall|a: int| 0 <= a < pos.len() implies 0 <= #[trigger] pos[a] < all.len() - rest@.len() && out@[a]
                == all[pos[a]] by {
                if a < p {
                    assert(pos[a] == old_pos[a] && nv[a] == old_out[a]);
                } else if a > p {
                    assert(pos[a] == old_pos[a - 1] && nv[a] == old_out[a - 1]);
                } else {
                    assert(pos[a] == taken && nv[a] == x);
                }
            }
            assert forall|b: int| p < b < nv.len() implies (#[trigger] nv[b]).created_at > x.created_at by {
                assert(nv[b] == old_out[b - 1]);
                assert(old_out[p as int].created_at > x.created_at);
                assert(old_out[p as int].created_at <= old_out[b - 1].created_at || b - 1 == p);
            }
            assert forall|a: int, b: int| 0 <= a < b < nv.len() && (#[trigger] nv[a]).created_at == (#[trigger] nv[b]).created_at
                implies pos[a] < pos[b] by {
                if b < p {
                    assert(nv[a] == old_out[a] && nv[b] == old_out[b]);
                    assert(pos[a] == old_pos[a] && pos[b] == old_pos[b]);
                } else if b == p {
                    assert(pos[a] == old_pos[a] && pos[b] == taken);
                } else if a == p {
                    assert(nv[b].created_at > x.created_at);
                } else if a < p {
                    assert(nv[a] == old_out[a] && nv[b] == old_out[b - 1]);
                    assert(pos[a] == old_pos[a] && pos[b] == old_pos[b - 1]);
                } else {
                    assert(nv[a] == old_out[a - 1] && nv[b] == old_out[b - 1]);
                    assert(pos[a] == old_pos[a - 1] && pos[b] == old_pos[b - 1]);
                }
            }
            assert(nv =~= old_out.take(p as int).push(x) + old_out.skip(p as int));
            assert forall|a: int, b: int| 0 <= a < b < nv.len() implies (#[trigger] nv[a]).created_at
                <= (#[trigger] nv[b]).created_at by {
                if b < p {
                    assert(nv[a] == old_out[a] && nv[b] == old_out[b]);
                } else if b == p {
                    assert(nv[a] == old_out[a]);
                } else if a == p {
                    assert(nv[b] == old_out[b - 1]);
                    assert(old_out[p as int].created_at <= old_out[b - 1].created_at || b - 1 == p);
                } else if a < p {
                    assert(nv[a] == old_out[a] && nv[b] == old_out[b - 1]);
                } else {
                    assert(nv[a] == old_out[a - 1] && nv[b] == old_out[b - 1]);
                }
            }
            assert forall|a: int, b: int| 0 <= a < b < nv.len() implies (#[trigger] nv[a]).id@ != (#[trigger] nv[b]).id@ by {
                if b < p {
                    assert(nv[a] == old_out[a] && nv[b] == old_out[b]);
                } else if b == p {
                    assert(nv[a] == old_out[a]);
                } else if a == p {
                    assert(nv[b] == old_out[b - 1]);
                } else if a < p {
                    assert(nv[a] == old_out[a] && nv[b] == old_out[b - 1]);
                } else {
                    assert(nv[a] == old_out[a - 1] && nv[b] == old_out[b - 1]);
                }
            }
            assert forall|a: int, b: int|
                0 <= a < nv.len() && 0 <= b < rest@.len() implies (#[trigger] nv[a]).id@ != (#[trigger] rest@[b]).id@ by {
                assert(rest@[b] == old_rest[b + 1]);
                if a < p {
                    assert(nv[a] == old_out[a]);
                } else if a > p {
                    assert(nv[a] == old_out[a - 1]);
                }
            }
            assert forall|y: HeldEvent| (nv.contains(y) || rest@.contains(y)) <==> all.contains(y) by {
                if nv.contains(y) {
                    let q = choose|q: int| 0 <= q < nv.len() && nv[q] == y;
                    if q < p {
                        assert(old_out[q] == y);
                    } else if q > p {
                        assert(old_out[q - 1] == y);
                    } else {
                        assert(old_rest[0] == y);
                    }
                }
                if rest@.contains(y) {
                    let q = choose|q: int| 0 <= q < rest@.len() && rest@[q] == y;
                    assert(old_rest[q + 1] == y);
                }
                if all.contains(y) {
                    if old_out.contains(y) {
                        let q = choose|q: int| 0 <= q < old_out.len() && old_out[q] == y;
                        if q < p {
                            assert(nv[q] == y);
                        } else {
                            assert(nv[q + 1] == y);
                        }
                    } else {
                        let q = choose|q: int| 0 <= q < old_rest.len() && old_rest[q] == y;
                        if q == 0 {
                            assert(nv[p as int] == y);
                        } else {
                            assert(rest@[q - 1] == y);
                        }
                    }
                }
            }
        }
    }
    proof {
        assert forall|a: int, b: int, i: int, j: int|
            0 <= a < b < out@.len() && 0 <= i < all.len() && 0 <= j < all.len() && #[trigger] out@[a] == #[trigger] all[i]
                && #[trigger] out@[b] == #[trigger] all[j] && out@[a].created_at == out@[b].created_at implies i < j by {
            if i != pos[a] {
                assert(all[i].id@ == all[pos[a]].id@);
            }
            if j != pos[b] {
                assert(all[j].id@ == all[pos[b]].id@);
            }
        }
    }
    out
}

} // verus!
